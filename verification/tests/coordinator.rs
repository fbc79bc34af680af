use sha1::{Digest, Sha1};
use tempest::coordinator::dial::{Dialer, MAX_DIALS};
use tempest::coordinator::{
    Action, Coordinator, CHOKE_INTERVAL, MAX_DOWNLOADING_PEERS, MAX_INFLIGHT_PER_PEER,
    OPTIMISTIC_EVERY, UNCHOKE_SLOTS,
};
use tempest::metainfo::{Info, Layout, MetaInfo, TorrentFile};
use tempest::peer::{CmdMsg, PeerId, PeerMsg};
use tempest::piece::{Bitfield, PieceState, BLOCK_SIZE};
use tempest::storage::FileSlice;

const BLOCK: usize = BLOCK_SIZE as usize;

fn digest(bytes: &[u8]) -> [u8; 20] {
    let mut hasher = Sha1::new();
    hasher.update(bytes);
    hasher.finalize().into()
}

fn meta(pieces: &[Vec<u8>]) -> MetaInfo {
    let total: u64 = pieces.iter().map(|p| p.len() as u64).sum();
    MetaInfo {
        announce: "udp://t".to_owned(),
        announce_list: vec![],
        info: Info {
            name: "file".to_owned(),
            piece_length: pieces[0].len() as u64,
            piece_hashes: pieces.iter().map(|p| digest(p)).collect(),
            layout: Layout::Single { length: total },
        },
        info_hash: [1u8; 20],
        total_length: total,
        num_pieces: pieces.len(),
    }
}

fn coordinator(pieces: &[Vec<u8>]) -> Coordinator {
    Coordinator::new(meta(pieces), [2u8; 20], 6881)
}

fn full(n: usize) -> Bitfield {
    let mut bf = Bitfield::new(n);
    for i in 0..n {
        bf.set(i);
    }
    bf
}

/// Lets a peer with all pieces join and unchoke us.
fn join(c: &mut Coordinator) -> (PeerId, Vec<(PeerId, u32, u32, u32)>) {
    let (id, _) = c.register_peer();
    let n = c.meta.num_pieces;
    handle(c, PeerMsg::Connected { id, peer_id: [3u8; 20] });
    handle(c, PeerMsg::Bitfield { id, bits: full(n) });
    let actions = handle(c, PeerMsg::Unchoked { id });
    (id, asked(&actions))
}

fn handle(c: &mut Coordinator, msg: PeerMsg) -> Vec<Action> {
    assert!(c.admits(&msg));
    c.handle_peer_msg(msg)
}

fn asked(actions: &[Action]) -> Vec<(PeerId, u32, u32, u32)> {
    let mut out = Vec::new();
    for a in actions {
        if let Action::Send { id, cmd: CmdMsg::RequestBlock { index, begin, length } } = a {
            out.push((*id, *index, *begin, *length));
        }
    }
    out
}

fn told(actions: &[Action]) -> Vec<(PeerId, String)> {
    let mut out = Vec::new();
    for a in actions {
        if let Action::Send { id, cmd } = a {
            out.push((*id, format!("{:?}", cmd)));
        }
    }
    out.sort();
    out
}

fn block(c: &mut Coordinator, id: PeerId, index: u32, begin: u32, data: &[u8]) -> Vec<Action> {
    handle(c, PeerMsg::BlockReceived { id, index, begin, data: data.to_vec() })
}

#[test]
fn the_numbers_of_the_window_and_the_slots() {
    assert_eq!(MAX_INFLIGHT_PER_PEER, 12);
    assert_eq!(MAX_DOWNLOADING_PEERS, 8);
    assert_eq!(UNCHOKE_SLOTS, 3);
    assert_eq!(CHOKE_INTERVAL, 10);
    assert_eq!(OPTIMISTIC_EVERY, 3);
}

#[test]
fn newcomers_are_numbered_and_told_what_is_there() {
    let mut c = coordinator(&[vec![1; 10], vec![2; 10]]);
    let (one, action) = c.register_peer();
    assert_eq!(one, 1);
    assert_eq!(told(&[action]), vec![(1, "SendBitfield([0])".to_owned())]);
    let (two, _) = c.register_peer();
    assert_eq!(two, 2);
    assert_eq!(c.peers.len(), 2);
    assert!(c.peers[&1].am_choking && c.peers[&1].peer_choking);
    assert!(!c.peers[&1].peer_interested);
}

#[test]
fn interest_is_shown() {
    let mut c = coordinator(&[vec![1; 10]]);
    let (id, _) = c.register_peer();
    let said = vec![(id, "Interested".to_owned())];
    assert_eq!(told(&handle(&mut c, PeerMsg::Connected { id, peer_id: [0; 20] })), said);
    assert_eq!(told(&handle(&mut c, PeerMsg::Bitfield { id, bits: full(1) })), said);
    assert_eq!(told(&handle(&mut c, PeerMsg::Have { id, index: 0 })), said);
    assert!(handle(&mut c, PeerMsg::Connected { id: 9, peer_id: [0; 20] }).is_empty());
    assert!(handle(&mut c, PeerMsg::Have { id: 9, index: 0 }).is_empty());
}

#[test]
fn nothing_is_asked_of_a_peer_that_chokes_us() {
    let mut c = coordinator(&[vec![1; 10]]);
    let (id, _) = c.register_peer();
    let actions = handle(&mut c, PeerMsg::Bitfield { id, bits: full(1) });
    assert!(asked(&actions).is_empty());
    assert_eq!(asked(&handle(&mut c, PeerMsg::Unchoked { id })), vec![(id, 0, 0, 10)]);
}

#[test]
fn a_download_runs_to_its_end() {
    let pieces = vec![vec![1u8; BLOCK + 5], vec![2u8; BLOCK + 5], vec![3u8; 7]];
    let mut c = coordinator(&pieces);
    let (id, mut queue) = join(&mut c);
    let (other, _) = c.register_peer();
    let mut written = Vec::new();
    while let Some((_, index, begin, length)) = queue.pop() {
        let data = &pieces[index as usize][begin as usize..(begin + length) as usize];
        let actions = block(&mut c, id, index, begin, data);
        for a in &actions {
            if let Action::WritePiece { index, data, plan } = a {
                assert_eq!(data, &pieces[*index as usize]);
                assert!(plan.outcome.is_ok());
                let have = format!("Have({})", index);
                assert!(told(&actions).contains(&(id, have.clone())));
                assert!(told(&actions).contains(&(other, have)));
                written.push(*index);
            }
        }
        queue.extend(asked(&actions));
    }
    written.sort();
    assert_eq!(written, vec![0, 1, 2]);
    assert!(c.pieces.is_complete());
    assert_eq!(c.downloaded(), 2 * (BLOCK as u64 + 5) + 7);
    let end = "Shutdown".to_owned();
    assert_eq!(told(&c.shutdown()), vec![(id, end.clone()), (other, end)]);
}

#[test]
fn a_verified_piece_goes_to_its_place() {
    let pieces = vec![vec![1u8; 10], vec![2u8; 10]];
    let mut c = coordinator(&pieces);
    let (id, _) = join(&mut c);
    let actions = block(&mut c, id, 1, 0, &pieces[1]);
    match &actions[0] {
        Action::WritePiece { index, data, plan } => {
            assert_eq!(*index, 1);
            assert_eq!(data, &pieces[1]);
            assert_eq!(
                plan.slices,
                vec![FileSlice { file: 0, offset: 10, at: 0, length: 10 }]
            );
        }
        _ => panic!("not written"),
    }
    assert!(c.pieces.has_piece(1));
}

#[test]
fn no_more_than_the_window_is_asked_for() {
    let mut c = coordinator(&[vec![1u8; 20 * BLOCK]]);
    let (id, asks) = join(&mut c);
    assert_eq!(asks.len(), MAX_INFLIGHT_PER_PEER);
    let begins: Vec<u32> = asks.iter().map(|a| a.2).collect();
    assert_eq!(begins, (0..12).map(|i| i * BLOCK_SIZE).collect::<Vec<u32>>());
    let next = asked(&block(&mut c, id, 0, 0, &[1u8; BLOCK]));
    assert_eq!(next, vec![(id, 0, 12 * BLOCK_SIZE, BLOCK_SIZE)]);
    assert_eq!(c.peers[&id].inflight.len(), MAX_INFLIGHT_PER_PEER);
}

#[test]
fn a_piece_is_fetched_from_one_peer_at_a_time() {
    let mut c = coordinator(&[vec![1u8; 2 * BLOCK]]);
    let (one, asks) = join(&mut c);
    assert_eq!(asks.len(), 2);
    let (two, asks) = join(&mut c);
    assert!(asks.is_empty());
    assert!(block(&mut c, one, 0, 0, &[1u8; BLOCK]).is_empty());
    let asks = asked(&handle(&mut c, PeerMsg::Choked { id: one }));
    assert_eq!(asks, vec![(two, 0, BLOCK_SIZE, BLOCK_SIZE)]);
    assert_eq!(c.peers[&one].assigned_piece, None);
    assert!(c.peers[&one].inflight.is_empty());
}

#[test]
fn what_a_peer_leaves_behind_is_taken_up() {
    let mut c = coordinator(&[vec![1u8; 2 * BLOCK]]);
    let (one, _) = join(&mut c);
    let (two, _) = join(&mut c);
    let asks = asked(&handle(&mut c, PeerMsg::Disconnected { id: one }));
    assert_eq!(asks.len(), 2);
    assert!(asks.iter().all(|a| a.0 == two));
    assert_eq!(c.pieces.availability, vec![1]);
    handle(&mut c, PeerMsg::Disconnected { id: two });
    assert_eq!(c.pieces.state(0), PieceState::Missing);
    assert!(handle(&mut c, PeerMsg::Disconnected { id: two }).is_empty());
}

#[test]
fn blocks_are_fetched_from_few_peers_at_a_time() {
    let pieces: Vec<Vec<u8>> = (0..10u8).map(|i| vec![i; 10]).collect();
    let mut c = coordinator(&pieces);
    let mut asking = Vec::new();
    for _ in 0..10 {
        asking.extend(join(&mut c).1);
    }
    assert_eq!(asking.len(), MAX_DOWNLOADING_PEERS);
    let busy = c.peers.values().filter(|p| p.assigned_piece.is_some()).count();
    assert_eq!(busy, MAX_DOWNLOADING_PEERS);
    let under_way: usize = c.peers.values().map(|p| p.inflight.len()).sum();
    assert!(under_way <= MAX_DOWNLOADING_PEERS * MAX_INFLIGHT_PER_PEER);
}

#[test]
fn a_corrupt_piece_is_fetched_again() {
    let pieces = vec![vec![1u8; 10]];
    let mut c = coordinator(&pieces);
    let (id, _) = join(&mut c);
    let actions = block(&mut c, id, 0, 0, &[9u8; 10]);
    assert!(matches!(actions[0], Action::HashMismatch { index: 0 }));
    assert_eq!(asked(&actions), vec![(id, 0, 0, 10)]);
    assert_eq!(c.pieces.state(0), PieceState::InFlight);
    let actions = block(&mut c, id, 0, 0, &pieces[0]);
    assert!(matches!(actions[0], Action::WritePiece { index: 0, .. }));
}

#[test]
fn a_block_outside_its_piece_is_reported() {
    let mut c = coordinator(&[vec![1u8; 10]]);
    let (id, _) = join(&mut c);
    let actions = block(&mut c, id, 0, 5, &[1u8; 6]);
    assert!(matches!(actions[0], Action::BadBlock { id: 1 }));
    assert_eq!(c.peers[&id].downloaded_window, 6);
}

#[test]
fn what_cannot_be_handled_is_not_admitted() {
    let mut c = coordinator(&[vec![1u8; 10], vec![1u8; 10]]);
    let (id, _) = c.register_peer();
    let short = Bitfield::from_bytes(vec![], 2);
    assert!(!c.admits(&PeerMsg::Bitfield { id, bits: short.clone() }));
    assert!(c.admits(&PeerMsg::Bitfield { id: 77, bits: short }));
    let foreign = PeerMsg::BlockReceived { id, index: 9, begin: 0, data: vec![1] };
    assert!(!c.admits(&foreign));
    assert!(c.admits(&PeerMsg::RequestFromPeer { id, index: 9, begin: 0, length: 1 }));
}

#[test]
fn blocks_are_served_to_unchoked_peers() {
    let pieces = vec![vec![1u8; 10], vec![2u8; 10]];
    let mut c = coordinator(&pieces);
    let (id, _) = join(&mut c);
    block(&mut c, id, 1, 0, &pieces[1]);
    let ask = |index: u32| PeerMsg::RequestFromPeer { id, index, begin: 2, length: 3 };
    assert!(handle(&mut c, ask(1)).is_empty());
    c.peers.get_mut(&id).unwrap().am_choking = false;
    assert!(handle(&mut c, ask(0)).is_empty());
    let actions = handle(&mut c, ask(1));
    assert_eq!(actions.len(), 1);
    match &actions[0] {
        Action::ReadBlock { id: who, index, begin, length, plan } => {
            assert_eq!((*who, *index, *begin, *length), (id, 1, 2, 3));
            assert_eq!(plan.slices, vec![FileSlice { file: 0, offset: 12, at: 0, length: 3 }]);
        }
        _ => panic!("not read"),
    }
    let given = c.block_read(id, 1, 2, vec![2; 3]).unwrap();
    let said = "SendPiece { index: 1, begin: 2, block: [2, 2, 2] }".to_owned();
    assert_eq!(told(&[given]), vec![(id, said)]);
    assert_eq!(c.uploaded(), 3);
    assert!(c.block_read(55, 1, 2, vec![2; 4]).is_none());
    assert_eq!(c.uploaded(), 7);
}

fn interested(c: &mut Coordinator, window: u64) -> PeerId {
    let (id, _) = c.register_peer();
    handle(c, PeerMsg::Interested { id });
    c.peers.get_mut(&id).unwrap().downloaded_window = window;
    id
}

fn unchoked(c: &Coordinator) -> Vec<PeerId> {
    let mut ids: Vec<PeerId> =
        c.peers.iter().filter(|(_, p)| !p.am_choking).map(|(id, _)| *id).collect();
    ids.sort();
    ids
}

#[test]
fn the_most_generous_peers_are_unchoked() {
    let mut c = coordinator(&[vec![1u8; 10]]);
    let ids: Vec<PeerId> = [50, 10, 40, 20, 30].iter().map(|w| interested(&mut c, *w)).collect();
    let (idle, _) = c.register_peer();
    c.peers.get_mut(&idle).unwrap().downloaded_window = 1000;
    let mut top = c.best_peers();
    top.sort();
    assert_eq!(top, vec![ids[0], ids[2], ids[4]]);
    let actions = c.run_choke_algorithm();
    assert_eq!(unchoked(&c), vec![ids[0], ids[2], ids[4]]);
    let said = "Unchoke".to_owned();
    assert_eq!(
        told(&actions),
        vec![(ids[0], said.clone()), (ids[2], said.clone()), (ids[4], said)]
    );
    assert!(c.peers.values().all(|p| p.downloaded_window == 0));
    assert_eq!(c.choke_ticks, 1);
}

#[test]
fn peers_that_fall_back_are_choked() {
    let mut c = coordinator(&[vec![1u8; 10]]);
    let ids: Vec<PeerId> = [4, 3, 2, 1].iter().map(|w| interested(&mut c, *w)).collect();
    c.run_choke_algorithm();
    assert_eq!(unchoked(&c), ids[..3].to_vec());
    for (id, window) in ids.iter().zip([1u64, 7, 8, 9]) {
        c.peers.get_mut(id).unwrap().downloaded_window = window;
    }
    let actions = c.run_choke_algorithm();
    assert_eq!(unchoked(&c), ids[1..].to_vec());
    assert_eq!(
        told(&actions),
        vec![(ids[0], "Choke".to_owned()), (ids[3], "Unchoke".to_owned())]
    );
    handle(&mut c, PeerMsg::NotInterested { id: ids[3] });
    assert!(!c.peers[&ids[3]].peer_interested);
}

#[test]
fn every_third_tick_another_peer_is_unchoked() {
    let mut c = coordinator(&[vec![1u8; 10]]);
    let ids: Vec<PeerId> = (0..6).map(|_| interested(&mut c, 0)).collect();
    let favour = |c: &mut Coordinator| {
        for id in &ids[..3] {
            c.peers.get_mut(id).unwrap().downloaded_window = 5;
        }
    };
    for _ in 0..2 {
        favour(&mut c);
        c.run_choke_algorithm();
        assert_eq!(unchoked(&c), ids[..3].to_vec());
    }
    favour(&mut c);
    c.run_choke_algorithm();
    assert_eq!(unchoked(&c).len(), UNCHOKE_SLOTS + 1);
    let extra = c.optimistic_unchoke.unwrap();
    assert!(ids[3..].contains(&extra));
    favour(&mut c);
    assert!(c.run_choke_algorithm().is_empty());
    assert!(unchoked(&c).contains(&extra));
    handle(&mut c, PeerMsg::Disconnected { id: extra });
    favour(&mut c);
    c.run_choke_algorithm();
    assert_eq!(unchoked(&c), ids[..3].to_vec());
}

#[test]
fn availability_is_the_number_of_peers_with_the_piece() {
    let mut c = coordinator(&[vec![1u8; 10], vec![2u8; 10], vec![3u8; 10]]);
    let (one, _) = c.register_peer();
    let (two, _) = c.register_peer();
    let mut some = Bitfield::new(3);
    some.set(1);
    handle(&mut c, PeerMsg::Bitfield { id: one, bits: some });
    handle(&mut c, PeerMsg::Bitfield { id: two, bits: full(3) });
    handle(&mut c, PeerMsg::Have { id: one, index: 2 });
    assert_eq!(c.pieces.availability, vec![1, 2, 2]);
    handle(&mut c, PeerMsg::Disconnected { id: two });
    assert_eq!(c.pieces.availability, vec![0, 1, 1]);
    handle(&mut c, PeerMsg::Have { id: one, index: 2 });
    handle(&mut c, PeerMsg::Have { id: one, index: 9 });
    assert_eq!(c.pieces.availability, vec![0, 1, 1]);
    let mut other = Bitfield::new(3);
    other.set(0);
    other.set(1);
    handle(&mut c, PeerMsg::Bitfield { id: one, bits: other });
    assert_eq!(c.pieces.availability, vec![1, 1, 0]);
    handle(&mut c, PeerMsg::Disconnected { id: one });
    assert_eq!(c.pieces.availability, vec![0, 0, 0]);
}

#[test]
fn a_piece_that_comes_again_does_not_end_the_download() {
    let pieces: Vec<Vec<u8>> = (1..3u8).map(|i| vec![i; 3]).collect();
    let mut c = coordinator(&pieces);
    let (id, _) = join(&mut c);
    for _ in 0..2 {
        let actions = block(&mut c, id, 0, 0, &pieces[0]);
        assert!(matches!(&actions[0], Action::WritePiece { index: 0, data, .. } if *data == pieces[0]));
        assert!(told(&actions).contains(&(id, "Have(0)".to_owned())));
        assert!(c.pieces.has_piece(0));
        assert_eq!(c.pieces.progress(), (1, 2));
        assert!(c.finish().is_none());
    }
    let again = block(&mut c, id, 0, 0, &[9u8; 3]);
    assert!(matches!(again[0], Action::HashMismatch { index: 0 }));
    assert!(!c.pieces.has_piece(0));
    assert_eq!(c.pieces.progress(), (0, 2));
    block(&mut c, id, 1, 0, &pieces[1]);
    assert!(c.finish().is_none());
    let (_, greeting) = c.register_peer();
    assert_eq!(told(&[greeting]), vec![(2, "SendBitfield([64])".to_owned())]);
    block(&mut c, id, 0, 0, &pieces[0]);
    assert!(c.finish().is_some());
}

#[test]
fn files_stand_at_their_paths() {
    let mut m = meta(&[vec![1u8; 10], vec![2u8; 10]]);
    m.info.layout = Layout::Multi {
        files: vec![
            TorrentFile { length: 5, path: vec!["a".to_owned(), "b".to_owned()] },
            TorrentFile { length: 15, path: vec!["c".to_owned()] },
        ],
    };
    let c = Coordinator::new(m, [2u8; 20], 6881);
    let paths: Vec<Vec<String>> = c.storage.files.iter().map(|f| f.path.clone()).collect();
    assert_eq!(paths, vec![vec!["a".to_owned(), "b".to_owned()], vec!["c".to_owned()]]);
    assert_eq!(c.storage.root, "file");
}

#[test]
fn no_more_peers_are_taken_in_than_there_may_be() {
    let mut c = coordinator(&[vec![1u8; 10]]);
    let mut d = Dialer::new(5, 2);
    assert_eq!(d.start(), (0, 2));
    let (one, greeting) = c.peer_arrived(&d).unwrap();
    assert_eq!(told(&[greeting]), vec![(one, "SendBitfield([0])".to_owned())]);
    let (arrived, dials) = c.dial_came_back(&mut d, true);
    assert_eq!(arrived.map(|a| a.0), Some(2));
    assert_eq!(dials, (2, 2));
    assert!(c.peer_arrived(&d).is_none());
    assert!(c.dial_came_back(&mut d, true).0.is_none());
    assert_eq!(c.peers.len(), 2);
    assert_eq!(d.in_flight, 0);
    handle(&mut c, PeerMsg::Disconnected { id: one });
    assert!(c.dial_came_back(&mut d, false).0.is_none());
    assert!(c.peer_arrived(&d).is_some());
    assert_eq!(c.peers.len(), 2);
}

#[test]
fn a_piece_outside_the_torrent_is_no_matter_until_it_is_measured() {
    let mut m = meta(&[vec![1u8; 10], vec![2u8; 10]]);
    m.info.piece_hashes.push([0u8; 20]);
    m.info.piece_hashes.push([0u8; 20]);
    m.num_pieces = 4;
    let mut c = Coordinator::new(m, [2u8; 20], 6881);
    assert!(!c.pieces.covers_all());
    let (id, _) = c.register_peer();
    let msgs = vec![
        PeerMsg::Connected { id, peer_id: [0u8; 20] },
        PeerMsg::Interested { id },
        PeerMsg::NotInterested { id },
        PeerMsg::RequestFromPeer { id, index: 0, begin: 0, length: 1 },
    ];
    for msg in msgs {
        assert!(!msg.refills());
        handle(&mut c, msg);
    }
    let told: Vec<Action> = handle(&mut c, PeerMsg::Have { id, index: 0 });
    assert!(asked(&told).is_empty());
    handle(&mut c, PeerMsg::Choked { id });
    handle(&mut c, PeerMsg::Bitfield { id, bits: full(4) });
    assert!(!c.admits(&PeerMsg::Unchoked { id }));

    let (other, _) = c.register_peer();
    handle(&mut c, PeerMsg::Have { id: other, index: 1 });
    let actions = handle(&mut c, PeerMsg::Unchoked { id: other });
    assert_eq!(asked(&actions), vec![(other, 1, 0, 10)]);
    assert!(!c.admits(&PeerMsg::Have { id: other, index: 3 }));
    assert!(!c.admits(&PeerMsg::Bitfield { id: other, bits: full(4) }));
    assert!(c.admits(&PeerMsg::Have { id: other, index: 2 }));
    assert!(c.admits(&PeerMsg::Have { id: other, index: 9 }));
    assert!(c.admits(&PeerMsg::Have { id, index: 3 }));
    let actions = block(&mut c, other, 1, 0, &[2u8; 10]);
    assert!(matches!(actions[0], Action::WritePiece { index: 1, .. }));
    handle(&mut c, PeerMsg::Disconnected { id });
    handle(&mut c, PeerMsg::Disconnected { id: other });
}

#[test]
fn what_is_asked_for_is_needed_and_then_under_way() {
    let pieces: Vec<Vec<u8>> = (0..5u8).map(|i| vec![i; 20 * BLOCK]).collect();
    let mut c = coordinator(&pieces);
    let mut requests = Vec::new();
    for _ in 0..4 {
        requests.extend(join(&mut c).1);
    }
    assert_eq!(requests.len(), 4 * MAX_INFLIGHT_PER_PEER);
    let mut turns = 0;
    while let Some((id, index, begin, length)) = requests.pop() {
        let under_way: Vec<(PeerId, u32, u32)> = c
            .peers
            .iter()
            .flat_map(|(id, p)| p.inflight.iter().map(|n| (*id, n.0, n.1)))
            .collect();
        assert!(under_way.contains(&(id, index, begin)));
        let from = begin as usize;
        let data = &pieces[index as usize][from..from + length as usize];
        let actions = block(&mut c, id, index, begin, data);
        for (to, i, b, len) in asked(&actions) {
            let peer = &c.peers[&to];
            assert!(!peer.peer_choking);
            assert_eq!(peer.assigned_piece, Some(i));
            assert!(c.pieces.blocks_still_needed(i).iter().any(|r| r.begin == b && r.length == len));
            assert!(!under_way.contains(&(to, i, b)));
            assert!(peer.inflight.contains(&(i, b)));
            assert!(peer.inflight.len() <= MAX_INFLIGHT_PER_PEER);
            requests.push((to, i, b, len));
        }
        turns += 1;
    }
    assert_eq!(turns, 100);
    assert!(c.finish().is_some());
}

#[test]
fn no_block_is_asked_of_two_peers() {
    let pieces: Vec<Vec<u8>> = (0..4u8).map(|i| vec![i; 3 * BLOCK]).collect();
    let mut c = coordinator(&pieces);
    for _ in 0..6 {
        join(&mut c);
    }
    let mut names: Vec<(u32, u32)> =
        c.peers.values().flat_map(|p| p.inflight.iter().copied()).collect();
    assert_eq!(names.len(), 12);
    names.sort();
    names.dedup();
    assert_eq!(names.len(), 12);
}

#[test]
fn dials_are_bounded() {
    let mut d = Dialer::new(100, 40);
    assert_eq!(d.total, 40);
    assert_eq!(d.start(), (0, MAX_DIALS));
    assert_eq!(d.start(), (MAX_DIALS, MAX_DIALS));
    assert!(d.takes_peer(39));
    assert!(!d.takes_peer(40));
    assert_eq!(d.dial_ended(1), (20, 21));
    assert_eq!(d.in_flight, MAX_DIALS);
    assert_eq!(d.dial_ended(21), (21, 21));
    assert_eq!(d.in_flight, 19);
    assert_eq!(d.dial_ended(20), (21, 23));
}

#[test]
fn few_addresses_are_dialed_at_once() {
    let mut d = Dialer::new(3, 40);
    assert_eq!(d.start(), (0, 3));
    assert_eq!(d.dial_ended(1), (3, 3));
    assert_eq!(d.in_flight, 2);
    let mut none = Dialer::new(5, 0);
    assert_eq!(none.start(), (0, 0));
    assert_eq!(none.dial_ended(0), (0, 0));
}
