use sha1::{Digest, Sha1};
use tempest::piece::{
    Bitfield, BlockRequest, PieceError, PieceManager, PieceState, BLOCK_SIZE,
};

#[test]
fn bitfield_get_set_count() {
    let mut bf = Bitfield::new(10);
    assert_eq!(bf.count(), 0);
    bf.set(0);
    bf.set(9);
    assert!(bf.has(0));
    assert!(bf.has(9));
    assert!(!bf.has(1));
    assert_eq!(bf.count(), 2);
}

#[test]
fn rarest_first_picks_lowest_availability() {
    let hashes = vec![[0u8; 20]; 5];
    let mut pm = PieceManager::new(16_384, 16_384 * 5, hashes);
    // Pretend we've completed enough pieces to leave random-first mode.
    pm.completed_count = 4;
    pm.availability = vec![5, 1, 3, 1, 4];
    let mut peer = Bitfield::new(5);
    for i in 0..5 {
        peer.set(i);
    }
    // Both index 1 and 3 have availability 1; either is fine.
    let picked = pm.pick_piece(&peer).unwrap();
    assert!(picked == 1 || picked == 3);
    assert_eq!(pm.state[picked as usize], PieceState::InFlight);
}

#[test]
fn piece_verification_accepts_correct_and_rejects_corrupt() {
    let data = vec![7u8; 16_384];
    let mut hasher = Sha1::new();
    hasher.update(&data);
    let hash: [u8; 20] = hasher.finalize().into();

    let mut pm = PieceManager::new(16_384, 16_384, vec![hash]);
    pm.state[0] = PieceState::InFlight;
    let result = pm.on_block(0, 0, &data).unwrap();
    assert!(result.is_some());
    assert!(pm.is_complete());

    let mut pm2 = PieceManager::new(16_384, 16_384, vec![hash]);
    pm2.state[0] = PieceState::InFlight;
    let mut bad = data.clone();
    bad[0] ^= 0xff;
    let err = pm2.on_block(0, 0, &bad).unwrap_err();
    assert_eq!(err, PieceError::HashMismatch { index: 0 });
    assert_eq!(pm2.state[0], PieceState::Missing);
}

fn digest(bytes: &[u8]) -> [u8; 20] {
    let mut hasher = Sha1::new();
    hasher.update(bytes);
    hasher.finalize().into()
}

fn full(n: usize) -> Bitfield {
    let mut bf = Bitfield::new(n);
    for i in 0..n {
        bf.set(i);
    }
    bf
}

#[test]
fn bits_are_counted_from_the_highest() {
    let mut bf = Bitfield::new(10);
    bf.set(0);
    bf.set(9);
    assert_eq!(bf.as_bytes(), &[0b1000_0000, 0b0100_0000]);
    bf.clear(0);
    assert!(!bf.has(0));
    assert!(bf.has(9));
    bf.set(10);
    bf.clear(200);
    assert!(!bf.has(10));
    assert_eq!(bf.as_bytes(), &[0, 0b0100_0000]);
    assert_eq!(bf.num_pieces(), 10);
}

#[test]
fn bits_beyond_the_pieces_are_cleared() {
    let bf = Bitfield::from_bytes(vec![0xff, 0xff], 11);
    assert_eq!(bf.as_bytes(), &[0xff, 0b1110_0000]);
    assert_eq!(bf.count(), 11);
    let bf = Bitfield::from_bytes(vec![0xff], 8);
    assert_eq!(bf.as_bytes(), &[0xff]);
    let again = Bitfield::from_bytes(bf.as_bytes().to_vec(), 8);
    assert_eq!(again, bf);
}

#[test]
fn a_digest_is_the_known_one() {
    // SHA-1 of "abc".
    let hash = [
        0xa9, 0x99, 0x3e, 0x36, 0x47, 0x06, 0x81, 0x6a, 0xba, 0x3e, 0x25, 0x71, 0x78, 0x50, 0xc2,
        0x6c, 0x9c, 0xd0, 0xd8, 0x9d,
    ];
    let mut pm = PieceManager::new(3, 3, vec![hash]);
    assert_eq!(pm.on_block(0, 0, b"abc").unwrap(), Some(b"abc".to_vec()));
}

#[test]
fn the_last_piece_and_block_may_be_short() {
    let pm = PieceManager::new(40_000, 90_000, vec![[0u8; 20]; 3]);
    assert_eq!(pm.num_pieces(), 3);
    assert_eq!(pm.piece_len(0), 40_000);
    assert_eq!(pm.piece_len(2), 10_000);
    assert_eq!(pm.block_count(0), 3);
    assert_eq!(pm.block_count(2), 1);
    assert_eq!(
        pm.blocks_still_needed(1),
        vec![
            BlockRequest { index: 1, begin: 0, length: BLOCK_SIZE },
            BlockRequest { index: 1, begin: 16_384, length: BLOCK_SIZE },
            BlockRequest { index: 1, begin: 32_768, length: 7_232 },
        ]
    );
    assert!(pm.covers(2));
    assert!(!pm.covers(3));
    assert!(pm.covers_all());
    assert!(!PieceManager::new(10, 5, vec![[0u8; 20]; 2]).covers_all());
}

#[test]
fn next_blocks_are_the_first_needed_ones() {
    let mut pm = PieceManager::new(40_000, 40_000, vec![[0u8; 20]]);
    assert_eq!(pm.next_blocks(0, 0), vec![]);
    assert_eq!(pm.next_blocks(0, 1), vec![BlockRequest { index: 0, begin: 0, length: BLOCK_SIZE }]);
    assert_eq!(pm.on_block(0, 0, &vec![1u8; 16_384]).unwrap(), None);
    let begins: Vec<u32> = pm.next_blocks(0, 9).iter().map(|b| b.begin).collect();
    assert_eq!(begins, vec![16_384, 32_768]);
}

#[test]
fn blocks_make_the_piece_in_any_order() {
    let data: Vec<u8> = (0..40_000u32).map(|i| (i % 251) as u8).collect();
    let mut pm = PieceManager::new(40_000, 40_000, vec![digest(&data)]);
    assert_eq!(pm.on_block(0, 32_768, &data[32_768..]).unwrap(), None);
    assert_eq!(pm.on_block(0, 0, &data[..16_384]).unwrap(), None);
    assert_eq!(pm.on_block(0, 0, &vec![9u8; 16_384]).unwrap(), None);
    assert_eq!(pm.blocks_still_needed(0).len(), 1);
    assert!(!pm.has_piece(0));
    assert_eq!(pm.on_block(0, 16_384, &data[16_384..32_768]).unwrap(), Some(data.clone()));
    assert!(pm.has_piece(0));
    assert_eq!(pm.state(0), PieceState::Have);
    assert_eq!(pm.downloaded_bytes(), 40_000);
    assert_eq!(pm.progress(), (1, 1));
    assert!(pm.have_bitfield().has(0));
}

#[test]
fn blocks_outside_the_piece_are_bad() {
    let mut pm = PieceManager::new(20_000, 20_000, vec![[0u8; 20]]);
    assert_eq!(pm.on_block(0, 16_384, &[0u8; 4_000]), Err(PieceError::BadBlock));
    assert_eq!(pm.on_block(0, 32_768, &[]), Err(PieceError::BadBlock));
    assert_eq!(pm.blocks_still_needed(0).len(), 2);
    assert!(pm.can_take(0, 0, &[0u8; 16_384]));
    assert!(!pm.can_take(9, 0, &[0u8; 1]));
}

#[test]
fn a_corrupt_piece_starts_over() {
    let data = vec![3u8; 20_000];
    let mut pm = PieceManager::new(20_000, 20_000, vec![digest(&data)]);
    assert_eq!(pm.pick_piece(&full(1)), Some(0));
    assert_eq!(pm.on_block(0, 0, &[4u8; 16_384]).unwrap(), None);
    let err = pm.on_block(0, 16_384, &data[16_384..]).unwrap_err();
    assert_eq!(err, PieceError::HashMismatch { index: 0 });
    assert_eq!(pm.state(0), PieceState::Missing);
    assert_eq!(pm.blocks_still_needed(0).len(), 2);
    assert_eq!(pm.progress(), (0, 1));
    assert_eq!(pm.on_block(0, 0, &data[..16_384]).unwrap(), None);
    assert_eq!(pm.on_block(0, 16_384, &data[16_384..]).unwrap(), Some(data));
}

#[test]
fn a_piece_that_comes_again_counts_once() {
    let data = vec![3u8; 10];
    let mut pm = PieceManager::new(10, 30, vec![digest(&data), [0u8; 20], [0u8; 20]]);
    assert_eq!(pm.on_block(0, 0, &data).unwrap(), Some(data.clone()));
    assert_eq!(pm.progress(), (1, 3));
    assert_eq!(pm.on_block(0, 0, &[4u8; 11]), Err(PieceError::BadBlock));
    for _ in 0..4 {
        assert_eq!(pm.on_block(0, 0, &data).unwrap(), Some(data.clone()));
        assert!(pm.has_piece(0));
        assert_eq!(pm.progress(), (1, 3));
        assert!(!pm.is_complete());
    }
    assert_eq!(pm.have_bitfield().as_bytes(), &[0b1000_0000]);
    assert_eq!(pm.on_block(0, 0, &[4u8; 10]), Err(PieceError::HashMismatch { index: 0 }));
    assert_eq!(pm.state(0), PieceState::Missing);
    assert_eq!(pm.have_bitfield().as_bytes(), &[0]);
    assert_eq!(pm.progress(), (0, 3));
    assert_eq!(pm.on_block(0, 0, &data).unwrap(), Some(data.clone()));
    assert_eq!(pm.progress(), (1, 3));
}

#[test]
fn a_late_block_of_a_piece_that_is_there_is_no_progress() {
    let data: Vec<u8> = (0..20_000u32).map(|i| i as u8).collect();
    let mut pm = PieceManager::new(20_000, 40_000, vec![digest(&data), [0u8; 20]]);
    assert_eq!(pm.on_block(0, 0, &data[..16_384]).unwrap(), None);
    assert_eq!(pm.on_block(0, 16_384, &data[16_384..]).unwrap(), Some(data.clone()));
    assert_eq!(pm.on_block(0, 16_384, &[0u8; 100]).unwrap(), None);
    assert_eq!(pm.on_block(0, 16_384, &data[16_384..]).unwrap(), None);
    assert!(pm.has_piece(0));
    assert_eq!(pm.progress(), (1, 2));
    assert!(!pm.is_complete());
}

#[test]
fn blocks_come_in_any_order() {
    let data: Vec<u8> = (0..40_000u32).map(|i| (i % 251) as u8).collect();
    let chunk = |b: usize| &data[b * 16_384..data.len().min((b + 1) * 16_384)];
    for order in [[0, 1, 2], [0, 2, 1], [1, 0, 2], [1, 2, 0], [2, 0, 1], [2, 1, 0]] {
        let mut pm = PieceManager::new(40_000, 40_000, vec![digest(&data)]);
        for b in &order[..2] {
            let begin = (b * 16_384) as u32;
            assert_eq!(pm.on_block(0, begin, chunk(*b)).unwrap(), None);
            let needed = pm.blocks_still_needed(0);
            assert_eq!(pm.on_block(0, begin, &[7u8; 9]).unwrap(), None);
            assert_eq!(pm.on_block(0, begin + 5, &[8u8; 9]).unwrap(), None);
            assert_eq!(pm.blocks_still_needed(0), needed);
        }
        let last = order[2];
        let done = pm.on_block(0, (last * 16_384) as u32, chunk(last)).unwrap();
        assert_eq!(done, Some(data.clone()));
        assert!(pm.is_complete());
    }
}

#[test]
fn the_bytes_of_what_is_there() {
    let pieces: Vec<Vec<u8>> = (0..10u8).map(|i| vec![i; 10]).collect();
    let mut pm = PieceManager::new(10, 100, pieces.iter().map(|p| digest(p)).collect());
    assert_eq!(pm.have_bitfield().as_bytes(), &[0, 0]);
    pm.on_block(9, 0, &pieces[9]).unwrap();
    assert_eq!(pm.have_bitfield().as_bytes(), &[0, 0b0100_0000]);
    pm.on_block(0, 0, &pieces[0]).unwrap();
    assert_eq!(pm.have_bitfield().as_bytes(), &[0b1000_0000, 0b0100_0000]);
}

#[test]
fn the_count_is_how_many_pieces_are_there() {
    let pieces: Vec<Vec<u8>> = (0..3u8).map(|i| vec![i; 10]).collect();
    let mut pm = PieceManager::new(10, 30, pieces.iter().map(|p| digest(p)).collect());
    for i in 0..3u32 {
        assert_eq!(pm.on_block(i, 0, &[9u8; 10]), Err(PieceError::HashMismatch { index: i }));
        assert_eq!(pm.progress(), (i as usize, 3));
        assert!(!pm.have_bitfield().has(i as usize));
        assert!(!pm.is_complete());
        assert!(pm.on_block(i, 0, &pieces[i as usize]).unwrap().is_some());
        assert_eq!(pm.progress(), (i as usize + 1, 3));
        assert!(pm.have_bitfield().has(i as usize));
    }
    assert!(pm.is_complete());
}

#[test]
fn an_abandoned_piece_keeps_its_blocks() {
    let mut pm = PieceManager::new(20_000, 20_000, vec![[0u8; 20]]);
    assert_eq!(pm.pick_piece(&full(1)), Some(0));
    assert_eq!(pm.on_block(0, 0, &[1u8; 16_384]).unwrap(), None);
    pm.abandon_piece(0);
    assert_eq!(pm.state(0), PieceState::Missing);
    assert_eq!(pm.blocks_still_needed(0).len(), 1);
    pm.reclaim_piece(0);
    assert_eq!(pm.state(0), PieceState::InFlight);
    pm.reclaim_piece(5);
    pm.abandon_piece(5);
    assert_eq!(pm.state(5), PieceState::Missing);
    assert!(!pm.has_piece(5));
}

#[test]
fn availability_follows_the_peers() {
    let mut pm = PieceManager::new(1, 3, vec![[0u8; 20]; 3]);
    let mut peer = Bitfield::new(3);
    peer.set(0);
    peer.set(2);
    pm.on_peer_bitfield(&peer);
    pm.on_peer_have(2);
    pm.on_peer_have(7);
    assert_eq!(pm.availability, vec![1, 0, 2]);
    pm.on_peer_disconnect(&peer);
    assert_eq!(pm.availability, vec![0, 0, 1]);
    pm.on_peer_disconnect(&peer);
    assert_eq!(pm.availability, vec![0, 0, 0]);
    pm.availability = vec![u16::MAX, 0, 0];
    pm.on_peer_have(0);
    pm.on_peer_bitfield(&peer);
    assert_eq!(pm.availability, vec![u16::MAX, 0, 1]);
}

#[test]
fn only_missing_pieces_of_the_peer_are_picked() {
    let mut pm = PieceManager::new(1, 4, vec![[0u8; 20]; 4]);
    pm.state[0] = PieceState::Have;
    pm.state[1] = PieceState::InFlight;
    let mut peer = Bitfield::new(4);
    peer.set(0);
    peer.set(1);
    assert_eq!(pm.choices(&peer), vec![]);
    assert_eq!(pm.pick_piece(&peer), None);
    peer.set(3);
    assert_eq!(pm.pick_piece(&peer), Some(3));
    assert_eq!(pm.state(3), PieceState::InFlight);
    assert_eq!(pm.pick_piece(&peer), None);
}

#[test]
fn the_first_picks_are_random() {
    let mut seen = [false; 8];
    for _ in 0..400 {
        let mut pm = PieceManager::new(1, 8, vec![[0u8; 20]; 8]);
        pm.availability = vec![1, 9, 9, 9, 9, 9, 9, 9];
        assert_eq!(pm.choices(&full(8)), vec![0, 1, 2, 3, 4, 5, 6, 7]);
        seen[pm.pick_piece(&full(8)).unwrap() as usize] = true;
    }
    assert_eq!(seen, [true; 8]);
}

#[test]
fn the_rarest_pieces_are_the_choices() {
    let mut pm = PieceManager::new(1, 5, vec![[0u8; 20]; 5]);
    pm.completed_count = 4;
    pm.availability = vec![5, 1, 3, 1, 4];
    assert_eq!(pm.choices(&full(5)), vec![1, 3]);
    assert_eq!(pm.claim_first(&vec![3, 1]), Some(3));
    assert_eq!(pm.choices(&full(5)), vec![1]);
    assert_eq!(pm.claim_first(&vec![]), None);
}
