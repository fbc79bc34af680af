//! What is on the disk in the course of a download.

use vstd::prelude::*;

use crate::digest::sha1_digest;
use crate::disk::{allocated, plan, read, read_after_write, read_comes_from_stream, written, Span};
use crate::piece::{choices_are_candidates, holds};
use crate::piece_laws::{all_there, complete_means_all_there, whole_buffer};
use crate::pieces::{haves, Fate, Pieces};
use crate::storage::{layout_spans, layout_tiles};
use crate::swarm::{announcements, requests, Deed, Event, Swarm};
use crate::swarm_laws::{events_keep_fitting, first_step_valid};
use crate::swarm_valid::{reaction_of, turn_valid};
use crate::torrent::{total_of, LayoutFacts};

verus! {

/// The bytes of piece `i` on the disk.
pub open spec fn piece_on_disk(p: Pieces, spans: Seq<Span>, disk: Seq<Seq<u8>>, i: int) -> Seq<u8> {
    read(disk, plan(spans, p.start(i), p.start(i), p.start(i) + p.size(i)).0)
}

/// Whether every piece that is there is on the disk, with the digest that the torrent gives.
pub open spec fn saved(p: Pieces, spans: Seq<Span>, disk: Seq<Seq<u8>>) -> bool {
    forall|i: int|
        0 <= i < p.state.len() && (#[trigger] p.state[i]) is Have ==> sha1_digest(
            piece_on_disk(p, spans, disk, i),
        ) == p.hashes[i]
}

/// The disk after what was to be written has been written, in order.
pub open spec fn performed(
    piece_length: int,
    spans: Seq<Span>,
    disk: Seq<Seq<u8>>,
    deeds: Seq<Deed>,
) -> Seq<Seq<u8>>
    decreases deeds.len(),
{
    if deeds.len() == 0 {
        disk
    } else {
        let before = performed(piece_length, spans, disk, deeds.drop_last());
        match deeds.last() {
            Deed::Write { index, data } => {
                let start = index * piece_length;
                written(before, plan(spans, start, start, start + data.len()).0, data)
            },
            _ => before,
        }
    }
}

/// What else is done leaves the disk as it is.
proof fn sends_leave_disk(
    piece_length: int,
    spans: Seq<Span>,
    disk: Seq<Seq<u8>>,
    first: Seq<Deed>,
    rest: Seq<Deed>,
)
    requires
        forall|k: int| 0 <= k < rest.len() ==> !((#[trigger] rest[k]) is Write),
    ensures
        performed(piece_length, spans, disk, first + rest) == performed(
            piece_length,
            spans,
            disk,
            first,
        ),
    decreases rest.len(),
{
    if rest.len() == 0 {
        assert(first + rest =~= first);
    } else {
        let all = first + rest;
        assert(all.drop_last() =~= first + rest.drop_last());
        assert(all.last() == rest[rest.len() - 1]);
        assert forall|k: int| 0 <= k < rest.drop_last().len() implies !((
        #[trigger] rest.drop_last()[k]) is Write) by {
            assert(!(rest[k] is Write));
        }
        sends_leave_disk(piece_length, spans, disk, first, rest.drop_last());
    }
}

/// Whether the same pieces of the same torrent are there.
pub open spec fn same_haves(p: Pieces, q: Pieces) -> bool {
    &&& p.same_torrent(q)
    &&& p.state.len() == q.state.len()
    &&& forall|i: int|
        #![trigger q.state[i]]
        0 <= i < p.state.len() ==> (p.state[i] is Have <==> q.state[i] is Have)
}

/// A turn brings no piece and loses none.
proof fn turn_keeps_haves(s: Swarm, id: u64, pick: Option<u32>)
    requires
        s.valid(),
        s.eligible(id) ==> s.may_pick(id, pick),
    ensures
        same_haves(s.pieces, s.turn(id, pick).0.pieces),
{
    if s.eligible(id) {
        if s.peers[id].assigned is None && pick is Some && s.peers[id].room() > 0 {
            choices_are_candidates(s.pieces, s.peers[id].has);
            assert(s.pieces.candidates(s.peers[id].has).contains(pick->0));
        }
    }
}

/// Neither does a round of turns.
proof fn round_keeps_haves(s: Swarm, order: Seq<u64>, picks: Seq<Option<u32>>)
    requires
        s.valid(),
        s.may_pick_all(order, picks),
    ensures
        s.round(order, picks).0.valid(),
        same_haves(s.pieces, s.round(order, picks).0.pieces),
    decreases order.len(),
{
    if order.len() > 0 {
        round_keeps_haves(s, order.drop_last(), picks.drop_last());
        let m = s.round(order.drop_last(), picks.drop_last()).0;
        turn_keeps_haves(m, order.last(), picks.last());
        turn_valid(m, order.last(), picks.last());
    }
}

proof fn same_haves_saved(p: Pieces, q: Pieces, spans: Seq<Span>, disk: Seq<Seq<u8>>)
    requires
        same_haves(p, q),
        saved(p, spans, disk),
    ensures
        saved(q, spans, disk),
{
    assert forall|i: int| 0 <= i < q.state.len() && (#[trigger] q.state[i]) is Have implies sha1_digest(
        piece_on_disk(q, spans, disk, i),
    ) == q.hashes[i] by {
        assert(p.state[i] is Have);
        assert(piece_on_disk(q, spans, disk, i) == piece_on_disk(p, spans, disk, i));
    }
}

/// Pieces do not overlap.
proof fn pieces_apart(p: Pieces, i: int, j: int)
    requires
        0 <= i < j,
        0 <= p.piece_length,
    ensures
        p.start(i) + p.size(i) <= p.start(j),
        0 <= p.start(i),
{
    assert(i * p.piece_length + p.piece_length == (i + 1) * p.piece_length) by (nonlinear_arith);
    assert((i + 1) * p.piece_length <= j * p.piece_length) by (nonlinear_arith)
        requires
            i + 1 <= j,
            0 <= p.piece_length,
    ;
    assert(0 <= i * p.piece_length) by (nonlinear_arith)
        requires
            0 <= i,
            0 <= p.piece_length,
    ;
}

/// A verified piece that is written joins those on the disk.
proof fn piece_is_saved(
    p: Pieces,
    layout: LayoutFacts,
    disk: Seq<Seq<u8>>,
    i: u32,
    begin: u32,
    data: Seq<u8>,
)
    requires
        p.valid(),
        p.piece_length <= u32::MAX,
        p.total_length == total_of(layout),
        p.takes(i, begin, data),
        allocated(layout_spans(layout), disk),
        saved(p, layout_spans(layout), disk),
        p.fate(i, begin, data) is Complete,
        sha1_digest(p.fate(i, begin, data)->Complete_0) == p.hashes[i as int],
    ensures
        ({
            let spans = layout_spans(layout);
            let buf = p.fate(i, begin, data)->Complete_0;
            let start = p.start(i as int);
            let after = written(disk, plan(spans, start, start, start + buf.len()).0, buf);
            allocated(spans, after) && saved(p.after_block(i, begin, data), spans, after)
        }),
{
    let spans = layout_spans(layout);
    let buf = p.fate(i, begin, data)->Complete_0;
    let start = p.start(i as int);
    let after = written(disk, plan(spans, start, start, start + buf.len()).0, buf);
    let q = p.after_block(i, begin, data);
    layout_tiles(layout);
    whole_buffer(p, i, begin, data);
    pieces_apart(p, i as int, i + 1);
    crate::disk::write_reaches_stream(spans, disk, start, start, buf);
    assert forall|k: int| 0 <= k < q.state.len() && (#[trigger] q.state[k]) is Have implies sha1_digest(
        piece_on_disk(q, spans, after, k),
    ) == q.hashes[k] by {
        let from = p.start(k);
        let to = p.start(k) + p.size(k);
        if k == i {
            read_after_write(spans, disk, start, buf, from, to);
            assert(buf.subrange(0, buf.len() as int) =~= buf);
        } else {
            assert(p.state[k] is Have);
            assert(p.covers(k));
            if k < i {
                pieces_apart(p, k, i as int);
            } else {
                pieces_apart(p, i as int, k);
                pieces_apart(p, k, k + 1);
            }
            read_after_write(spans, disk, start, buf, from, to);
            assert(piece_on_disk(q, spans, after, k) == piece_on_disk(p, spans, disk, k));
        }
    }
}

/// Whatever a peer does or says, once what is to be written has been written, every piece that
/// is there is on the disk and verified: a new piece is there as it came, and those that were
/// there before are as they were.
pub proof fn verified_pieces_stay_on_disk(
    s: Swarm,
    e: Event,
    t: Swarm,
    deeds: Seq<Deed>,
    layout: LayoutFacts,
    disk: Seq<Seq<u8>>,
)
    requires
        s.valid(),
        s.reacts(e, t, deeds),
        e matches Event::BlockReceived { index, begin, data, .. } ==> s.pieces.takes(
            index,
            begin,
            data,
        ),
        s.pieces.piece_length <= u32::MAX,
        s.pieces.total_length == total_of(layout),
        allocated(layout_spans(layout), disk),
        saved(s.pieces, layout_spans(layout), disk),
    ensures
        ({
            let after = performed(s.pieces.piece_length, layout_spans(layout), disk, deeds);
            allocated(layout_spans(layout), after) && saved(t.pieces, layout_spans(layout), after)
        }),
{
    let spans = layout_spans(layout);
    let (order, asks, turns, picks) = reaction_of(s, e, t, deeds);
    let first = s.deeds(e, order);
    let m = s.after(e);
    sends_leave_disk(s.pieces.piece_length, spans, disk, first, requests(asks));
    let after = performed(s.pieces.piece_length, spans, disk, first);
    event_is_saved(s, e, order, layout, disk);
    first_step_valid(s, e);
    if e.refills() {
        round_keeps_haves(m, turns, picks);
        same_haves_saved(m.pieces, t.pieces, spans, after);
    }
}

proof fn event_is_saved(
    s: Swarm,
    e: Event,
    order: Seq<u64>,
    layout: LayoutFacts,
    disk: Seq<Seq<u8>>,
)
    requires
        s.valid(),
        e matches Event::BlockReceived { index, begin, data, .. } ==> s.pieces.takes(
            index,
            begin,
            data,
        ),
        s.pieces.piece_length <= u32::MAX,
        s.pieces.total_length == total_of(layout),
        allocated(layout_spans(layout), disk),
        saved(s.pieces, layout_spans(layout), disk),
    ensures
        ({
            let after = performed(
                s.pieces.piece_length,
                layout_spans(layout),
                disk,
                s.deeds(e, order),
            );
            allocated(layout_spans(layout), after) && saved(
                s.after(e).pieces,
                layout_spans(layout),
                after,
            )
        }),
{
    let spans = layout_spans(layout);
    let first = s.deeds(e, order);
    let n = s.pieces.piece_length;
    let none = Seq::<Deed>::empty();
    if let Event::BlockReceived { id, index, begin, data } = e {
        let p = s.pieces;
        let q = p.after_block(index, begin, data);
        assert(s.after(e).pieces == q);
        match p.fate(index, begin, data) {
            Fate::Complete(buf) => {
                if sha1_digest(buf) == p.hashes[index as int] {
                    let write = Deed::Write { index, data: buf };
                    sends_leave_disk(n, spans, disk, seq![write], announcements(index, order));
                    assert(seq![write].drop_last() =~= none);
                    assert(performed(n, spans, disk, none) == disk);
                    assert(performed(n, spans, disk, seq![write]) == written(
                        disk,
                        plan(
                            spans,
                            p.start(index as int),
                            p.start(index as int),
                            p.start(index as int) + buf.len(),
                        ).0,
                        buf,
                    ));
                    piece_is_saved(p, layout, disk, index, begin, data);
                } else {
                    sends_leave_disk(n, spans, disk, none, first);
                    assert(none + first =~= first);
                    assert forall|k: int|
                        0 <= k < q.state.len() && (#[trigger] q.state[k]) is Have implies sha1_digest(
                        piece_on_disk(q, spans, disk, k),
                    ) == q.hashes[k] by {
                        assert(p.state[k] is Have);
                        assert(piece_on_disk(q, spans, disk, k) == piece_on_disk(p, spans, disk, k));
                    }
                }
            },
            _ => {
                sends_leave_disk(n, spans, disk, none, first);
                assert(none + first =~= first);
                same_haves_saved(p, q, spans, disk);
            },
        }
    } else {
        sends_leave_disk(n, spans, disk, none, first);
        assert(none + first =~= first);
        same_haves_saved(s.pieces, s.after(e).pieces, spans, disk);
    }
}

/// When a download is complete, every piece of the torrent is on the disk and verified.
pub proof fn complete_download_is_verified(p: Pieces, spans: Seq<Span>, disk: Seq<Seq<u8>>, i: int)
    requires
        p.valid(),
        p.completed == p.hashes.len(),
        saved(p, spans, disk),
        0 <= i < p.hashes.len(),
    ensures
        sha1_digest(piece_on_disk(p, spans, disk, i)) == p.hashes[i],
{
    all_there(p.state);
    assert(p.state[i] is Have);
}

/// Whatever a peer does or says, the count of complete pieces stays how many are there, and the
/// pieces that are marked as there stay those that are. So the download ends as complete exactly
/// if every piece is there.
pub proof fn progress_stays_right(s: Swarm, e: Event, t: Swarm, deeds: Seq<Deed>)
    requires
        s.valid(),
        s.reacts(e, t, deeds),
        e matches Event::BlockReceived { index, begin, data, .. } ==> s.pieces.takes(
            index,
            begin,
            data,
        ),
    ensures
        t.pieces.completed == haves(t.pieces.state),
        forall|i: int| #[trigger] holds(t.pieces.have, i) <==> t.pieces.state_of(i) is Have,
        t.pieces.completed == t.pieces.hashes.len() <==> forall|i: int|
            0 <= i < t.pieces.state.len() ==> (#[trigger] t.pieces.state[i]) is Have,
{
    events_keep_fitting(s, e, t, deeds);
    complete_means_all_there(t.pieces);
}

/// A block that is read for a peer is the part of the piece that the peer asked for.
pub proof fn served_blocks_are_parts(
    p: Pieces,
    layout: LayoutFacts,
    disk: Seq<Seq<u8>>,
    i: u32,
    begin: u32,
    length: u32,
)
    requires
        p.valid(),
        p.covers(i as int),
        p.total_length == total_of(layout),
        allocated(layout_spans(layout), disk),
        begin + length <= p.size(i as int),
    ensures
        ({
            let spans = layout_spans(layout);
            let at = p.start(i as int) + begin;
            let planned = plan(spans, at, at, at + length);
            &&& planned.1 is None
            &&& read(disk, planned.0) == piece_on_disk(p, spans, disk, i as int).subrange(
                begin as int,
                begin + length,
            )
        }),
{
    let spans = layout_spans(layout);
    let start = p.start(i as int);
    let at = start + begin;
    layout_tiles(layout);
    pieces_apart(p, i as int, i + 1);
    crate::disk::range_is_mapped(spans, at, at, at + length);
    read_comes_from_stream(spans, disk, at, at, at + length);
    read_comes_from_stream(spans, disk, start, start, start + p.size(i as int));
    crate::disk::flat_len(spans, disk, disk.len() as int);
    assert(disk.take(disk.len() as int) =~= disk);
    let flat = crate::disk::flat(disk);
    assert(flat.subrange(at, at + length) =~= flat.subrange(
        start,
        start + p.size(i as int),
    ).subrange(begin as int, begin + length));
}

} // verus!
