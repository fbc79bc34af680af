//! Files on a disk and the byte stream that they make up, as mathematics.

use vstd::prelude::*;

use crate::pieces::{min, splice};

verus! {

/// The bytes of the stream that a file holds.
#[verifier::ext_equal]
pub struct Span {
    pub offset: int,
    pub length: int,
}

/// A part of a range that lies in one file.
#[verifier::ext_equal]
pub struct Piecewise {
    pub file: int,
    /// Where in the file.
    pub offset: int,
    /// Where in the range.
    pub at: int,
    pub length: int,
}

/// The first file from number `from` on that holds the byte at `abs`, and where in it.
pub open spec fn locate(spans: Seq<Span>, abs: int, from: int) -> Option<(int, int)>
    decreases spans.len() - from,
{
    if from < 0 || from >= spans.len() {
        None
    } else if spans[from].offset <= abs < spans[from].offset + spans[from].length {
        Some((from, abs - spans[from].offset))
    } else {
        locate(spans, abs, from + 1)
    }
}

/// The parts of the rest of a range that starts at `start`: from `abs` up to `end`, or up to a
/// byte that no file holds.
pub open spec fn plan(spans: Seq<Span>, start: int, abs: int, end: int) -> (
    Seq<Piecewise>,
    Option<int>,
)
    decreases end - abs,
{
    if abs >= end {
        (Seq::empty(), None)
    } else {
        match locate(spans, abs, 0) {
            None => (Seq::empty(), Some(abs)),
            Some((file, offset)) => {
                let take = min(end - abs, spans[file].length - offset);
                if take > 0 {
                    let rest = plan(spans, start, abs + take, end);
                    (seq![Piecewise { file, offset, at: abs - start, length: take }] + rest.0, rest.1)
                } else {
                    (Seq::empty(), Some(abs))
                }
            },
        }
    }
}

/// The file that is found holds the byte.
pub proof fn located(spans: Seq<Span>, abs: int, from: int)
    requires
        0 <= from,
    ensures
        locate(spans, abs, from) matches Some((file, offset)) ==> from <= file < spans.len()
            && spans[file].offset + offset == abs && 0 <= offset < spans[file].length,
    decreases spans.len() - from,
{
    if from < spans.len() {
        located(spans, abs, from + 1);
    }
}

/// How many bytes the first `k` files hold.
pub open spec fn extent(spans: Seq<Span>, k: int) -> int
    decreases k,
{
    if k <= 0 {
        0
    } else {
        extent(spans, k - 1) + spans[k - 1].length
    }
}

/// Whether the files hold the stream one after another, without gaps.
pub open spec fn tiles(spans: Seq<Span>) -> bool {
    forall|i: int|
        0 <= i < spans.len() ==> (#[trigger] spans[i]).offset == extent(spans, i) && spans[i].length
            >= 0
}

/// Whether the files on the disk are as long as their spans.
pub open spec fn allocated(spans: Seq<Span>, disk: Seq<Seq<u8>>) -> bool {
    &&& disk.len() == spans.len()
    &&& forall|i: int| 0 <= i < disk.len() ==> (#[trigger] disk[i]).len() == spans[i].length
}

/// The stream that files make up.
pub open spec fn flat(disk: Seq<Seq<u8>>) -> Seq<u8>
    decreases disk.len(),
{
    if disk.len() == 0 {
        Seq::empty()
    } else {
        flat(disk.drop_last()) + disk.last()
    }
}

/// The disk after `data` was written part by part.
pub open spec fn written(disk: Seq<Seq<u8>>, parts: Seq<Piecewise>, data: Seq<u8>) -> Seq<Seq<u8>>
    decreases parts.len(),
{
    if parts.len() == 0 {
        disk
    } else {
        let p = parts[0];
        let chunk = data.subrange(p.at, p.at + p.length);
        written(
            disk.update(p.file, splice(disk[p.file], p.offset, chunk)),
            parts.drop_first(),
            data,
        )
    }
}

/// What is read part by part.
pub open spec fn read(disk: Seq<Seq<u8>>, parts: Seq<Piecewise>) -> Seq<u8>
    decreases parts.len(),
{
    if parts.len() == 0 {
        Seq::empty()
    } else {
        let p = parts[0];
        disk[p.file].subrange(p.offset, p.offset + p.length) + read(disk, parts.drop_first())
    }
}

/// More files do not hold less.
pub proof fn extent_grows(spans: Seq<Span>, j: int, k: int)
    requires
        tiles(spans),
        0 <= j <= k <= spans.len(),
    ensures
        0 <= extent(spans, j) <= extent(spans, k),
    decreases k,
{
    if k > 0 {
        assert(spans[k - 1].length >= 0);
        if j < k {
            extent_grows(spans, j, k - 1);
        } else {
            extent_grows(spans, k - 1, k - 1);
        }
    }
}

/// A byte of the stream that is not in an earlier file is found in a later one.
proof fn found(spans: Seq<Span>, abs: int, from: int)
    requires
        tiles(spans),
        0 <= from <= spans.len(),
        extent(spans, from) <= abs < extent(spans, spans.len() as int),
    ensures
        locate(spans, abs, from) is Some,
    decreases spans.len() - from,
{
    if from < spans.len() {
        assert(spans[from].offset == extent(spans, from));
        if abs >= extent(spans, from + 1) {
            found(spans, abs, from + 1);
        }
    }
}

/// Every byte of the stream lies in a file.
pub proof fn every_byte_is_held(spans: Seq<Span>, abs: int)
    requires
        tiles(spans),
        0 <= abs < extent(spans, spans.len() as int),
    ensures
        locate(spans, abs, 0) matches Some((file, offset)) && 0 <= file < spans.len()
            && spans[file].offset + offset == abs && 0 <= offset < spans[file].length,
{
    found(spans, abs, 0);
    located(spans, abs, 0);
}

/// A range inside the stream is mapped to its end.
pub proof fn range_is_mapped(spans: Seq<Span>, start: int, abs: int, end: int)
    requires
        tiles(spans),
        0 <= abs,
        end <= extent(spans, spans.len() as int),
    ensures
        plan(spans, start, abs, end).1 is None,
    decreases end - abs,
{
    if abs < end {
        every_byte_is_held(spans, abs);
        let (file, offset) = locate(spans, abs, 0)->0;
        let take = min(end - abs, spans[file].length - offset);
        range_is_mapped(spans, start, abs + take, end);
    }
}

/// A range that goes beyond the stream is mapped up to the first byte outside.
pub proof fn range_ends_outside(spans: Seq<Span>, start: int, abs: int, end: int)
    requires
        tiles(spans),
        0 <= abs <= extent(spans, spans.len() as int) < end,
    ensures
        plan(spans, start, abs, end).1 == Some(extent(spans, spans.len() as int)),
    decreases end - abs,
{
    let all = extent(spans, spans.len() as int);
    located(spans, abs, 0);
    if abs < all {
        every_byte_is_held(spans, abs);
        let (file, offset) = locate(spans, abs, 0)->0;
        let take = min(end - abs, spans[file].length - offset);
        extent_grows(spans, file + 1, spans.len() as int);
        assert(spans[file].offset == extent(spans, file));
        range_ends_outside(spans, start, abs + take, end);
    } else if let Some((file, offset)) = locate(spans, abs, 0) {
        extent_grows(spans, file + 1, spans.len() as int);
        assert(spans[file].offset == extent(spans, file));
    }
}

/// A stream is what the first files hold and what the others hold.
proof fn flat_splits(disk: Seq<Seq<u8>>, k: int)
    requires
        0 <= k <= disk.len(),
    ensures
        flat(disk) == flat(disk.take(k)) + flat(disk.skip(k)),
    decreases disk.len(),
{
    if k == disk.len() {
        assert(disk.take(k) =~= disk);
        assert(disk.skip(k) =~= Seq::empty());
        assert(flat(disk) + Seq::<u8>::empty() =~= flat(disk));
    } else {
        flat_splits(disk.drop_last(), k);
        assert(disk.drop_last().take(k) =~= disk.take(k));
        assert(disk.drop_last().skip(k) =~= disk.skip(k).drop_last());
        assert(disk.skip(k).last() == disk.last());
        assert(flat(disk) =~= flat(disk.take(k)) + flat(disk.skip(k)));
    }
}

/// A stream is what is before a file, the file, and what is after it.
proof fn flat_around(disk: Seq<Seq<u8>>, k: int)
    requires
        0 <= k < disk.len(),
    ensures
        flat(disk) == flat(disk.take(k)) + disk[k] + flat(disk.skip(k + 1)),
{
    flat_splits(disk, k + 1);
    assert(disk.take(k + 1).drop_last() =~= disk.take(k));
    assert(disk.take(k + 1).last() == disk[k]);
}

/// The first files make up as many bytes as their spans say.
pub proof fn flat_len(spans: Seq<Span>, disk: Seq<Seq<u8>>, k: int)
    requires
        tiles(spans),
        allocated(spans, disk),
        0 <= k <= disk.len(),
    ensures
        flat(disk.take(k)).len() == extent(spans, k),
    decreases k,
{
    if k > 0 {
        flat_len(spans, disk, k - 1);
        assert(disk.take(k).drop_last() =~= disk.take(k - 1));
        assert(disk.take(k).last() == disk[k - 1]);
        assert(disk[k - 1].len() == spans[k - 1].length);
    }
}

/// Writing into a file is writing into the stream.
proof fn file_write_is_stream_write(
    spans: Seq<Span>,
    disk: Seq<Seq<u8>>,
    k: int,
    offset: int,
    chunk: Seq<u8>,
)
    requires
        tiles(spans),
        allocated(spans, disk),
        0 <= k < disk.len(),
        0 <= offset,
        offset + chunk.len() <= spans[k].length,
    ensures
        allocated(spans, disk.update(k, splice(disk[k], offset, chunk))),
        flat(disk.update(k, splice(disk[k], offset, chunk))) == splice(
            flat(disk),
            spans[k].offset + offset,
            chunk,
        ),
{
    let file = splice(disk[k], offset, chunk);
    let after = disk.update(k, file);
    assert(disk[k].len() == spans[k].length);
    flat_around(disk, k);
    flat_around(after, k);
    assert(after.take(k) =~= disk.take(k));
    assert(after.skip(k + 1) =~= disk.skip(k + 1));
    flat_len(spans, disk, k);
    assert(spans[k].offset == extent(spans, k));
    assert(flat(after) =~= splice(flat(disk), spans[k].offset + offset, chunk));
}

/// Reading from a file is reading from the stream.
proof fn file_read_is_stream_read(
    spans: Seq<Span>,
    disk: Seq<Seq<u8>>,
    k: int,
    offset: int,
    length: int,
)
    requires
        tiles(spans),
        allocated(spans, disk),
        0 <= k < disk.len(),
        0 <= offset,
        0 <= length,
        offset + length <= spans[k].length,
    ensures
        disk[k].subrange(offset, offset + length) == flat(disk).subrange(
            spans[k].offset + offset,
            spans[k].offset + offset + length,
        ),
{
    assert(disk[k].len() == spans[k].length);
    flat_around(disk, k);
    flat_len(spans, disk, k);
    assert(spans[k].offset == extent(spans, k));
    assert(disk[k].subrange(offset, offset + length) =~= flat(disk).subrange(
        spans[k].offset + offset,
        spans[k].offset + offset + length,
    ));
}

/// What is written as planned is in the stream where it belongs, and nothing else changes.
pub proof fn write_reaches_stream(
    spans: Seq<Span>,
    disk: Seq<Seq<u8>>,
    start: int,
    abs: int,
    data: Seq<u8>,
)
    requires
        tiles(spans),
        allocated(spans, disk),
        0 <= start <= abs <= start + data.len() <= extent(spans, spans.len() as int),
    ensures
        ({
            let end = start + data.len();
            let after = written(disk, plan(spans, start, abs, end).0, data);
            allocated(spans, after) && flat(after) == splice(
                flat(disk),
                abs,
                data.skip(abs - start),
            )
        }),
    decreases start + data.len() - abs,
{
    let end = start + data.len();
    flat_len(spans, disk, disk.len() as int);
    assert(disk.take(disk.len() as int) =~= disk);
    if abs < end {
        every_byte_is_held(spans, abs);
        let (file, offset) = locate(spans, abs, 0)->0;
        let take = min(end - abs, spans[file].length - offset);
        let first = Piecewise { file, offset, at: abs - start, length: take };
        let rest = plan(spans, start, abs + take, end).0;
        let parts = plan(spans, start, abs, end).0;
        assert(parts =~= seq![first] + rest);
        assert(parts.drop_first() =~= rest);
        let chunk = data.subrange(abs - start, abs - start + take);
        let next = disk.update(file, splice(disk[file], offset, chunk));
        file_write_is_stream_write(spans, disk, file, offset, chunk);
        write_reaches_stream(spans, next, start, abs + take, data);
        assert(splice(
            splice(flat(disk), abs, chunk),
            abs + take,
            data.skip(abs + take - start),
        ) =~= splice(flat(disk), abs, data.skip(abs - start)));
    } else {
        assert(data.skip(abs - start) =~= Seq::empty());
        assert(splice(flat(disk), abs, Seq::empty()) =~= flat(disk));
    }
}

/// What is read as planned is what the stream holds there.
pub proof fn read_comes_from_stream(
    spans: Seq<Span>,
    disk: Seq<Seq<u8>>,
    start: int,
    abs: int,
    end: int,
)
    requires
        tiles(spans),
        allocated(spans, disk),
        0 <= start <= abs <= end <= extent(spans, spans.len() as int),
    ensures
        read(disk, plan(spans, start, abs, end).0) == flat(disk).subrange(abs, end),
    decreases end - abs,
{
    flat_len(spans, disk, disk.len() as int);
    assert(disk.take(disk.len() as int) =~= disk);
    if abs < end {
        every_byte_is_held(spans, abs);
        let (file, offset) = locate(spans, abs, 0)->0;
        let take = min(end - abs, spans[file].length - offset);
        let first = Piecewise { file, offset, at: abs - start, length: take };
        let rest = plan(spans, start, abs + take, end).0;
        let parts = plan(spans, start, abs, end).0;
        assert(parts =~= seq![first] + rest);
        assert(parts.drop_first() =~= rest);
        file_read_is_stream_read(spans, disk, file, offset, take);
        read_comes_from_stream(spans, disk, start, abs + take, end);
        assert(flat(disk).subrange(abs, abs + take) + flat(disk).subrange(abs + take, end)
            =~= flat(disk).subrange(abs, end));
    } else {
        assert(flat(disk).subrange(abs, end) =~= Seq::empty());
    }
}

/// Reading any part of what was written gives it back, and reading what lies apart from it
/// gives what was there before.
pub proof fn read_after_write(
    spans: Seq<Span>,
    disk: Seq<Seq<u8>>,
    start: int,
    data: Seq<u8>,
    from: int,
    to: int,
)
    requires
        tiles(spans),
        allocated(spans, disk),
        0 <= start <= start + data.len() <= extent(spans, spans.len() as int),
        0 <= from <= to <= extent(spans, spans.len() as int),
    ensures
        ({
            let after = written(disk, plan(spans, start, start, start + data.len()).0, data);
            let got = read(after, plan(spans, from, from, to).0);
            &&& start <= from && to <= start + data.len() ==> got == data.subrange(
                from - start,
                to - start,
            )
            &&& to <= start || start + data.len() <= from ==> got == read(
                disk,
                plan(spans, from, from, to).0,
            )
        }),
{
    let end = start + data.len();
    let after = written(disk, plan(spans, start, start, end).0, data);
    write_reaches_stream(spans, disk, start, start, data);
    assert(data.skip(0) =~= data);
    read_comes_from_stream(spans, after, from, from, to);
    read_comes_from_stream(spans, disk, from, from, to);
    flat_len(spans, disk, disk.len() as int);
    assert(disk.take(disk.len() as int) =~= disk);
    let got = flat(after).subrange(from, to);
    if start <= from && to <= end {
        assert(got =~= data.subrange(from - start, to - start));
    }
    if to <= start || end <= from {
        assert(got =~= flat(disk).subrange(from, to));
    }
}

} // verus!
