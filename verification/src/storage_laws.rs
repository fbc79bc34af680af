//! Where the bytes of a torrent lie: which file, and where in it.

use vstd::prelude::*;

use crate::disk::{locate, located, plan, Piecewise, Span};
use crate::error::Error;
use crate::metainfo::Layout;
use crate::storage::{layout_spans, Plan, Storage};
use crate::text::decimal;
use crate::torrent::LayoutFacts;

verus! {

/// The files of a torrent lie in the stream in the order of the torrent, each with its length,
/// the first at the start and each of the others where the one before it ends.
pub proof fn files_follow_each_other(layout: LayoutFacts, i: int)
    ensures
        ({
            let spans = layout_spans(layout);
            match layout {
                LayoutFacts::Single(length) => spans.len() == 1 && spans[0].offset == 0
                    && spans[0].length == length,
                LayoutFacts::Multi(files) => {
                    &&& spans.len() == files.len()
                    &&& 0 <= i < files.len() ==> spans[i].length == files[i].length
                    &&& files.len() > 0 ==> spans[0].offset == 0
                    &&& 0 <= i < files.len() - 1 ==> spans[i + 1].offset == spans[i].offset
                        + files[i].length
                },
            }
        }),
{
    if let LayoutFacts::Multi(files) = layout {
        assert(files.take(0) =~= Seq::empty());
        if 0 <= i < files.len() - 1 {
            assert(files.take(i + 1).drop_last() =~= files.take(i));
            assert(files.take(i + 1).last() == files[i]);
        }
    }
}

/// Whether the parts of a range are where the bytes of the range lie: each inside one file, at
/// the place of the file that holds these bytes of the stream, one after another from `from` up
/// to `to`, counted from the start of the range.
pub open spec fn in_place(
    spans: Seq<Span>,
    start: int,
    parts: Seq<Piecewise>,
    from: int,
    to: int,
) -> bool {
    &&& forall|k: int|
        #![trigger parts[k]]
        0 <= k < parts.len() ==> {
            &&& 0 <= parts[k].file < spans.len()
            &&& 0 <= parts[k].offset
            &&& 0 < parts[k].length
            &&& parts[k].offset + parts[k].length <= spans[parts[k].file].length
            &&& spans[parts[k].file].offset + parts[k].offset == start + parts[k].at
        }
    &&& forall|k: int|
        #![trigger parts[k]]
        0 <= k < parts.len() - 1 ==> parts[k + 1].at == parts[k].at + parts[k].length
    &&& parts.len() == 0 ==> from == to
    &&& parts.len() > 0 ==> parts[0].at == from && parts.last().at + parts.last().length == to
}

/// A range of the stream is mapped to the places where its bytes lie, in order and without a gap,
/// up to its end or to the first byte that no file holds.
pub proof fn ranges_are_mapped_to_their_places(spans: Seq<Span>, start: int, abs: int, end: int)
    requires
        start <= abs <= end,
    ensures
        ({
            let (parts, outside) = plan(spans, start, abs, end);
            match outside {
                None => in_place(spans, start, parts, abs - start, end - start),
                Some(stop) => {
                    &&& abs <= stop < end
                    &&& in_place(spans, start, parts, abs - start, stop - start)
                    &&& forall|f: int|
                        0 <= f < spans.len() ==> !((#[trigger] spans[f]).offset <= stop
                            < spans[f].offset + spans[f].length)
                },
            }
        }),
    decreases end - abs,
{
    if abs < end {
        located(spans, abs, 0);
        match locate(spans, abs, 0) {
            None => {
                nowhere(spans, abs, 0);
            },
            Some((file, offset)) => {
                let left = spans[file].length - offset;
                let take = if end - abs <= left {
                    end - abs
                } else {
                    left
                };
                ranges_are_mapped_to_their_places(spans, start, abs + take, end);
                let (rest, _) = plan(spans, start, abs + take, end);
                let first = Piecewise { file, offset, at: abs - start, length: take };
                let parts = plan(spans, start, abs, end).0;
                assert(parts =~= seq![first] + rest);
                assert forall|k: int| #![trigger parts[k]] 0 <= k < parts.len() implies {
                    &&& 0 <= parts[k].file < spans.len()
                    &&& 0 <= parts[k].offset
                    &&& 0 < parts[k].length
                    &&& parts[k].offset + parts[k].length <= spans[parts[k].file].length
                    &&& spans[parts[k].file].offset + parts[k].offset == start + parts[k].at
                } by {
                    if k > 0 {
                        assert(parts[k] == rest[k - 1]);
                    }
                }
                assert forall|k: int| #![trigger parts[k]] 0 <= k < parts.len() - 1 implies parts[k
                    + 1].at == parts[k].at + parts[k].length by {
                    assert(parts[k + 1] == rest[k]);
                    if k > 0 {
                        assert(parts[k] == rest[k - 1]);
                        assert(rest[k - 1 + 1] == rest[k]);
                    }
                }
                if rest.len() > 0 {
                    assert(parts.last() == rest.last());
                }
            },
        }
    }
}

proof fn nowhere(spans: Seq<Span>, abs: int, from: int)
    requires
        0 <= from,
        locate(spans, abs, from) is None,
    ensures
        forall|f: int|
            from <= f < spans.len() ==> !((#[trigger] spans[f]).offset <= abs < spans[f].offset
                + spans[f].length),
    decreases spans.len() - from,
{
    if from < spans.len() {
        nowhere(spans, abs, from + 1);
    }
}

/// Parts and files are seen as they are, and a plan that ends outside says at which byte.
pub proof fn plans_are_seen_as_they_are(
    p: Plan,
    parts: Seq<Piecewise>,
    outside: Option<int>,
    k: int,
)
    requires
        p.is(parts, outside),
        0 <= k < p.slices@.len(),
    ensures
        p.slices@.len() == parts.len(),
        p.slices@[k].file == parts[k].file,
        p.slices@[k].offset == parts[k].offset,
        p.slices@[k].at == parts[k].at,
        p.slices@[k].length == parts[k].length,
        outside is None <==> p.outcome is Ok,
        outside matches Some(abs) ==> p.outcome matches Err(Error::Other(text))
            && text@ == "byte offset "@ + decimal(abs as nat) + " outside torrent"@,
{
    assert(parts[k] == p.slices@[k]@);
}

/// Files stand where the torrent puts them: a single file at the root, and each of several at its
/// own path.
pub proof fn files_stand_at_their_paths(storage: Storage, layout: Layout, i: int, j: int)
    requires
        storage.placed(layout),
    ensures
        match layout {
            Layout::Single { .. } => storage.files@.len() == 1 && storage.files@[0].path@.len() == 0,
            Layout::Multi { files } => {
                &&& storage.files@.len() == files@.len()
                &&& 0 <= i < files@.len() ==> storage.files@[i].path@.len() == files@[i].path@.len()
                &&& 0 <= i < files@.len() && 0 <= j < files@[i].path@.len()
                    ==> storage.files@[i].path@[j] == files@[i].path@[j]
            },
        },
{
}

/// The files of a storage are seen with their offsets and lengths.
pub proof fn files_are_seen_as_they_are(storage: Storage, i: int)
    requires
        0 <= i < storage.files@.len(),
    ensures
        storage.spans().len() == storage.files@.len(),
        storage.spans()[i].offset == storage.files@[i].offset,
        storage.spans()[i].length == storage.files@[i].length,
{
}

} // verus!
