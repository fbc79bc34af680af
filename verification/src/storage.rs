//! Where the bytes of a torrent lie on disk.

use vstd::prelude::*;
use vstd::string::*;

use crate::disk::{
    allocated, extent, locate, located, plan, range_is_mapped, read, read_after_write, tiles, written,
    Piecewise, Span,
};
use crate::error::{Error, Result};
use crate::metainfo::{file_views, lengths_grow, Layout, MetaInfo};
use crate::text::{decimal, push_decimal};
use crate::torrent::{sum_lengths, total_of, FileFacts, LayoutFacts};

verus! {

/// A file of a torrent and the bytes of the torrent that it holds.
pub struct FileSpan {
    /// The parts of the path below the root; none for a torrent that is one file.
    pub path: Vec<String>,
    /// Absolute offset of this file within the torrent byte stream.
    pub offset: u64,
    pub length: u64,
}

impl FileSpan {
    pub open spec fn view(&self) -> Span {
        Span { offset: self.offset as int, length: self.length as int }
    }
}

/// The files of a torrent, below a root that is named like the torrent.
pub struct Storage {
    pub files: Vec<FileSpan>,
    pub piece_length: u64,
    pub root: String,
}

/// A part of a range of the torrent that lies in one file.
#[derive(Debug, Clone, Copy, PartialEq, Eq, Structural)]
pub struct FileSlice {
    /// Which file.
    pub file: usize,
    /// Where in the file.
    pub offset: u64,
    /// Where in the range.
    pub at: u64,
    pub length: u64,
}

impl FileSlice {
    pub open spec fn view(&self) -> Piecewise {
        Piecewise {
            file: self.file as int,
            offset: self.offset as int,
            at: self.at as int,
            length: self.length as int,
        }
    }
}

/// The parts of a range in order, and how to end once they are done.
pub struct Plan {
    pub slices: Vec<FileSlice>,
    pub outcome: Result<()>,
}

/// The spans of files.
pub open spec fn spans_of(files: Seq<FileSpan>) -> Seq<Span> {
    files.map_values(|f: FileSpan| f@)
}

/// What parts stand for.
pub open spec fn slices_of(slices: Seq<FileSlice>) -> Seq<Piecewise> {
    slices.map_values(|s: FileSlice| s@)
}

impl Plan {
    /// Whether this is the given plan, which may end at a byte that no file holds.
    pub open spec fn is(&self, parts: Seq<Piecewise>, outside: Option<int>) -> bool {
        &&& slices_of(self.slices@) == parts
        &&& match outside {
            None => self.outcome is Ok,
            Some(abs) => self.outcome matches Err(e) && e.is_other(outside_text(abs)),
        }
    }
}

/// What is said of an offset that no file holds.
pub open spec fn outside_text(abs: int) -> Seq<char> {
    "byte offset "@ + decimal(abs as nat) + " outside torrent"@
}

/// The spans that the files of a torrent take up.
pub open spec fn layout_spans(layout: LayoutFacts) -> Seq<Span> {
    match layout {
        LayoutFacts::Single(length) => seq![Span { offset: 0, length: length as int }],
        LayoutFacts::Multi(files) => Seq::new(
            files.len(),
            |i: int|
                Span { offset: sum_lengths(files.take(i)), length: files[i].length as int },
        ),
    }
}

impl Storage {
    pub open spec fn spans(&self) -> Seq<Span> {
        spans_of(self.files@)
    }

    /// Whether the end of every file can be computed.
    pub open spec fn well_formed(&self) -> bool {
        forall|i: int|
            0 <= i < self.files@.len() ==> (#[trigger] self.files@[i]).offset + self.files@[i].length
                <= u64::MAX
    }

    /// Whether the files stand where the torrent puts them: a single one at the root, several at
    /// their paths below it.
    pub open spec fn placed(&self, layout: Layout) -> bool {
        match layout {
            Layout::Single { .. } => self.files@.len() == 1 && self.files@[0].path@.len() == 0,
            Layout::Multi { files } => self.files@.len() == files@.len() && forall|i: int|
                0 <= i < files@.len() ==> (#[trigger] self.files@[i]).path@ == files@[i].path@,
        }
    }

    /// The files of a torrent, one after another.
    pub fn new(meta: &MetaInfo) -> (storage: Self)
        requires
            total_of(meta@.info.layout) <= u64::MAX,
        ensures
            storage.well_formed(),
            storage.spans() == layout_spans(meta@.info.layout),
            storage.piece_length == meta@.info.piece_length,
            storage.root@ == meta@.info.name,
            storage.placed(meta.info.layout),
    {
        let mut files: Vec<FileSpan> = Vec::new();
        match &meta.info.layout {
            Layout::Single { length } => {
                files.push(FileSpan { path: Vec::new(), offset: 0, length: *length });
                assert(spans_of(files@) =~= layout_spans(meta@.info.layout));
            },
            Layout::Multi { files: tfiles } => {
                let ghost all = file_views(tfiles@);
                let mut offset: u64 = 0;
                let mut i: usize = 0;
                assert(all.take(0) =~= Seq::empty());
                while i < tfiles.len()
                    invariant
                        i <= tfiles@.len(),
                        all == file_views(tfiles@),
                        sum_lengths(all) <= u64::MAX,
                        files@.len() == i,
                        offset == sum_lengths(all.take(i as int)),
                        forall|k: int|
                            0 <= k < i ==> (#[trigger] files@[k])@ == (Span {
                                offset: sum_lengths(all.take(k)),
                                length: all[k].length as int,
                            }) && files@[k].offset + files@[k].length <= u64::MAX && files@[k].path@
                                == tfiles@[k].path@,
                    decreases tfiles.len() - i,
                {
                    let tf = &tfiles[i];
                    proof {
                        lengths_grow(all, i + 1);
                        assert(all.take(i + 1).drop_last() =~= all.take(i as int));
                        assert(all.take(i + 1).last() == tfiles@[i as int]@);
                    }
                    let path: Vec<String> = tf.path.clone();
                    assert(path@ =~= tf.path@);
                    files.push(FileSpan { path, offset, length: tf.length });
                    offset += tf.length;
                    i += 1;
                }
                assert(spans_of(files@) =~= layout_spans(meta@.info.layout));
            },
        }
        Storage { files, piece_length: meta.info.piece_length, root: meta.info.name.clone() }
    }

    /// The name of the root.
    pub fn root(&self) -> (root: &str)
        ensures
            root@ == self.root@,
    {
        self.root.as_str()
    }

    /// The file that holds the byte at `abs`, and where in it.
    pub fn span_at(&self, abs: u64) -> (res: Result<(usize, u64)>)
        requires
            self.well_formed(),
        ensures
            match locate(self.spans(), abs as int, 0) {
                Some((file, offset)) => res matches Ok((f, o)) && f == file && o == offset,
                None => res matches Err(e) && e.is_other(outside_text(abs as int)),
            },
    {
        let mut i: usize = 0;
        while i < self.files.len()
            invariant
                self.well_formed(),
                i <= self.files@.len(),
                locate(self.spans(), abs as int, 0) == locate(self.spans(), abs as int, i as int),
            decreases self.files.len() - i,
        {
            let span = &self.files[i];
            assert(self.spans()[i as int] == self.files@[i as int]@);
            if abs >= span.offset && abs < span.offset + span.length {
                return Ok((i, abs - span.offset));
            }
            i += 1;
        }
        let mut text: String = "byte offset ".to_owned();
        push_decimal(&mut text, abs);
        text.append(" outside torrent");
        Err(Error::Other(text))
    }

    /// The parts of the bytes from `start` up to `end`, file by file.
    pub fn map_range(&self, start: u64, end: u64) -> (res: Plan)
        requires
            self.well_formed(),
        ensures
            res.is(
                plan(self.spans(), start as int, start as int, end as int).0,
                plan(self.spans(), start as int, start as int, end as int).1,
            ),
    {
        let ghost spans = self.spans();
        let ghost goal = plan(spans, start as int, start as int, end as int);
        let mut slices: Vec<FileSlice> = Vec::new();
        let mut abs: u64 = start;
        proof {
            assert(slices_of(slices@) =~= Seq::empty());
            assert(goal.0 =~= slices_of(slices@) + goal.0);
        }
        while abs < end
            invariant
                self.well_formed(),
                spans == self.spans(),
                start <= abs,
                abs <= end || abs == start,
                goal == plan(spans, start as int, start as int, end as int),
                goal.0 == slices_of(slices@) + plan(spans, start as int, abs as int, end as int).0,
                goal.1 == plan(spans, start as int, abs as int, end as int).1,
            decreases end - abs,
        {
            let (file, file_off): (usize, u64) = match self.span_at(abs) {
                Ok(found) => found,
                Err(e) => {
                    assert(goal.0 =~= slices_of(slices@));
                    return Plan { slices, outcome: Err(e) };
                },
            };
            proof {
                located(spans, abs as int, 0);
            }
            let remaining: u64 = end - abs;
            let in_file: u64 = self.files[file].length - file_off;
            let take: u64 = if remaining <= in_file {
                remaining
            } else {
                in_file
            };
            let slice: FileSlice = FileSlice { file, offset: file_off, at: abs - start, length: take };
            let ghost before = slices@;
            slices.push(slice);
            proof {
                assert(spans[file as int] == self.files@[file as int]@);
                assert(slices_of(slices@) =~= slices_of(before).push(slice@));
                let rest = plan(spans, start as int, abs + take, end as int).0;
                assert(slices_of(before) + (seq![slice@] + rest) =~= slices_of(slices@) + rest);
            }
            abs += take;
        }
        assert(goal.0 =~= slices_of(slices@));
        Plan { slices, outcome: Ok(()) }
    }

    /// How to write the bytes of a piece.
    pub fn write_piece(&self, index: u32, data: &[u8]) -> (res: Plan)
        requires
            self.well_formed(),
            index * self.piece_length + data@.len() <= u64::MAX,
        ensures
            ({
                let start = index * self.piece_length;
                let planned = plan(self.spans(), start, start, start + data@.len());
                res.is(planned.0, planned.1)
            }),
    {
        proof {
            assert(0 <= index * self.piece_length) by (nonlinear_arith);
        }
        let start: u64 = index as u64 * self.piece_length;
        let end: u64 = start + data.len() as u64;
        self.map_range(start, end)
    }

    /// How to read a block of a piece.
    pub fn read_block(&self, index: u32, begin: u32, length: u32) -> (res: Plan)
        requires
            self.well_formed(),
            index * self.piece_length + begin + length <= u64::MAX,
        ensures
            ({
                let start = index * self.piece_length + begin;
                let planned = plan(self.spans(), start, start, start + length);
                res.is(planned.0, planned.1)
            }),
    {
        proof {
            assert(0 <= index * self.piece_length) by (nonlinear_arith);
        }
        let start: u64 = index as u64 * self.piece_length + begin as u64;
        let end: u64 = start + length as u64;
        self.map_range(start, end)
    }
}

/// The files of a torrent hold its bytes one after another, without gaps, and all of them.
pub proof fn layout_tiles(layout: LayoutFacts)
    ensures
        tiles(layout_spans(layout)),
        extent(layout_spans(layout), layout_spans(layout).len() as int) == total_of(layout),
{
    let spans = layout_spans(layout);
    match layout {
        LayoutFacts::Single(length) => {
            reveal_with_fuel(extent, 2);
        },
        LayoutFacts::Multi(files) => {
            assert forall|i: int| 0 <= i < spans.len() implies (#[trigger] spans[i]).offset == extent(
                spans,
                i,
            ) && spans[i].length >= 0 by {
                extent_is_sum(files, i);
            }
            extent_is_sum(files, files.len() as int);
            assert(files.take(files.len() as int) =~= files);
        },
    }
}

proof fn extent_is_sum(files: Seq<FileFacts>, k: int)
    requires
        0 <= k <= files.len(),
    ensures
        extent(layout_spans(LayoutFacts::Multi(files)), k) == sum_lengths(files.take(k)),
    decreases k,
{
    if k > 0 {
        extent_is_sum(files, k - 1);
        assert(files.take(k).drop_last() =~= files.take(k - 1));
        assert(files.take(k).last() == files[k - 1]);
    }
}

/// The bytes of a verified piece, written as planned, are what a block of it is read as.
pub proof fn blocks_read_back(
    layout: LayoutFacts,
    disk: Seq<Seq<u8>>,
    start: int,
    data: Seq<u8>,
    begin: int,
    length: int,
)
    requires
        allocated(layout_spans(layout), disk),
        0 <= start,
        start + data.len() <= total_of(layout),
        0 <= begin,
        0 <= length,
        begin + length <= data.len(),
    ensures
        ({
            let spans = layout_spans(layout);
            let writing = plan(spans, start, start, start + data.len());
            let at = start + begin;
            let reading = plan(spans, at, at, at + length);
            &&& writing.1 is None
            &&& reading.1 is None
            &&& read(written(disk, writing.0, data), reading.0) == data.subrange(
                begin,
                begin + length,
            )
        }),
{
    let spans = layout_spans(layout);
    layout_tiles(layout);
    range_is_mapped(spans, start, start, start + data.len());
    range_is_mapped(spans, start + begin, start + begin, start + begin + length);
    read_after_write(spans, disk, start, data, start + begin, start + begin + length);
}

} // verus!
