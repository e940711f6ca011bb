//! The conflicts of a tree, grouped by file.

use vstd::prelude::*;
use crate::index::{
    conflict_ranges, index_markers, lemma_ordered_markers_give_ordered_ranges, markers_in_order,
    range_views, ranges_in_order, ConflictRange, RangeView,
};
use crate::marker::{marker_views, Marker, MarkerView};

verus! {

/// The conflicts of one file, as pairs of the first and the last line.
#[derive(Clone, Debug, PartialEq, Eq)]
pub struct FileConflicts {
    pub file: String,
    pub spans: Vec<(usize, usize)>,
}

/// The mathematical value of a [`FileConflicts`].
pub struct FileConflictsView {
    pub file: Seq<char>,
    pub spans: Seq<(nat, nat)>,
}

/// The spans of a file as pairs of natural numbers.
pub open spec fn span_views(spans: Seq<(usize, usize)>) -> Seq<(nat, nat)> {
    Seq::new(spans.len(), |i: int| (spans[i].0 as nat, spans[i].1 as nat))
}

impl View for FileConflicts {
    type V = FileConflictsView;

    open spec fn view(&self) -> FileConflictsView {
        FileConflictsView { file: self.file@, spans: span_views(self.spans@) }
    }
}

/// The index of the first group at or after `from` that belongs to `file`,
/// or the number of groups where there is none.
pub open spec fn group_of_file(groups: Seq<FileConflictsView>, file: Seq<char>, from: int) -> int
    decreases groups.len() - from,
{
    if from < 0 || from >= groups.len() {
        groups.len() as int
    } else if groups[from].file == file {
        from
    } else {
        group_of_file(groups, file, from + 1)
    }
}

/// The group of `file` among `groups`, if it has one.
pub open spec fn find_group(groups: Seq<FileConflictsView>, file: Seq<char>) -> Option<
    FileConflictsView,
> {
    let at = group_of_file(groups, file, 0);
    if 0 <= at < groups.len() {
        Some(groups[at])
    } else {
        None
    }
}

/// `groups` with `range` added: at the end of the group of its file, or,
/// where its file has none yet, as a new group after all others.
pub open spec fn record_range(groups: Seq<FileConflictsView>, range: RangeView) -> Seq<
    FileConflictsView,
> {
    let at = group_of_file(groups, range.file, 0);
    if 0 <= at < groups.len() {
        groups.update(
            at,
            FileConflictsView {
                file: groups[at].file,
                spans: groups[at].spans.push((range.start, range.end)),
            },
        )
    } else {
        groups.push(FileConflictsView { file: range.file, spans: seq![(range.start, range.end)] })
    }
}

/// `ranges` grouped by file. The files stand in the order in which each was
/// first seen, and the ranges of a file in the order in which they came.
pub open spec fn group_ranges(ranges: Seq<RangeView>) -> Seq<FileConflictsView>
    decreases ranges.len(),
{
    if ranges.len() == 0 {
        Seq::empty()
    } else {
        record_range(group_ranges(ranges.drop_last()), ranges.last())
    }
}

/// The ranges of one group.
pub open spec fn group_as_ranges(group: FileConflictsView) -> Seq<RangeView> {
    Seq::new(
        group.spans.len(),
        |i: int| RangeView { file: group.file, start: group.spans[i].0, end: group.spans[i].1 },
    )
}

/// All ranges of `groups`: file after file, and within a file in the order
/// of its spans.
pub open spec fn all_ranges(groups: Seq<FileConflictsView>) -> Seq<RangeView>
    decreases groups.len(),
{
    if groups.len() == 0 {
        Seq::empty()
    } else {
        all_ranges(groups.drop_last()) + group_as_ranges(groups.last())
    }
}

/// A mapping from file to the conflicts found in it.
#[derive(Clone, Debug, PartialEq, Eq)]
pub struct ConflictMap {
    entries: Vec<FileConflicts>,
}

impl View for ConflictMap {
    type V = Seq<FileConflictsView>;

    closed spec fn view(&self) -> Seq<FileConflictsView> {
        Seq::new(self.entries@.len(), |i: int| self.entries@[i]@)
    }
}

impl ConflictMap {
    /// A map without conflicts.
    pub fn new() -> (map: ConflictMap)
        ensures
            map@ == Seq::<FileConflictsView>::empty(),
    {
        let map = ConflictMap { entries: Vec::new() };
        assert(map@ =~= Seq::<FileConflictsView>::empty());
        map
    }

    /// Adds `range` to the conflicts of its file.
    pub fn record(&mut self, range: &ConflictRange)
        ensures
            final(self)@ == record_range(old(self)@, range@),
    {
        let ghost groups = self@;
        let mut at: usize = 0;
        while at < self.entries.len() && !(self.entries[at].file == range.file)
            invariant
                at <= self.entries.len(),
                self@ == groups,
                group_of_file(groups, range@.file, 0) == group_of_file(
                    groups,
                    range@.file,
                    at as int,
                ),
            decreases self.entries.len() - at,
        {
            at = at + 1;
        }
        if at < self.entries.len() {
            let ghost spans = self.entries[at as int].spans@;
            self.entries[at].spans.push((range.start, range.end));
            assert(span_views(self.entries[at as int].spans@) =~= span_views(spans).push(
                (range@.start, range@.end),
            ));
            assert(self@ =~= record_range(groups, range@));
        } else {
            let mut spans: Vec<(usize, usize)> = Vec::new();
            spans.push((range.start, range.end));
            assert(span_views(spans@) =~= seq![(range@.start, range@.end)]);
            self.entries.push(FileConflicts { file: range.file.clone(), spans });
            assert(self@ =~= record_range(groups, range@));
        }
    }

    /// Groups `ranges` by file.
    pub fn from_ranges(ranges: &Vec<ConflictRange>) -> (map: ConflictMap)
        ensures
            map@ == group_ranges(range_views(ranges@)),
    {
        let mut map = ConflictMap::new();
        let mut i: usize = 0;
        while i < ranges.len()
            invariant
                i <= ranges.len(),
                map@ == group_ranges(range_views(ranges@).take(i as int)),
            decreases ranges.len() - i,
        {
            proof {
                let all = range_views(ranges@);
                assert(all.take(i + 1).drop_last() =~= all.take(i as int));
                assert(all.take(i + 1).last() == ranges@[i as int]@);
            }
            map.record(&ranges[i]);
            i = i + 1;
        }
        assert(range_views(ranges@).take(i as int) =~= range_views(ranges@));
        map
    }

    /// Whether no file has a conflict.
    pub fn is_empty(&self) -> (empty: bool)
        ensures
            empty == (self@.len() == 0),
    {
        self.entries.len() == 0
    }

    /// The number of files with a conflict.
    pub fn file_count(&self) -> (count: usize)
        ensures
            count == self@.len(),
    {
        self.entries.len()
    }

    /// The conflicts of the file at position `at`, in the order in which the
    /// files were first seen.
    pub fn file_at(&self, at: usize) -> (group: &FileConflicts)
        requires
            at < self@.len(),
        ensures
            group@ == self@[at as int],
    {
        &self.entries[at]
    }

    /// The conflicts of `file`, if it has any.
    pub fn get(&self, file: &str) -> (found: Option<&FileConflicts>)
        ensures
            match found {
                Some(group) => find_group(self@, file@) == Some(group@),
                None => find_group(self@, file@) is None,
            },
    {
        let wanted = file.to_owned();
        let mut at: usize = 0;
        while at < self.entries.len() && !(self.entries[at].file == wanted)
            invariant
                at <= self.entries.len(),
                wanted@ == file@,
                group_of_file(self@, file@, 0) == group_of_file(self@, file@, at as int),
            decreases self.entries.len() - at,
        {
            at = at + 1;
        }
        if at < self.entries.len() {
            Some(&self.entries[at])
        } else {
            None
        }
    }

    /// All conflicts: file after file, and within a file in the order in
    /// which they were recorded.
    pub fn ranges(&self) -> (ranges: Vec<ConflictRange>)
        ensures
            range_views(ranges@) == all_ranges(self@),
    {
        let mut ranges: Vec<ConflictRange> = Vec::new();
        let mut i: usize = 0;
        while i < self.entries.len()
            invariant
                i <= self.entries.len(),
                range_views(ranges@) =~= all_ranges(self@.take(i as int)),
            decreases self.entries.len() - i,
        {
            let group = &self.entries[i];
            let ghost earlier = range_views(ranges@);
            let mut j: usize = 0;
            while j < group.spans.len()
                invariant
                    j <= group.spans.len(),
                    range_views(ranges@) =~= earlier + group_as_ranges(group@).take(j as int),
                decreases group.spans.len() - j,
            {
                let ghost before = ranges@;
                let (start, end) = group.spans[j];
                ranges.push(ConflictRange { file: group.file.clone(), start, end });
                proof {
                    let whole = group_as_ranges(group@);
                    assert(range_views(ranges@) =~= range_views(before).push(whole[j as int]));
                    assert(whole.take(j + 1) =~= whole.take(j as int).push(whole[j as int]));
                }
                j = j + 1;
            }
            proof {
                let whole = group_as_ranges(group@);
                assert(whole.take(j as int) =~= whole);
                assert(self@.take(i + 1).drop_last() =~= self@.take(i as int));
                assert(self@.take(i + 1).last() == group@);
            }
            i = i + 1;
        }
        assert(self@.take(i as int) =~= self@);
        ranges
    }
}

/// Folds `markers` into the conflicts of each file.
pub fn index_conflicts(markers: &Vec<Marker>) -> (map: ConflictMap)
    ensures
        map@ == group_ranges(conflict_ranges(marker_views(markers@))),
{
    let ranges = index_markers(markers);
    ConflictMap::from_ranges(&ranges)
}

/// Whether no two of `groups` belong to one file.
pub open spec fn files_distinct(groups: Seq<FileConflictsView>) -> bool {
    forall|i: int, j: int|
        0 <= i < j < groups.len() ==> (#[trigger] groups[i]).file != (#[trigger] groups[j]).file
}

/// The spans that `groups` hold for `file`: none where it has no group.
pub open spec fn group_spans(groups: Seq<FileConflictsView>, file: Seq<char>) -> Seq<(nat, nat)> {
    let at = group_of_file(groups, file, 0);
    if 0 <= at < groups.len() {
        groups[at].spans
    } else {
        Seq::empty()
    }
}

/// The spans of the ranges of `file` among `ranges`, in their order.
pub open spec fn spans_of_file(ranges: Seq<RangeView>, file: Seq<char>) -> Seq<(nat, nat)>
    decreases ranges.len(),
{
    if ranges.len() == 0 {
        Seq::empty()
    } else if ranges.last().file == file {
        spans_of_file(ranges.drop_last(), file).push((ranges.last().start, ranges.last().end))
    } else {
        spans_of_file(ranges.drop_last(), file)
    }
}

/// Spans in order: each names lines from 1 on and at least one, and each
/// begins after the one before it ends.
pub open spec fn spans_in_order(spans: Seq<(nat, nat)>) -> bool {
    &&& forall|i: int| 0 <= i < spans.len() ==> 1 <= (#[trigger] spans[i]).0 <= spans[i].1
    &&& forall|i: int, j: int|
        0 <= i < j < spans.len() ==> (#[trigger] spans[i]).1 < (#[trigger] spans[j]).0
}

/// Where the group of a file is found: between `from` and the number of
/// groups; at a group of that file, if at any; and after every group from
/// `from` on that belongs to another file.
pub proof fn lemma_group_of_file(groups: Seq<FileConflictsView>, file: Seq<char>, from: int)
    requires
        0 <= from <= groups.len(),
    ensures
        from <= group_of_file(groups, file, from) <= groups.len(),
        group_of_file(groups, file, from) < groups.len() ==> groups[group_of_file(
            groups,
            file,
            from,
        )].file == file,
        forall|i: int|
            from <= i < group_of_file(groups, file, from) ==> (#[trigger] groups[i]).file != file,
    decreases groups.len() - from,
{
    if from < groups.len() && groups[from].file != file {
        lemma_group_of_file(groups, file, from + 1);
    }
}

/// The group of a file stands at `at` if a group of that file stands there
/// and none stands between `from` and `at`.
pub proof fn lemma_group_of_file_is(
    groups: Seq<FileConflictsView>,
    file: Seq<char>,
    from: int,
    at: int,
)
    requires
        0 <= from <= at <= groups.len(),
        forall|i: int| from <= i < at ==> (#[trigger] groups[i]).file != file,
        at < groups.len() ==> groups[at].file == file,
    ensures
        group_of_file(groups, file, from) == at,
    decreases at - from,
{
    if from < at {
        lemma_group_of_file_is(groups, file, from + 1, at);
    }
}

/// Recording a range adds its span to the spans of its file and leaves the
/// spans of every other file as they are.
pub proof fn lemma_record_range_spans(
    groups: Seq<FileConflictsView>,
    range: RangeView,
    file: Seq<char>,
)
    ensures
        group_spans(record_range(groups, range), file) == (if range.file == file {
            group_spans(groups, file).push((range.start, range.end))
        } else {
            group_spans(groups, file)
        }),
{
    let recorded = record_range(groups, range);
    let target = group_of_file(groups, range.file, 0);
    let at = group_of_file(groups, file, 0);
    lemma_group_of_file(groups, range.file, 0);
    lemma_group_of_file(groups, file, 0);
    if target < groups.len() {
        assert forall|i: int| 0 <= i < groups.len() implies (#[trigger] recorded[i]).file
            == groups[i].file by {}
        assert forall|i: int| 0 <= i < at implies (#[trigger] recorded[i]).file != file by {
            assert(groups[i].file != file);
        }
        lemma_group_of_file_is(recorded, file, 0, at);
    } else {
        assert forall|i: int| 0 <= i < at implies (#[trigger] recorded[i]).file != file by {
            assert(recorded[i] == groups[i]);
            assert(groups[i].file != file);
        }
        if at < groups.len() {
            assert(recorded[at] == groups[at]);
            lemma_group_of_file_is(recorded, file, 0, at);
        } else if range.file == file {
            lemma_group_of_file_is(recorded, file, 0, at);
            assert(recorded[at].spans =~= Seq::<(nat, nat)>::empty().push(
                (range.start, range.end),
            ));
        } else {
            assert(recorded[at].file != file);
            lemma_group_of_file_is(recorded, file, 0, at + 1);
        }
    }
}

/// Grouping loses and reorders nothing within a file: the spans that the
/// groups hold for a file are those of its ranges, in the order in which the
/// ranges came.
pub proof fn lemma_group_spans(ranges: Seq<RangeView>, file: Seq<char>)
    ensures
        group_spans(group_ranges(ranges), file) == spans_of_file(ranges, file),
    decreases ranges.len(),
{
    if ranges.len() > 0 {
        lemma_group_spans(ranges.drop_last(), file);
        lemma_record_range_spans(group_ranges(ranges.drop_last()), ranges.last(), file);
    }
}

/// Recording a range keeps the files of the groups distinct and gives no
/// group without a span.
pub proof fn lemma_record_range_keeps_shape(groups: Seq<FileConflictsView>, range: RangeView)
    requires
        files_distinct(groups),
        forall|i: int| 0 <= i < groups.len() ==> (#[trigger] groups[i]).spans.len() > 0,
    ensures
        files_distinct(record_range(groups, range)),
        forall|i: int|
            0 <= i < record_range(groups, range).len() ==> (#[trigger] record_range(
                groups,
                range,
            )[i]).spans.len() > 0,
{
    let recorded = record_range(groups, range);
    let target = group_of_file(groups, range.file, 0);
    lemma_group_of_file(groups, range.file, 0);
    assert forall|i: int, j: int| 0 <= i < j < recorded.len() implies (#[trigger] recorded[i]).file
        != (#[trigger] recorded[j]).file by {
        if target < groups.len() {
            assert(recorded[i].file == groups[i].file);
            assert(recorded[j].file == groups[j].file);
        } else {
            assert(recorded[i] == groups[i]);
            if j < groups.len() {
                assert(recorded[j] == groups[j]);
            }
        }
    }
    assert forall|i: int| 0 <= i < recorded.len() implies (#[trigger] recorded[i]).spans.len()
        > 0 by {
        if i < groups.len() && i != target {
            assert(recorded[i] == groups[i]);
        }
    }
}

/// Grouped ranges form a mapping: no file has two groups, and every group
/// has a span.
pub proof fn lemma_groups_form_a_mapping(ranges: Seq<RangeView>)
    ensures
        files_distinct(group_ranges(ranges)),
        forall|i: int|
            0 <= i < group_ranges(ranges).len() ==> (#[trigger] group_ranges(ranges)[i]).spans.len()
                > 0,
    decreases ranges.len(),
{
    if ranges.len() > 0 {
        lemma_groups_form_a_mapping(ranges.drop_last());
        lemma_record_range_keeps_shape(group_ranges(ranges.drop_last()), ranges.last());
    }
}

/// The spans of a file among the first `seen` of ranges in order are in
/// order, and end before every later range of that file begins.
proof fn lemma_spans_of_file_in_order(ranges: Seq<RangeView>, file: Seq<char>, seen: int)
    requires
        ranges_in_order(ranges),
        0 <= seen <= ranges.len(),
    ensures
        spans_in_order(spans_of_file(ranges.take(seen), file)),
        forall|i: int, k: int|
            0 <= i < spans_of_file(ranges.take(seen), file).len() && seen <= k < ranges.len() && (
            #[trigger] ranges[k]).file == file ==> (#[trigger] spans_of_file(
                ranges.take(seen),
                file,
            )[i]).1 < ranges[k].start,
    decreases seen,
{
    if seen > 0 {
        let earlier = spans_of_file(ranges.take(seen - 1), file);
        let spans = spans_of_file(ranges.take(seen), file);
        let last = ranges[seen - 1];
        lemma_spans_of_file_in_order(ranges, file, seen - 1);
        assert(ranges.take(seen).drop_last() =~= ranges.take(seen - 1));
        assert(ranges.take(seen).last() == last);
        assert(last.well_formed());
        assert forall|i: int| 0 <= i < spans.len() implies 1 <= (#[trigger] spans[i]).0
            <= spans[i].1 by {
            if i < earlier.len() {
                assert(spans[i] == earlier[i]);
            }
        }
        assert forall|i: int, j: int| 0 <= i < j < spans.len() implies (#[trigger] spans[i]).1 < (
        #[trigger] spans[j]).0 by {
            assert(spans[i] == earlier[i]);
            if j < earlier.len() {
                assert(spans[j] == earlier[j]);
            } else {
                assert(ranges[seen - 1].file == file);
            }
        }
        assert forall|i: int, k: int|
            0 <= i < spans.len() && seen <= k < ranges.len() && (#[trigger] ranges[k]).file
                == file implies (#[trigger] spans[i]).1 < ranges[k].start by {
            if i < earlier.len() {
                assert(spans[i] == earlier[i]);
            } else {
                assert(ranges[seen - 1].file == ranges[k].file);
            }
        }
    }
}

/// The conflicts of a tree, indexed from markers in the order of one walk:
/// no file has two groups, every group has a span, and the spans of each file
/// are well formed, ascend and do not overlap.
pub proof fn lemma_conflict_map_in_order(markers: Seq<MarkerView>)
    requires
        markers_in_order(markers),
    ensures
        files_distinct(group_ranges(conflict_ranges(markers))),
        forall|i: int|
            0 <= i < group_ranges(conflict_ranges(markers)).len() ==> {
                let group = #[trigger] group_ranges(conflict_ranges(markers))[i];
                group.spans.len() > 0 && spans_in_order(group.spans)
            },
{
    let ranges = conflict_ranges(markers);
    let groups = group_ranges(ranges);
    lemma_ordered_markers_give_ordered_ranges(markers);
    lemma_groups_form_a_mapping(ranges);
    assert forall|i: int| 0 <= i < groups.len() implies {
        let group = #[trigger] groups[i];
        group.spans.len() > 0 && spans_in_order(group.spans)
    } by {
        let file = groups[i].file;
        assert forall|j: int| 0 <= j < i implies (#[trigger] groups[j]).file != file by {}
        lemma_group_of_file_is(groups, file, 0, i);
        lemma_group_spans(ranges, file);
        lemma_spans_of_file_in_order(ranges, file, ranges.len() as int);
        assert(ranges.take(ranges.len() as int) =~= ranges);
    }
}

} // verus!
