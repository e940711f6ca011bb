//! Folding a stream of markers into conflict ranges.

use vstd::prelude::*;
use crate::marker::{
    lemma_scan_is_exact, marker_views, scan_spec, Marker, MarkerKind, MarkerView,
};

verus! {

/// The lines `start..=end` of `file`, spanned by one conflict.
#[derive(Clone, Debug, PartialEq, Eq)]
pub struct ConflictRange {
    pub file: String,
    /// 1-based line of the start marker.
    pub start: usize,
    /// 1-based line of the matching end marker, or `start` where none was seen.
    pub end: usize,
}

/// The mathematical value of a [`ConflictRange`].
pub struct RangeView {
    pub file: Seq<char>,
    pub start: nat,
    pub end: nat,
}

impl View for ConflictRange {
    type V = RangeView;

    open spec fn view(&self) -> RangeView {
        RangeView { file: self.file@, start: self.start as nat, end: self.end as nat }
    }
}

impl RangeView {
    /// A range names at least one line, and lines are numbered from 1.
    pub open spec fn well_formed(self) -> bool {
        1 <= self.start <= self.end
    }
}

/// The views of a list of ranges.
pub open spec fn range_views(ranges: Seq<ConflictRange>) -> Seq<RangeView> {
    Seq::new(ranges.len(), |i: int| ranges[i]@)
}

/// What the indexer knows after some markers: the ranges it has closed, and
/// the file and line of a start marker that still waits for its end.
pub struct IndexState {
    pub closed: Seq<RangeView>,
    pub open: Option<(Seq<char>, nat)>,
}

/// The closed ranges of `state`, with a conflict that is still open closed as
/// the single line of its start marker.
pub open spec fn close_open(state: IndexState) -> Seq<RangeView> {
    match state.open {
        Some((file, start)) => state.closed.push(RangeView { file, start, end: start }),
        None => state.closed,
    }
}

/// `state` as it stands when a marker of `file` arrives: a conflict left open
/// in another file ends with that file.
pub open spec fn enter_file(state: IndexState, file: Seq<char>) -> IndexState {
    match state.open {
        Some((open_file, _)) if open_file != file => IndexState {
            closed: close_open(state),
            open: None,
        },
        _ => state,
    }
}

/// One step of the indexer. A start marker closes a conflict that is still
/// open as a single line and opens a new one; an end marker closes the open
/// conflict at its own line; a divider changes nothing.
pub open spec fn index_step(state: IndexState, marker: MarkerView) -> IndexState {
    let here = enter_file(state, marker.file);
    match marker.kind {
        MarkerKind::Start => IndexState {
            closed: close_open(here),
            open: Some((marker.file, marker.line)),
        },
        MarkerKind::End => match here.open {
            Some((file, start)) => IndexState {
                closed: here.closed.push(RangeView { file, start, end: marker.line }),
                open: None,
            },
            None => here,
        },
        MarkerKind::Divider => here,
    }
}

/// The indexer's state after all of `markers`, taken in order.
pub open spec fn index_fold(markers: Seq<MarkerView>) -> IndexState
    decreases markers.len(),
{
    if markers.len() == 0 {
        IndexState { closed: Seq::empty(), open: None }
    } else {
        index_step(index_fold(markers.drop_last()), markers.last())
    }
}

/// The conflict ranges that `markers` delimit, in the order in which they
/// were closed.
pub open spec fn conflict_ranges(markers: Seq<MarkerView>) -> Seq<RangeView> {
    close_open(index_fold(markers))
}

/// Folds `markers` into conflict ranges.
pub fn index_markers(markers: &Vec<Marker>) -> (ranges: Vec<ConflictRange>)
    ensures
        range_views(ranges@) == conflict_ranges(marker_views(markers@)),
{
    let mut closed: Vec<ConflictRange> = Vec::new();
    let mut open: Option<(String, usize)> = None;
    let mut i: usize = 0;
    while i < markers.len()
        invariant
            i <= markers.len(),
            index_fold(marker_views(markers@).take(i as int)).closed =~= range_views(closed@),
            index_fold(marker_views(markers@).take(i as int)).open == open_view(open),
        decreases markers.len() - i,
    {
        let marker = &markers[i];
        proof {
            let all = marker_views(markers@);
            assert(all.take(i + 1).drop_last() =~= all.take(i as int));
            assert(all.take(i + 1).last() == marker@);
        }
        let ghost before = IndexState { closed: range_views(closed@), open: open_view(open) };
        let stale = match &open {
            Some((file, _)) => !(*file == marker.file),
            None => false,
        };
        if stale {
            open = close_into(&mut closed, open);
        }
        assert(enter_file(before, marker@.file).closed =~= range_views(closed@));
        assert(enter_file(before, marker@.file).open == open_view(open));
        match marker.kind {
            MarkerKind::Start => {
                let _ = close_into(&mut closed, open);
                open = Some((marker.file.clone(), marker.line));
            },
            MarkerKind::End => {
                if let Some((file, start)) = open {
                    let ghost earlier = closed@;
                    closed.push(ConflictRange { file, start, end: marker.line });
                    assert(range_views(closed@) =~= range_views(earlier).push(closed@.last()@));
                    open = None;
                }
            },
            MarkerKind::Divider => {},
        }
        i = i + 1;
    }
    assert(marker_views(markers@).take(i as int) =~= marker_views(markers@));
    let _ = close_into(&mut closed, open);
    closed
}

/// The file and line of an open conflict, as the fold sees them.
pub open spec fn open_view(open: Option<(String, usize)>) -> Option<(Seq<char>, nat)> {
    match open {
        Some((file, start)) => Some((file@, start as nat)),
        None => None,
    }
}

/// Closes an open conflict as the single line of its start marker.
fn close_into(closed: &mut Vec<ConflictRange>, open: Option<(String, usize)>) -> (left: Option<
    (String, usize),
>)
    ensures
        left is None,
        range_views(final(closed)@) == close_open(
            IndexState { closed: range_views(old(closed)@), open: open_view(open) },
        ),
{
    if let Some((file, start)) = open {
        let ghost earlier = closed@;
        closed.push(ConflictRange { file, start, end: start });
        assert(range_views(closed@) =~= range_views(earlier).push(closed@.last()@));
    }
    None
}

/// The first of `ranges` that begins at line `from_line` or later. After a
/// conflict was rewritten the lines below it have moved up; the conflicts of
/// the file are then indexed anew, and this finds where to go on.
pub fn next_conflict(ranges: &Vec<ConflictRange>, from_line: usize) -> (found: Option<usize>)
    ensures
        match found {
            Some(at) => {
                &&& at < ranges@.len()
                &&& ranges@[at as int].start >= from_line
                &&& forall|i: int| 0 <= i < at ==> (#[trigger] ranges@[i]).start < from_line
            },
            None => forall|i: int| 0 <= i < ranges@.len() ==> (#[trigger] ranges@[i]).start < from_line,
        },
{
    let mut at: usize = 0;
    while at < ranges.len()
        invariant
            at <= ranges.len(),
            forall|i: int| 0 <= i < at ==> (#[trigger] ranges@[i]).start < from_line,
        decreases ranges.len() - at,
    {
        if ranges[at].start >= from_line {
            return Some(at);
        }
        at = at + 1;
    }
    None
}

/// Markers as one walk over a tree yields them: lines are numbered from 1,
/// and of two markers of one file the later one stands at a higher line.
pub open spec fn markers_in_order(markers: Seq<MarkerView>) -> bool {
    &&& forall|i: int| 0 <= i < markers.len() ==> (#[trigger] markers[i]).line >= 1
    &&& forall|i: int, j: int|
        0 <= i < j < markers.len() && (#[trigger] markers[i]).file == (#[trigger] markers[j]).file
            ==> markers[i].line < markers[j].line
}

/// Ranges in order: each is well formed, and of two ranges of one file the
/// later one begins after the earlier one ends, so that they neither overlap
/// nor nest and stand in ascending order.
pub open spec fn ranges_in_order(ranges: Seq<RangeView>) -> bool {
    &&& forall|i: int| 0 <= i < ranges.len() ==> (#[trigger] ranges[i]).well_formed()
    &&& forall|i: int, j: int|
        0 <= i < j < ranges.len() && (#[trigger] ranges[i]).file == (#[trigger] ranges[j]).file
            ==> ranges[i].end < ranges[j].start
}

/// What holds of the indexer's state after the first `seen` of `markers`:
/// the closed ranges are in order and end before every marker of their file
/// that is still to come, and an open conflict begins after the closed ranges
/// of its file and before every marker of its file that is still to come.
pub open spec fn fold_in_order(state: IndexState, markers: Seq<MarkerView>, seen: int) -> bool {
    &&& ranges_in_order(state.closed)
    &&& forall|i: int, k: int|
        0 <= i < state.closed.len() && seen <= k < markers.len() && (
        #[trigger] state.closed[i]).file == (#[trigger] markers[k]).file ==> state.closed[i].end
            < markers[k].line
    &&& match state.open {
        Some((file, start)) => {
            &&& start >= 1
            &&& forall|i: int|
                0 <= i < state.closed.len() && (#[trigger] state.closed[i]).file == file
                    ==> state.closed[i].end < start
            &&& forall|k: int|
                seen <= k < markers.len() && (#[trigger] markers[k]).file == file ==> start
                    < markers[k].line
        },
        None => true,
    }
}

/// Closing an open conflict as a single line keeps the state in order.
proof fn lemma_close_open_in_order(state: IndexState, markers: Seq<MarkerView>, seen: int)
    requires
        fold_in_order(state, markers, seen),
    ensures
        fold_in_order(IndexState { closed: close_open(state), open: None }, markers, seen),
{
    match state.open {
        Some((file, start)) => {
            let closed = close_open(state);
            let last = state.closed.len() as int;
            assert forall|i: int| 0 <= i < closed.len() implies (#[trigger] closed[i]).well_formed() by {
                if i < last {
                    assert(closed[i] == state.closed[i]);
                }
            }
            assert forall|i: int, j: int|
                0 <= i < j < closed.len() && (#[trigger] closed[i]).file == (
                #[trigger] closed[j]).file implies closed[i].end < closed[j].start by {
                assert(closed[i] == state.closed[i]);
                if j < last {
                    assert(closed[j] == state.closed[j]);
                }
            }
            assert forall|i: int, k: int|
                0 <= i < closed.len() && seen <= k < markers.len() && (#[trigger] closed[i]).file
                    == (#[trigger] markers[k]).file implies closed[i].end < markers[k].line by {
                if i < last {
                    assert(closed[i] == state.closed[i]);
                }
            }
        },
        None => {},
    }
}

/// One step of the indexer keeps the state in order.
proof fn lemma_index_step_in_order(state: IndexState, markers: Seq<MarkerView>, seen: int)
    requires
        markers_in_order(markers),
        0 <= seen < markers.len(),
        fold_in_order(state, markers, seen),
    ensures
        fold_in_order(index_step(state, markers[seen]), markers, seen + 1),
{
    let marker = markers[seen];
    let here = enter_file(state, marker.file);
    lemma_close_open_in_order(state, markers, seen);
    assert(fold_in_order(here, markers, seen));
    match marker.kind {
        MarkerKind::Start => {
            lemma_close_open_in_order(here, markers, seen);
            let next = index_step(state, marker);
            assert(next.closed == close_open(here));
            assert forall|k: int|
                seen + 1 <= k < markers.len() && (#[trigger] markers[k]).file
                    == marker.file implies marker.line < markers[k].line by {
                assert(markers[seen].file == markers[k].file);
            }
        },
        MarkerKind::End => {
            match here.open {
                Some((file, start)) => {
                    let closed = here.closed.push(RangeView { file, start, end: marker.line });
                    let last = here.closed.len() as int;
                    assert(file == marker.file);
                    assert(start < marker.line);
                    assert forall|i: int| 0 <= i < closed.len() implies (
                    #[trigger] closed[i]).well_formed() by {
                        if i < last {
                            assert(closed[i] == here.closed[i]);
                        }
                    }
                    assert forall|i: int, j: int|
                        0 <= i < j < closed.len() && (#[trigger] closed[i]).file == (
                        #[trigger] closed[j]).file implies closed[i].end < closed[j].start by {
                        assert(closed[i] == here.closed[i]);
                        if j < last {
                            assert(closed[j] == here.closed[j]);
                        }
                    }
                    assert forall|i: int, k: int|
                        0 <= i < closed.len() && seen + 1 <= k < markers.len() && (
                        #[trigger] closed[i]).file == (
                        #[trigger] markers[k]).file implies closed[i].end < markers[k].line by {
                        if i < last {
                            assert(closed[i] == here.closed[i]);
                        } else {
                            assert(markers[seen].file == markers[k].file);
                        }
                    }
                },
                None => {},
            }
        },
        MarkerKind::Divider => {},
    }
}

/// The indexer's state is in order after each beginning of markers that
/// are in order.
proof fn lemma_index_fold_in_order(markers: Seq<MarkerView>, seen: int)
    requires
        markers_in_order(markers),
        0 <= seen <= markers.len(),
    ensures
        fold_in_order(index_fold(markers.take(seen)), markers, seen),
    decreases seen,
{
    if seen > 0 {
        lemma_index_fold_in_order(markers, seen - 1);
        assert(markers.take(seen).drop_last() =~= markers.take(seen - 1));
        assert(markers.take(seen).last() == markers[seen - 1]);
        lemma_index_step_in_order(index_fold(markers.take(seen - 1)), markers, seen - 1);
    }
}

/// From markers in the order of one walk over a tree the indexer makes
/// well-formed ranges that, within each file, ascend and do not overlap.
pub proof fn lemma_ordered_markers_give_ordered_ranges(markers: Seq<MarkerView>)
    requires
        markers_in_order(markers),
    ensures
        ranges_in_order(conflict_ranges(markers)),
{
    let n = markers.len() as int;
    lemma_index_fold_in_order(markers, n);
    assert(markers.take(n) =~= markers);
    lemma_close_open_in_order(index_fold(markers), markers, n);
}

/// The conflicts found by scanning the lines of one file are well formed,
/// ascend and do not overlap.
pub proof fn lemma_scanned_file_gives_ordered_ranges(file: Seq<char>, lines: Seq<Seq<char>>)
    ensures
        markers_in_order(scan_spec(file, lines)),
        ranges_in_order(conflict_ranges(scan_spec(file, lines))),
{
    lemma_scan_is_exact(file, lines);
    lemma_ordered_markers_give_ordered_ranges(scan_spec(file, lines));
}

/// The indexer's state after one more marker.
pub proof fn lemma_index_fold_push(markers: Seq<MarkerView>, marker: MarkerView)
    ensures
        index_fold(markers.push(marker)) == index_step(index_fold(markers), marker),
{
    assert(markers.push(marker).drop_last() =~= markers);
    assert(markers.push(marker).last() == marker);
}

/// A start marker that no end marker follows gives a range of one line,
/// the line of that marker, whatever came before it.
pub proof fn lemma_unterminated_conflict_is_one_line(
    markers: Seq<MarkerView>,
    file: Seq<char>,
    line: nat,
)
    ensures
        conflict_ranges(
            markers.push(MarkerView { file, line, kind: MarkerKind::Start }),
        ).last() == (RangeView { file, start: line, end: line }),
{
    lemma_index_fold_push(markers, MarkerView { file, line, kind: MarkerKind::Start });
}

} // verus!
