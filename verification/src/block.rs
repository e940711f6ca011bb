//! Well-formed conflict blocks, and what the scanner and the strategies make
//! of them.

use vstd::prelude::*;
use crate::index::{conflict_ranges, index_fold, lemma_index_fold_push, RangeView};
use crate::marker::{
    is_divider_line, is_end_line, is_marker_line, is_start_line, marker_kind, scan_spec,
    MarkerKind, MarkerView,
};
use crate::rewrite::{
    current_from, current_side, current_to, first_marker, incoming_side, rewrite_spec,
    strategy_result, without_markers, ResolutionStrategy,
};

verus! {

/// Whether none of `lines` is a marker.
pub open spec fn marker_free(lines: Seq<Seq<char>>) -> bool {
    forall|i: int| 0 <= i < lines.len() ==> !is_marker_line(#[trigger] lines[i])
}

/// The divider line.
pub open spec fn divider_line() -> Seq<char> {
    "======="@
}

/// One conflict as a three-way merge writes it: a start marker, the current
/// side, the divider, the incoming side, an end marker.
pub struct ConflictBlock {
    pub start: Seq<char>,
    pub current: Seq<Seq<char>>,
    pub incoming: Seq<Seq<char>>,
    pub end: Seq<char>,
}

impl ConflictBlock {
    /// The first and the last line are the markers they should be, and
    /// neither side holds a marker.
    pub open spec fn well_formed(self) -> bool {
        &&& is_start_line(self.start)
        &&& is_end_line(self.end)
        &&& marker_free(self.current)
        &&& marker_free(self.incoming)
    }

    /// The lines of the block.
    pub open spec fn lines(self) -> Seq<Seq<char>> {
        seq![self.start] + self.current + seq![divider_line()] + self.incoming + seq![self.end]
    }

    /// Where the divider stands among the lines of the block, from 0.
    pub open spec fn divider_at(self) -> int {
        self.current.len() as int + 1
    }

    /// Where the end marker stands among the lines of the block, from 0.
    pub open spec fn end_at(self) -> int {
        self.current.len() as int + self.incoming.len() as int + 2
    }
}

/// The three kinds of marker exclude each other: a line that begins with
/// `<` is a start marker only, the divider is a divider only, and a line that
/// begins with `>` is an end marker only.
pub proof fn lemma_marker_kinds(line: Seq<char>)
    ensures
        is_start_line(line) ==> marker_kind(line) == Some(MarkerKind::Start),
        is_divider_line(line) ==> marker_kind(line) == Some(MarkerKind::Divider),
        is_end_line(line) ==> marker_kind(line) == Some(MarkerKind::End),
        marker_kind(divider_line()) == Some(MarkerKind::Divider),
{
    reveal_strlit("<<<<<<<");
    reveal_strlit("=======");
    reveal_strlit(">>>>>>>");
    let start = "<<<<<<<"@;
    let divider = "======="@;
    let end = ">>>>>>>"@;
    if is_divider_line(line) && is_start_line(line) {
        assert(line.subrange(0, 7)[0] == start[0]);
    }
    if is_end_line(line) {
        assert(line.subrange(0, 7)[0] == end[0]);
        if is_start_line(line) {
            assert(line.subrange(0, 7)[0] == start[0]);
        }
    }
    if is_start_line(divider) {
        assert(divider.subrange(0, 7)[0] == start[0]);
    }
}

/// Where the first marker of a kind stands: at `at`, if the line there is
/// such a marker and none of the lines from `from` up to it is.
pub proof fn lemma_first_marker_found(
    lines: Seq<Seq<char>>,
    from: int,
    at: int,
    kind: MarkerKind,
)
    requires
        0 <= from <= at <= lines.len(),
        forall|i: int| from <= i < at ==> marker_kind(#[trigger] lines[i]) != Some(kind),
        at < lines.len() ==> marker_kind(lines[at]) == Some(kind),
    ensures
        first_marker(lines, from, kind) == at,
    decreases at - from,
{
    if from < at {
        lemma_first_marker_found(lines, from + 1, at, kind);
    }
}

/// What is left of a list of lines without its markers is the same whether
/// the markers are taken out of the whole or of its two parts.
pub proof fn lemma_without_markers_of_parts(first: Seq<Seq<char>>, second: Seq<Seq<char>>)
    ensures
        without_markers(first + second) == without_markers(first) + without_markers(second),
    decreases second.len(),
{
    if second.len() == 0 {
        assert(first + second =~= first);
        assert(without_markers(first) + without_markers(second) =~= without_markers(first));
    } else {
        assert((first + second).drop_last() =~= first + second.drop_last());
        assert((first + second).last() == second.last());
        lemma_without_markers_of_parts(first, second.drop_last());
        if !is_marker_line(second.last()) {
            assert(without_markers(first + second) =~= without_markers(first) + without_markers(
                second,
            ));
        }
    }
}

/// Lines without a marker lose nothing when the markers are taken out.
pub proof fn lemma_without_markers_of_marker_free(lines: Seq<Seq<char>>)
    requires
        marker_free(lines),
    ensures
        without_markers(lines) == lines,
    decreases lines.len(),
{
    if lines.len() == 0 {
        assert(without_markers(lines) =~= lines);
    } else {
        assert(marker_free(lines.drop_last())) by {
            assert forall|i: int| 0 <= i < lines.drop_last().len() implies !is_marker_line(
                #[trigger] lines.drop_last()[i],
            ) by {
                assert(lines.drop_last()[i] == lines[i]);
            }
        }
        lemma_without_markers_of_marker_free(lines.drop_last());
        assert(!is_marker_line(lines[lines.len() - 1]));
        assert(without_markers(lines) =~= lines);
    }
}

/// On a well-formed block each strategy keeps what its name says: the
/// incoming side, the current side, or the current side followed by the
/// incoming side.
pub proof fn lemma_strategies_on_block(block: ConflictBlock)
    requires
        block.well_formed(),
    ensures
        incoming_side(block.lines()) == block.incoming,
        current_side(block.lines()) == block.current,
        without_markers(block.lines()) == block.current + block.incoming,
{
    let lines = block.lines();
    let divider = block.divider_at();
    let end = block.end_at();
    lemma_marker_kinds(block.start);
    lemma_marker_kinds(block.end);
    assert(lines[0] == block.start);
    assert(lines[divider] == divider_line());
    assert(lines[end] == block.end);
    assert forall|i: int| 1 <= i < divider implies !is_marker_line(#[trigger] lines[i]) by {
        assert(lines[i] == block.current[i - 1]);
    }
    assert forall|i: int| divider < i < end implies !is_marker_line(#[trigger] lines[i]) by {
        assert(lines[i] == block.incoming[i - divider - 1]);
    }
    lemma_first_marker_found(lines, 0, divider, MarkerKind::Divider);
    lemma_first_marker_found(lines, divider + 1, end, MarkerKind::End);
    assert(incoming_side(lines) =~= block.incoming);

    assert(current_from(lines) == 1);
    lemma_first_marker_found(lines, 1, divider, MarkerKind::Divider);
    lemma_first_marker_found(lines, 1, end, MarkerKind::End);
    assert(current_to(lines) == divider);
    assert(current_side(lines) =~= block.current);

    let head = seq![block.start] + block.current;
    let middle = seq![divider_line()];
    let tail = seq![block.end];
    lemma_without_markers_of_parts(seq![block.start], block.current);
    lemma_without_markers_of_parts(head, middle);
    lemma_without_markers_of_parts(head + middle, block.incoming);
    lemma_without_markers_of_parts(head + middle + block.incoming, tail);
    lemma_without_markers_of_marker_free(block.current);
    lemma_without_markers_of_marker_free(block.incoming);
    lemma_without_markers_of_one_marker(block.start);
    lemma_without_markers_of_one_marker(divider_line());
    lemma_without_markers_of_one_marker(block.end);
    assert(without_markers(lines) =~= block.current + block.incoming);
}

/// A marker line alone leaves nothing when the markers are taken out.
pub proof fn lemma_without_markers_of_one_marker(line: Seq<char>)
    requires
        is_marker_line(line),
    ensures
        without_markers(seq![line]) == Seq::<Seq<char>>::empty(),
{
    assert(seq![line].drop_last() =~= Seq::<Seq<char>>::empty());
    assert(seq![line].last() == line);
    assert(without_markers(seq![line]) =~= without_markers(Seq::<Seq<char>>::empty()));
}

/// `markers` with every line number raised by `by`.
pub open spec fn shifted(markers: Seq<MarkerView>, by: nat) -> Seq<MarkerView> {
    Seq::new(
        markers.len(),
        |i: int|
            MarkerView { file: markers[i].file, line: markers[i].line + by, kind: markers[i].kind },
    )
}

/// Scanning a list of lines finds the markers of its first part, and after
/// them those of its second part, numbered on from the first.
pub proof fn lemma_scan_of_parts(file: Seq<char>, first: Seq<Seq<char>>, second: Seq<Seq<char>>)
    ensures
        scan_spec(file, first + second) == scan_spec(file, first) + shifted(
            scan_spec(file, second),
            first.len(),
        ),
    decreases second.len(),
{
    if second.len() == 0 {
        assert(first + second =~= first);
        assert(scan_spec(file, first) + shifted(scan_spec(file, second), first.len())
            =~= scan_spec(file, first));
    } else {
        assert((first + second).drop_last() =~= first + second.drop_last());
        assert((first + second).last() == second.last());
        lemma_scan_of_parts(file, first, second.drop_last());
        assert(scan_spec(file, first + second) =~= scan_spec(file, first) + shifted(
            scan_spec(file, second),
            first.len(),
        ));
    }
}

/// Scanning lines without a marker finds nothing.
pub proof fn lemma_scan_of_marker_free(file: Seq<char>, lines: Seq<Seq<char>>)
    requires
        marker_free(lines),
    ensures
        scan_spec(file, lines) == Seq::<MarkerView>::empty(),
    decreases lines.len(),
{
    if lines.len() > 0 {
        assert forall|i: int| 0 <= i < lines.drop_last().len() implies !is_marker_line(
            #[trigger] lines.drop_last()[i],
        ) by {
            assert(lines.drop_last()[i] == lines[i]);
        }
        lemma_scan_of_marker_free(file, lines.drop_last());
        assert(!is_marker_line(lines[lines.len() - 1]));
    }
}

/// Scanning one marker line finds that marker, at line 1.
pub proof fn lemma_scan_of_one_marker(file: Seq<char>, line: Seq<char>, kind: MarkerKind)
    requires
        marker_kind(line) == Some(kind),
    ensures
        scan_spec(file, seq![line]) == seq![MarkerView { file, line: 1, kind }],
{
    assert(seq![line].drop_last() =~= Seq::<Seq<char>>::empty());
    assert(seq![line].last() == line);
    assert(scan_spec(file, Seq::<Seq<char>>::empty()) =~= Seq::<MarkerView>::empty());
    assert(scan_spec(file, seq![line]) =~= seq![MarkerView { file, line: 1, kind }]);
}

/// The three markers of a block whose first line is line `first` of `file`.
pub open spec fn block_markers(file: Seq<char>, block: ConflictBlock, first: nat) -> Seq<
    MarkerView,
> {
    seq![
        MarkerView { file, line: first, kind: MarkerKind::Start },
        MarkerView { file, line: (first + block.divider_at()) as nat, kind: MarkerKind::Divider },
        MarkerView { file, line: (first + block.end_at()) as nat, kind: MarkerKind::End },
    ]
}

/// Scanning a well-formed block finds its three markers and nothing else.
pub proof fn lemma_scan_of_block(file: Seq<char>, block: ConflictBlock)
    requires
        block.well_formed(),
    ensures
        scan_spec(file, block.lines()) == block_markers(file, block, 1),
{
    let start = seq![block.start];
    let divider = seq![divider_line()];
    let end = seq![block.end];
    lemma_marker_kinds(block.start);
    lemma_marker_kinds(block.end);
    lemma_scan_of_one_marker(file, block.start, MarkerKind::Start);
    lemma_scan_of_one_marker(file, divider_line(), MarkerKind::Divider);
    lemma_scan_of_one_marker(file, block.end, MarkerKind::End);
    lemma_scan_of_marker_free(file, block.current);
    lemma_scan_of_marker_free(file, block.incoming);
    lemma_scan_of_parts(file, start, block.current);
    lemma_scan_of_parts(file, start + block.current, divider);
    lemma_scan_of_parts(file, start + block.current + divider, block.incoming);
    lemma_scan_of_parts(file, start + block.current + divider + block.incoming, end);
    assert(scan_spec(file, block.lines()) =~= block_markers(file, block, 1));
}

/// A stretch of a file: lines without a marker, or one conflict.
pub enum Segment {
    Plain(Seq<Seq<char>>),
    Conflict(ConflictBlock),
}

impl Segment {
    /// Plain lines hold no marker, and a conflict is a well-formed block.
    pub open spec fn well_formed(self) -> bool {
        match self {
            Segment::Plain(lines) => marker_free(lines),
            Segment::Conflict(block) => block.well_formed(),
        }
    }

    /// The lines of the stretch.
    pub open spec fn lines(self) -> Seq<Seq<char>> {
        match self {
            Segment::Plain(lines) => lines,
            Segment::Conflict(block) => block.lines(),
        }
    }
}

/// Whether each of `segments` is well formed.
pub open spec fn segments_well_formed(segments: Seq<Segment>) -> bool {
    forall|i: int| 0 <= i < segments.len() ==> (#[trigger] segments[i]).well_formed()
}

/// The lines of a file made of `segments`.
pub open spec fn file_lines(segments: Seq<Segment>) -> Seq<Seq<char>>
    decreases segments.len(),
{
    if segments.len() == 0 {
        Seq::empty()
    } else {
        file_lines(segments.drop_last()) + segments.last().lines()
    }
}

/// The number of conflicts among `segments`.
pub open spec fn conflict_count(segments: Seq<Segment>) -> nat
    decreases segments.len(),
{
    if segments.len() == 0 {
        0
    } else {
        match segments.last() {
            Segment::Plain(_) => conflict_count(segments.drop_last()),
            Segment::Conflict(_) => conflict_count(segments.drop_last()) + 1,
        }
    }
}

/// The markers of a file made of `segments`: for each conflict its start
/// marker, its divider and its end marker, at the lines where they stand.
pub open spec fn file_markers(file: Seq<char>, segments: Seq<Segment>) -> Seq<MarkerView>
    decreases segments.len(),
{
    if segments.len() == 0 {
        Seq::empty()
    } else {
        match segments.last() {
            Segment::Plain(_) => file_markers(file, segments.drop_last()),
            Segment::Conflict(block) => file_markers(file, segments.drop_last()) + block_markers(
                file,
                block,
                file_lines(segments.drop_last()).len() + 1,
            ),
        }
    }
}

/// The conflicts of a file made of `segments`: each from the line of its
/// start marker to the line of its end marker.
pub open spec fn file_ranges(file: Seq<char>, segments: Seq<Segment>) -> Seq<RangeView>
    decreases segments.len(),
{
    if segments.len() == 0 {
        Seq::empty()
    } else {
        match segments.last() {
            Segment::Plain(_) => file_ranges(file, segments.drop_last()),
            Segment::Conflict(_) => file_ranges(file, segments.drop_last()).push(
                RangeView {
                    file,
                    start: file_lines(segments.drop_last()).len() + 1,
                    end: file_lines(segments).len(),
                },
            ),
        }
    }
}

/// The scanner is complete and exact on a file of well-formed conflicts:
/// it finds three markers for each conflict, the start marker, the divider
/// and the end marker, in file order and at their lines, and nothing else.
pub proof fn lemma_scan_finds_every_block(file: Seq<char>, segments: Seq<Segment>)
    requires
        segments_well_formed(segments),
    ensures
        scan_spec(file, file_lines(segments)) == file_markers(file, segments),
        file_markers(file, segments).len() == 3 * conflict_count(segments),
    decreases segments.len(),
{
    if segments.len() > 0 {
        let earlier = segments.drop_last();
        let last = segments.last();
        assert(segments_well_formed(earlier)) by {
            assert forall|i: int| 0 <= i < earlier.len() implies (#[trigger] earlier[i]).well_formed() by {
                assert(earlier[i] == segments[i]);
            }
        }
        assert(last == segments[segments.len() - 1]);
        assert(last.well_formed());
        lemma_scan_finds_every_block(file, earlier);
        lemma_scan_of_parts(file, file_lines(earlier), last.lines());
        let offset = file_lines(earlier).len();
        match last {
            Segment::Plain(lines) => {
                lemma_scan_of_marker_free(file, lines);
                assert(scan_spec(file, file_lines(segments)) =~= file_markers(file, segments));
            },
            Segment::Conflict(block) => {
                lemma_scan_of_block(file, block);
                assert(shifted(block_markers(file, block, 1), offset) =~= block_markers(
                    file,
                    block,
                    offset + 1,
                ));
            },
        }
    }
}

/// Scanning and indexing a file of well-formed conflicts yields one range
/// for each conflict, from its start marker to its end marker, in file order.
pub proof fn lemma_index_finds_every_block(file: Seq<char>, segments: Seq<Segment>)
    requires
        segments_well_formed(segments),
    ensures
        conflict_ranges(scan_spec(file, file_lines(segments))) == file_ranges(file, segments),
        file_ranges(file, segments).len() == conflict_count(segments),
        index_fold(file_markers(file, segments)).open is None,
    decreases segments.len(),
{
    lemma_scan_finds_every_block(file, segments);
    if segments.len() > 0 {
        let earlier = segments.drop_last();
        assert(segments_well_formed(earlier)) by {
            assert forall|i: int| 0 <= i < earlier.len() implies (#[trigger] earlier[i]).well_formed() by {
                assert(earlier[i] == segments[i]);
            }
        }
        lemma_index_finds_every_block(file, earlier);
        lemma_scan_finds_every_block(file, earlier);
        match segments.last() {
            Segment::Plain(_) => {},
            Segment::Conflict(block) => {
                let before = file_markers(file, earlier);
                let three = block_markers(file, block, file_lines(earlier).len() + 1);
                let first = before.push(three[0]);
                let second = first.push(three[1]);
                assert(before + three =~= second.push(three[2]));
                lemma_index_fold_push(before, three[0]);
                lemma_index_fold_push(first, three[1]);
                lemma_index_fold_push(second, three[2]);
                assert(file_lines(segments).len() == file_lines(earlier).len() + block.end_at()
                    + 1);
            },
        }
    }
}

/// The lines of a file are those of its first segments followed by those
/// of the others.
pub proof fn lemma_file_lines_of_parts(first: Seq<Segment>, second: Seq<Segment>)
    ensures
        file_lines(first + second) == file_lines(first) + file_lines(second),
    decreases second.len(),
{
    if second.len() == 0 {
        assert(first + second =~= first);
        assert(file_lines(first) + file_lines(second) =~= file_lines(first));
    } else {
        assert((first + second).drop_last() =~= first + second.drop_last());
        assert((first + second).last() == second.last());
        lemma_file_lines_of_parts(first, second.drop_last());
        assert(file_lines(first + second) =~= file_lines(first) + file_lines(second));
    }
}

/// The conflicts of a file are those of its first segments and those of
/// the others.
pub proof fn lemma_conflict_count_of_parts(first: Seq<Segment>, second: Seq<Segment>)
    ensures
        conflict_count(first + second) == conflict_count(first) + conflict_count(second),
    decreases second.len(),
{
    if second.len() == 0 {
        assert(first + second =~= first);
    } else {
        assert((first + second).drop_last() =~= first + second.drop_last());
        assert((first + second).last() == second.last());
        lemma_conflict_count_of_parts(first, second.drop_last());
    }
}

/// The lines and the conflicts of a single segment.
pub proof fn lemma_one_segment(segment: Segment)
    ensures
        file_lines(seq![segment]) == segment.lines(),
        conflict_count(seq![segment]) == (if segment is Conflict {
            1nat
        } else {
            0nat
        }),
{
    assert(seq![segment].drop_last() =~= Seq::<Segment>::empty());
    assert(seq![segment].last() == segment);
    assert(file_lines(Seq::<Segment>::empty()) =~= Seq::<Seq<char>>::empty());
    assert(conflict_count(Seq::<Segment>::empty()) == 0);
    assert(file_lines(seq![segment]) =~= segment.lines());
}

/// Resolving a well-formed conflict by accepting the incoming side, keeping
/// the current side or accepting both leaves no marker of it behind: the
/// file then reads as if plain lines stood in the place of the conflict, and
/// it has one conflict less.
pub proof fn lemma_resolving_removes_the_block(
    segments: Seq<Segment>,
    at: int,
    strategy: ResolutionStrategy,
)
    requires
        segments_well_formed(segments),
        0 <= at < segments.len(),
        segments[at] is Conflict,
        strategy != ResolutionStrategy::EditExternally,
    ensures
        ({
            let start = file_lines(segments.take(at)).len() as int + 1;
            let end = file_lines(segments.take(at + 1)).len() as int;
            let kept = strategy_result(strategy, segments[at].lines());
            let resolved = segments.update(at, Segment::Plain(kept));
            &&& 1 <= start <= end <= file_lines(segments).len()
            &&& rewrite_spec(file_lines(segments), start, end, strategy) == file_lines(resolved)
            &&& segments_well_formed(resolved)
            &&& conflict_count(resolved) + 1 == conflict_count(segments)
        }),
{
    let block = segments[at]->Conflict_0;
    let before = segments.take(at);
    let after = segments.skip(at + 1);
    let kept = strategy_result(strategy, block.lines());
    let plain = Segment::Plain(kept);
    let resolved = segments.update(at, plain);
    let lines = file_lines(segments);
    let start = file_lines(before).len() as int + 1;
    let end = file_lines(segments.take(at + 1)).len() as int;

    assert(segments[at].well_formed());
    lemma_strategies_on_block(block);
    assert(marker_free(kept)) by {
        assert forall|i: int| 0 <= i < kept.len() implies !is_marker_line(#[trigger] kept[i]) by {
            if strategy == ResolutionStrategy::AcceptBoth {
                if i < block.current.len() {
                    assert(kept[i] == block.current[i]);
                } else {
                    assert(kept[i] == block.incoming[i - block.current.len()]);
                }
            }
        }
    }
    assert(segments_well_formed(resolved)) by {
        assert forall|i: int| 0 <= i < resolved.len() implies (#[trigger] resolved[i]).well_formed() by {
            if i != at {
                assert(resolved[i] == segments[i]);
            }
        }
    }
    assert(segments =~= before + seq![segments[at]] + after);
    assert(resolved =~= before + seq![plain] + after);
    assert(segments.take(at + 1) =~= before + seq![segments[at]]);
    lemma_one_segment(segments[at]);
    lemma_one_segment(plain);
    lemma_file_lines_of_parts(before, seq![segments[at]]);
    lemma_file_lines_of_parts(before + seq![segments[at]], after);
    lemma_file_lines_of_parts(before, seq![plain]);
    lemma_file_lines_of_parts(before + seq![plain], after);
    lemma_conflict_count_of_parts(before, seq![segments[at]]);
    lemma_conflict_count_of_parts(before + seq![segments[at]], after);
    lemma_conflict_count_of_parts(before, seq![plain]);
    lemma_conflict_count_of_parts(before + seq![plain], after);
    assert(lines.subrange(0, start - 1) =~= file_lines(before));
    assert(lines.subrange(start - 1, end) =~= block.lines());
    assert(lines.subrange(end, lines.len() as int) =~= file_lines(after));
    assert(rewrite_spec(lines, start, end, strategy) =~= file_lines(resolved));
}

} // verus!
