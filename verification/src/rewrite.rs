//! Rewriting the lines of one conflict according to a resolution strategy.

use vstd::prelude::*;
use crate::marker::{classify_line, is_marker_line, is_start_line, marker_kind, MarkerKind};
use crate::index::ConflictRange;
use crate::text::{join, join_lines, line_views, lines_of, split_lines};

verus! {

/// How the operator resolves one conflict.
#[derive(Clone, Copy, Debug, PartialEq, Eq, Structural)]
pub enum ResolutionStrategy {
    /// Keep the lines between the divider and the end marker.
    AcceptIncoming,
    /// Keep the lines between the start marker and the divider.
    KeepCurrent,
    /// Keep both sides, current first, without the marker lines.
    AcceptBoth,
    /// Leave the lines as they are, for an editor outside this library.
    EditExternally,
}

/// The strategy at position `choice` of the operator's menu, counted from 0.
pub open spec fn strategy_of_choice(choice: usize) -> Option<ResolutionStrategy> {
    if choice == 0 {
        Some(ResolutionStrategy::AcceptIncoming)
    } else if choice == 1 {
        Some(ResolutionStrategy::KeepCurrent)
    } else if choice == 2 {
        Some(ResolutionStrategy::AcceptBoth)
    } else if choice == 3 {
        Some(ResolutionStrategy::EditExternally)
    } else {
        None
    }
}

/// The name of `strategy` in the operator's menu.
pub open spec fn label_of(strategy: ResolutionStrategy) -> Seq<char> {
    match strategy {
        ResolutionStrategy::AcceptIncoming => "Accept Incoming"@,
        ResolutionStrategy::KeepCurrent => "Keep Current"@,
        ResolutionStrategy::AcceptBoth => "Accept Both"@,
        ResolutionStrategy::EditExternally => "Open in Editor"@,
    }
}

/// What the operator is told after `strategy` rewrote `file`; nothing after
/// an external edit, which rewrites nothing.
pub open spec fn confirmation_of(strategy: ResolutionStrategy, file: Seq<char>) -> Option<
    Seq<char>,
> {
    match strategy {
        ResolutionStrategy::AcceptIncoming => Some("Accepted incoming changes for "@ + file),
        ResolutionStrategy::KeepCurrent => Some("Kept current changes for "@ + file),
        ResolutionStrategy::AcceptBoth => Some("Merged both changes for "@ + file),
        ResolutionStrategy::EditExternally => None,
    }
}

impl ResolutionStrategy {
    /// The strategy that the operator picked from the menu.
    pub fn from_choice(choice: usize) -> (strategy: Option<ResolutionStrategy>)
        ensures
            strategy == strategy_of_choice(choice),
    {
        if choice == 0 {
            Some(ResolutionStrategy::AcceptIncoming)
        } else if choice == 1 {
            Some(ResolutionStrategy::KeepCurrent)
        } else if choice == 2 {
            Some(ResolutionStrategy::AcceptBoth)
        } else if choice == 3 {
            Some(ResolutionStrategy::EditExternally)
        } else {
            None
        }
    }

    /// The name of the strategy in the operator's menu.
    pub fn label(self) -> (text: &'static str)
        ensures
            text@ == label_of(self),
    {
        match self {
            ResolutionStrategy::AcceptIncoming => "Accept Incoming",
            ResolutionStrategy::KeepCurrent => "Keep Current",
            ResolutionStrategy::AcceptBoth => "Accept Both",
            ResolutionStrategy::EditExternally => "Open in Editor",
        }
    }

    /// Whether the strategy rewrites the file itself.
    pub fn rewrites(self) -> (rewrites: bool)
        ensures
            rewrites == (self != ResolutionStrategy::EditExternally),
    {
        match self {
            ResolutionStrategy::EditExternally => false,
            _ => true,
        }
    }

    /// What to tell the operator after the strategy rewrote `file`.
    pub fn confirmation(self, file: &str) -> (message: Option<String>)
        ensures
            match message {
                Some(text) => confirmation_of(self, file@) == Some(text@),
                None => confirmation_of(self, file@) is None,
            },
    {
        let opening = match self {
            ResolutionStrategy::AcceptIncoming => "Accepted incoming changes for ",
            ResolutionStrategy::KeepCurrent => "Kept current changes for ",
            ResolutionStrategy::AcceptBoth => "Merged both changes for ",
            ResolutionStrategy::EditExternally => {
                return None;
            },
        };
        let mut text = opening.to_owned();
        text.append(file);
        Some(text)
    }
}

/// The index of the first line at or after `from` that is a marker of
/// `kind`, or the number of lines where there is none.
pub open spec fn first_marker(lines: Seq<Seq<char>>, from: int, kind: MarkerKind) -> int
    decreases lines.len() - from,
{
    if from < 0 || from >= lines.len() {
        lines.len() as int
    } else if marker_kind(lines[from]) == Some(kind) {
        from
    } else {
        first_marker(lines, from + 1, kind)
    }
}

/// The incoming side of a conflict: the lines after the first divider, up
/// to the first end marker that follows it. Without a divider there is none.
pub open spec fn incoming_side(body: Seq<Seq<char>>) -> Seq<Seq<char>> {
    let divider = first_marker(body, 0, MarkerKind::Divider);
    if divider >= body.len() {
        Seq::empty()
    } else {
        body.subrange(divider + 1, first_marker(body, divider + 1, MarkerKind::End))
    }
}

/// Where the current side begins: after the start marker that opens `body`.
pub open spec fn current_from(body: Seq<Seq<char>>) -> int {
    if body.len() > 0 && is_start_line(body[0]) {
        1
    } else {
        0
    }
}

/// Where the current side stops: at the first divider or end marker.
pub open spec fn current_to(body: Seq<Seq<char>>) -> int {
    let divider = first_marker(body, current_from(body), MarkerKind::Divider);
    let end = first_marker(body, current_from(body), MarkerKind::End);
    if divider <= end {
        divider
    } else {
        end
    }
}

/// The current side of a conflict: the lines after the start marker, up to
/// the first divider or end marker.
pub open spec fn current_side(body: Seq<Seq<char>>) -> Seq<Seq<char>> {
    body.subrange(current_from(body), current_to(body))
}

/// The lines of `lines` that are no markers, in their order.
pub open spec fn without_markers(lines: Seq<Seq<char>>) -> Seq<Seq<char>>
    decreases lines.len(),
{
    if lines.len() == 0 {
        Seq::empty()
    } else if is_marker_line(lines.last()) {
        without_markers(lines.drop_last())
    } else {
        without_markers(lines.drop_last()).push(lines.last())
    }
}

/// What `strategy` makes of the lines of one conflict.
pub open spec fn strategy_result(strategy: ResolutionStrategy, body: Seq<Seq<char>>) -> Seq<
    Seq<char>,
> {
    match strategy {
        ResolutionStrategy::AcceptIncoming => incoming_side(body),
        ResolutionStrategy::KeepCurrent => current_side(body),
        ResolutionStrategy::AcceptBoth => without_markers(body),
        ResolutionStrategy::EditExternally => body,
    }
}

/// `first_marker` lies between `from` and the number of lines.
pub proof fn lemma_first_marker_bounds(lines: Seq<Seq<char>>, from: int, kind: MarkerKind)
    requires
        0 <= from <= lines.len(),
    ensures
        from <= first_marker(lines, from, kind) <= lines.len(),
    decreases lines.len() - from,
{
    if from < lines.len() && marker_kind(lines[from]) != Some(kind) {
        lemma_first_marker_bounds(lines, from + 1, kind);
    }
}

/// Finds the first marker of `kind` at or after `from`.
pub fn find_marker(lines: &Vec<String>, from: usize, kind: MarkerKind) -> (at: usize)
    requires
        from <= lines.len(),
    ensures
        at == first_marker(line_views(lines@), from as int, kind),
        from <= at <= lines.len(),
{
    let mut i: usize = from;
    while i < lines.len()
        invariant
            from <= i <= lines.len(),
            first_marker(line_views(lines@), from as int, kind) == first_marker(
                line_views(lines@),
                i as int,
                kind,
            ),
        decreases lines.len() - i,
    {
        let found = classify_line(lines[i].as_str());
        if found == Some(kind) {
            return i;
        }
        i = i + 1;
    }
    i
}

/// Appends copies of `src[from..to]` to `dst`.
pub fn append_lines(dst: &mut Vec<String>, src: &Vec<String>, from: usize, to: usize)
    requires
        from <= to <= src.len(),
    ensures
        line_views(final(dst)@) == line_views(old(dst)@) + line_views(src@).subrange(
            from as int,
            to as int,
        ),
{
    let mut i: usize = from;
    while i < to
        invariant
            from <= i <= to <= src.len(),
            line_views(dst@) =~= line_views(old(dst)@) + line_views(src@).subrange(
                from as int,
                i as int,
            ),
        decreases to - i,
    {
        let ghost earlier = dst@;
        dst.push(src[i].clone());
        proof {
            let all = line_views(src@);
            assert(line_views(dst@) =~= line_views(earlier).push(all[i as int]));
            assert(all.subrange(from as int, i + 1) =~= all.subrange(from as int, i as int).push(
                all[i as int],
            ));
        }
        i = i + 1;
    }
}

/// Copies the lines of `lines` that are no markers.
pub fn drop_markers(lines: &Vec<String>) -> (kept: Vec<String>)
    ensures
        line_views(kept@) == without_markers(line_views(lines@)),
{
    let mut kept: Vec<String> = Vec::new();
    let mut i: usize = 0;
    while i < lines.len()
        invariant
            i <= lines.len(),
            line_views(kept@) =~= without_markers(line_views(lines@).take(i as int)),
        decreases lines.len() - i,
    {
        let found = classify_line(lines[i].as_str());
        proof {
            let all = line_views(lines@);
            assert(all.take(i + 1).drop_last() =~= all.take(i as int));
            assert(all.take(i + 1).last() == all[i as int]);
        }
        if found.is_none() {
            let ghost earlier = kept@;
            kept.push(lines[i].clone());
            assert(line_views(kept@) =~= line_views(earlier).push(lines[i as int]@));
        }
        i = i + 1;
    }
    assert(line_views(lines@).take(i as int) =~= line_views(lines@));
    kept
}

/// Rewrites the lines of one conflict as `strategy` says.
pub fn apply_strategy(strategy: ResolutionStrategy, body: &Vec<String>) -> (kept: Vec<String>)
    ensures
        line_views(kept@) == strategy_result(strategy, line_views(body@)),
{
    let mut kept: Vec<String> = Vec::new();
    assert(line_views(kept@) =~= Seq::<Seq<char>>::empty());
    match strategy {
        ResolutionStrategy::AcceptIncoming => {
            let divider = find_marker(body, 0, MarkerKind::Divider);
            if divider < body.len() {
                let end = find_marker(body, divider + 1, MarkerKind::End);
                append_lines(&mut kept, body, divider + 1, end);
            }
        },
        ResolutionStrategy::KeepCurrent => {
            let from: usize = if body.len() > 0 && classify_line(body[0].as_str()) == Some(
                MarkerKind::Start,
            ) {
                1
            } else {
                0
            };
            let divider = find_marker(body, from, MarkerKind::Divider);
            let end = find_marker(body, from, MarkerKind::End);
            let to: usize = if divider <= end {
                divider
            } else {
                end
            };
            append_lines(&mut kept, body, from, to);
        },
        ResolutionStrategy::AcceptBoth => {
            kept = drop_markers(body);
        },
        ResolutionStrategy::EditExternally => {
            append_lines(&mut kept, body, 0, body.len());
            assert(line_views(body@).subrange(0, body.len() as int) =~= line_views(body@));
        },
    }
    kept
}

/// Whether lines `start..=end`, numbered from 1, lie in a file of `total`
/// lines.
pub open spec fn range_fits(total: nat, start: nat, end: nat) -> bool {
    1 <= start <= end <= total
}

/// The lines of a file after the conflict at lines `start..=end` was
/// resolved by `strategy`: the lines before it, what the strategy keeps of
/// it, and the lines after it.
pub open spec fn rewrite_spec(
    lines: Seq<Seq<char>>,
    start: int,
    end: int,
    strategy: ResolutionStrategy,
) -> Seq<Seq<char>> {
    lines.subrange(0, start - 1) + strategy_result(strategy, lines.subrange(start - 1, end))
        + lines.subrange(end, lines.len() as int)
}

/// Resolves the conflict at lines `start..=end` of `lines` by `strategy`.
pub fn rewrite_lines(
    lines: &Vec<String>,
    start: usize,
    end: usize,
    strategy: ResolutionStrategy,
) -> (rewritten: Vec<String>)
    requires
        range_fits(lines@.len(), start as nat, end as nat),
    ensures
        line_views(rewritten@) == rewrite_spec(
            line_views(lines@),
            start as int,
            end as int,
            strategy,
        ),
{
    let mut body: Vec<String> = Vec::new();
    assert(line_views(body@) =~= Seq::<Seq<char>>::empty());
    append_lines(&mut body, lines, start - 1, end);
    assert(line_views(body@) =~= line_views(lines@).subrange(start - 1, end as int));
    let kept = apply_strategy(strategy, &body);
    let mut rewritten: Vec<String> = Vec::new();
    assert(line_views(rewritten@) =~= Seq::<Seq<char>>::empty());
    append_lines(&mut rewritten, lines, 0, start - 1);
    append_lines(&mut rewritten, &kept, 0, kept.len());
    assert(line_views(kept@).subrange(0, kept.len() as int) =~= line_views(kept@));
    append_lines(&mut rewritten, lines, end, lines.len());
    assert(line_views(rewritten@) =~= rewrite_spec(
        line_views(lines@),
        start as int,
        end as int,
        strategy,
    ));
    rewritten
}

/// A strategy only removes lines: what it keeps of a conflict is no longer
/// than the conflict.
pub proof fn lemma_strategy_never_lengthens(strategy: ResolutionStrategy, body: Seq<Seq<char>>)
    ensures
        strategy_result(strategy, body).len() <= body.len(),
{
    match strategy {
        ResolutionStrategy::AcceptIncoming => {
            let divider = first_marker(body, 0, MarkerKind::Divider);
            lemma_first_marker_bounds(body, 0, MarkerKind::Divider);
            if divider < body.len() {
                lemma_first_marker_bounds(body, divider + 1, MarkerKind::End);
            }
        },
        ResolutionStrategy::KeepCurrent => {
            lemma_first_marker_bounds(body, current_from(body), MarkerKind::Divider);
            lemma_first_marker_bounds(body, current_from(body), MarkerKind::End);
        },
        ResolutionStrategy::AcceptBoth => {
            lemma_without_markers_is_shorter(body);
        },
        ResolutionStrategy::EditExternally => {},
    }
}

/// Leaving the markers out makes a list of lines no longer.
pub proof fn lemma_without_markers_is_shorter(lines: Seq<Seq<char>>)
    ensures
        without_markers(lines).len() <= lines.len(),
    decreases lines.len(),
{
    if lines.len() > 0 {
        lemma_without_markers_is_shorter(lines.drop_last());
    }
}

/// A rewrite leaves every line outside the range as it is and in its place:
/// the lines before the range open the result, the lines after it close the
/// result, and the result is shorter by what the strategy removed.
pub proof fn lemma_rewrite_keeps_surroundings(
    lines: Seq<Seq<char>>,
    start: int,
    end: int,
    strategy: ResolutionStrategy,
)
    requires
        1 <= start <= end <= lines.len(),
    ensures
        ({
            let kept = strategy_result(strategy, lines.subrange(start - 1, end));
            let rewritten = rewrite_spec(lines, start, end, strategy);
            &&& rewritten.len() == (start - 1) + kept.len() + (lines.len() - end)
            &&& rewritten.len() <= lines.len()
            &&& rewritten.take(start - 1) == lines.take(start - 1)
            &&& rewritten.subrange(start - 1, start - 1 + kept.len()) == kept
            &&& rewritten.skip(start - 1 + kept.len()) == lines.skip(end)
        }),
{
    let kept = strategy_result(strategy, lines.subrange(start - 1, end));
    let rewritten = rewrite_spec(lines, start, end, strategy);
    lemma_strategy_never_lengthens(strategy, lines.subrange(start - 1, end));
    assert(rewritten.take(start - 1) =~= lines.take(start - 1));
    assert(rewritten.subrange(start - 1, start - 1 + kept.len()) =~= kept);
    assert(rewritten.skip(start - 1 + kept.len()) =~= lines.skip(end));
}

/// What resolving one conflict comes to.
#[derive(Clone, Debug, PartialEq, Eq)]
pub enum Resolution {
    /// The new text of the whole file.
    Rewritten(String),
    /// Nothing was rewritten: the operator edits the file by hand.
    LeftToEditor,
}

/// Why a conflict could not be resolved.
#[derive(Clone, Copy, Debug, PartialEq, Eq, Structural)]
pub enum ResolveError {
    /// The range does not lie within the lines of the file.
    RangeOutsideFile,
}

/// The mathematical value of a [`Resolution`].
pub enum ResolutionView {
    Rewritten(Seq<char>),
    LeftToEditor,
}

impl View for Resolution {
    type V = ResolutionView;

    open spec fn view(&self) -> ResolutionView {
        match self {
            Resolution::Rewritten(text) => ResolutionView::Rewritten(text@),
            Resolution::LeftToEditor => ResolutionView::LeftToEditor,
        }
    }
}

/// What resolving lines `start..=end` of the text `content` by `strategy`
/// comes to. An external edit computes nothing. Any other strategy needs the
/// range to lie within the lines of the text; it then replaces the lines of
/// the range by what it keeps of them and joins the lines again.
pub open spec fn resolve_spec(
    content: Seq<char>,
    start: nat,
    end: nat,
    strategy: ResolutionStrategy,
) -> Result<ResolutionView, ResolveError> {
    if strategy == ResolutionStrategy::EditExternally {
        Ok(ResolutionView::LeftToEditor)
    } else if range_fits(lines_of(content).len(), start, end) {
        Ok(
            ResolutionView::Rewritten(
                join_lines(rewrite_spec(lines_of(content), start as int, end as int, strategy)),
            ),
        )
    } else {
        Err(ResolveError::RangeOutsideFile)
    }
}

/// Resolves the conflict `range` in a file whose text is `content`. Every
/// line outside the range is kept as it is.
pub fn resolve_content(content: &str, range: &ConflictRange, strategy: ResolutionStrategy) -> (done:
    Result<Resolution, ResolveError>)
    ensures
        match done {
            Ok(resolution) => resolve_spec(content@, range@.start, range@.end, strategy) == Ok::<
                ResolutionView,
                ResolveError,
            >(resolution@),
            Err(error) => resolve_spec(content@, range@.start, range@.end, strategy) == Err::<
                ResolutionView,
                ResolveError,
            >(error),
        },
{
    if strategy == ResolutionStrategy::EditExternally {
        return Ok(Resolution::LeftToEditor);
    }
    let lines = split_lines(content);
    if range.start < 1 || range.start > range.end || range.end > lines.len() {
        return Err(ResolveError::RangeOutsideFile);
    }
    let rewritten = rewrite_lines(&lines, range.start, range.end, strategy);
    Ok(Resolution::Rewritten(join(&rewritten)))
}

} // verus!
