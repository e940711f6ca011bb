//! Conflict marker lines: what they look like and where they stand in a file.

use vstd::prelude::*;
use crate::text::{has_prefix, line_views, lines_of, split_lines};

verus! {

/// The role of a conflict marker line.
#[derive(Clone, Copy, Debug, PartialEq, Eq, Structural)]
pub enum MarkerKind {
    /// `<<<<<<<`, opening the current side.
    Start,
    /// `=======`, between the current and the incoming side.
    Divider,
    /// `>>>>>>>`, closing the incoming side.
    End,
}

/// One marker line found in a file.
#[derive(Clone, Debug, PartialEq, Eq)]
pub struct Marker {
    pub file: String,
    /// 1-based line number within `file`.
    pub line: usize,
    pub kind: MarkerKind,
}

/// The mathematical value of a [`Marker`].
pub struct MarkerView {
    pub file: Seq<char>,
    pub line: nat,
    pub kind: MarkerKind,
}

impl View for Marker {
    type V = MarkerView;

    open spec fn view(&self) -> MarkerView {
        MarkerView { file: self.file@, line: self.line as nat, kind: self.kind }
    }
}

/// The views of a list of markers.
pub open spec fn marker_views(markers: Seq<Marker>) -> Seq<MarkerView> {
    Seq::new(markers.len(), |i: int| markers[i]@)
}

/// A line that opens a conflict: it begins with seven `<`.
pub open spec fn is_start_line(line: Seq<char>) -> bool {
    "<<<<<<<"@.is_prefix_of(line)
}

/// A line that divides a conflict: it is exactly seven `=`.
pub open spec fn is_divider_line(line: Seq<char>) -> bool {
    line == "======="@
}

/// A line that closes a conflict: it begins with seven `>`.
pub open spec fn is_end_line(line: Seq<char>) -> bool {
    ">>>>>>>"@.is_prefix_of(line)
}

/// The role of `line` as a conflict marker, if it is one.
pub open spec fn marker_kind(line: Seq<char>) -> Option<MarkerKind> {
    if is_start_line(line) {
        Some(MarkerKind::Start)
    } else if is_divider_line(line) {
        Some(MarkerKind::Divider)
    } else if is_end_line(line) {
        Some(MarkerKind::End)
    } else {
        None
    }
}

/// Whether `line` is any of the three marker lines.
pub open spec fn is_marker_line(line: Seq<char>) -> bool {
    marker_kind(line) is Some
}

/// Classifies one line of text.
pub fn classify_line(line: &str) -> (kind: Option<MarkerKind>)
    ensures
        kind == marker_kind(line@),
{
    if has_prefix(line, "<<<<<<<") {
        Some(MarkerKind::Start)
    } else if has_prefix(line, "=======") && line.unicode_len() == 7 {
        proof {
            reveal_strlit("=======");
            assert(line@ =~= line@.subrange(0, 7));
        }
        Some(MarkerKind::Divider)
    } else {
        proof {
            reveal_strlit("=======");
            if line@ == "======="@ {
                assert("======="@.subrange(0, 7) =~= "======="@);
            }
        }
        if has_prefix(line, ">>>>>>>") {
            Some(MarkerKind::End)
        } else {
            None
        }
    }
}

/// The markers among `lines`, the lines of `file`, in file order and with
/// 1-based line numbers.
pub open spec fn scan_spec(file: Seq<char>, lines: Seq<Seq<char>>) -> Seq<MarkerView>
    decreases lines.len(),
{
    if lines.len() == 0 {
        Seq::empty()
    } else {
        let earlier = scan_spec(file, lines.drop_last());
        match marker_kind(lines.last()) {
            Some(kind) => earlier.push(MarkerView { file, line: lines.len(), kind }),
            None => earlier,
        }
    }
}

/// Scans the lines of one file for conflict markers. The lines are left as
/// they are.
pub fn scan_lines(file: &str, lines: &Vec<String>) -> (markers: Vec<Marker>)
    ensures
        marker_views(markers@) == scan_spec(file@, line_views(lines@)),
{
    let mut markers: Vec<Marker> = Vec::new();
    let mut i: usize = 0;
    while i < lines.len()
        invariant
            i <= lines.len(),
            marker_views(markers@) == scan_spec(file@, line_views(lines@).take(i as int)),
        decreases lines.len() - i,
    {
        let found = classify_line(lines[i].as_str());
        proof {
            let all = line_views(lines@);
            assert(all.take(i + 1).drop_last() =~= all.take(i as int));
            assert(all.take(i + 1).last() == lines[i as int]@);
        }
        if let Some(kind) = found {
            let ghost before = markers@;
            markers.push(Marker { file: file.to_owned(), line: i + 1, kind });
            assert(marker_views(markers@) =~= marker_views(before).push(markers@.last()@));
        }
        i = i + 1;
    }
    assert(line_views(lines@).take(i as int) =~= line_views(lines@));
    markers
}

/// Scans the text of one file for conflict markers.
pub fn scan_text(file: &str, content: &str) -> (markers: Vec<Marker>)
    ensures
        marker_views(markers@) == scan_spec(file@, lines_of(content@)),
{
    let lines = split_lines(content);
    scan_lines(file, &lines)
}

/// The scanner reports exactly the marker lines, in file order: every
/// marker it yields names `file`, a line of the file and the role of that
/// line; later markers stand at higher lines; and every marker line is
/// yielded.
pub proof fn lemma_scan_is_exact(file: Seq<char>, lines: Seq<Seq<char>>)
    ensures
        forall|k: int|
            0 <= k < scan_spec(file, lines).len() ==> {
                let marker = #[trigger] scan_spec(file, lines)[k];
                &&& marker.file == file
                &&& 1 <= marker.line <= lines.len()
                &&& marker_kind(lines[marker.line - 1]) == Some(marker.kind)
            },
        forall|i: int, j: int|
            0 <= i < j < scan_spec(file, lines).len() ==> (#[trigger] scan_spec(file, lines)[i]).line
                < (#[trigger] scan_spec(file, lines)[j]).line,
        forall|i: int|
            0 <= i < lines.len() && is_marker_line(#[trigger] lines[i]) ==> exists|k: int|
                0 <= k < scan_spec(file, lines).len() && (#[trigger] scan_spec(file, lines)[k]).line
                    == i + 1,
    decreases lines.len(),
{
    if lines.len() > 0 {
        let earlier = lines.drop_last();
        let found = scan_spec(file, earlier);
        let all = scan_spec(file, lines);
        lemma_scan_is_exact(file, earlier);
        assert forall|k: int| 0 <= k < all.len() implies {
            let marker = #[trigger] all[k];
            &&& marker.file == file
            &&& 1 <= marker.line <= lines.len()
            &&& marker_kind(lines[marker.line - 1]) == Some(marker.kind)
        } by {
            if k < found.len() {
                assert(all[k] == found[k]);
                assert(lines[found[k].line - 1] == earlier[found[k].line - 1]);
            }
        }
        assert forall|i: int, j: int| 0 <= i < j < all.len() implies (#[trigger] all[i]).line < (
        #[trigger] all[j]).line by {
            assert(all[i] == found[i]);
            if j < found.len() {
                assert(all[j] == found[j]);
            }
        }
        assert forall|i: int| 0 <= i < lines.len() && is_marker_line(#[trigger] lines[i]) implies exists|
            k: int,
        |
            0 <= k < all.len() && (#[trigger] all[k]).line == i + 1 by {
            if i < earlier.len() {
                assert(earlier[i] == lines[i]);
                let k = choose|k: int| 0 <= k < found.len() && (#[trigger] found[k]).line == i + 1;
                assert(all[k] == found[k]);
            } else {
                assert(all[all.len() - 1].line == i + 1);
            }
        }
    }
}

} // verus!
