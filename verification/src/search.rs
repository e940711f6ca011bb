//! Reading the report of a recursive text search for marker lines. Each
//! line of the report has the form `path:line_number:matched_text`.

use vstd::prelude::*;
use crate::marker::{classify_line, marker_kind, marker_views, Marker, MarkerKind, MarkerView};
use crate::text::{line_views, lines_of, split_lines};

verus! {

/// The pattern of one line of the report: the path, as short as it can be,
/// the line number, and the matched text, each in a group of its own.
pub const REPORT_LINE: &'static str = "^(.*?):(\\d+):(.*)$";

/// What the regular expression `pattern` captures in `haystack`: nothing
/// where the pattern cannot be compiled or matches nowhere, else the leftmost
/// match and, after it, each group of the pattern in the order of its opening
/// bracket, as the text it matched if it took part in the match.
pub uninterp spec fn captured_groups(pattern: Seq<char>, haystack: Seq<char>) -> Option<
    Seq<Option<Seq<char>>>,
>;

/// The character sequences of the groups of a match.
pub open spec fn group_views(groups: Option<Vec<Option<String>>>) -> Option<
    Seq<Option<Seq<char>>>,
> {
    match groups {
        Some(found) => Some(
            Seq::new(
                found@.len(),
                |i: int|
                    match found@[i] {
                        Some(text) => Some(text@),
                        None => None,
                    },
            ),
        ),
        None => None,
    }
}

/// Compiles `pattern` with `regex::Regex::new` and matches it against
/// `haystack` with `Regex::captures`. Not proved: the contract only gives
/// the outcome a name, which says that it depends on the two texts alone.
#[verifier::external_body]
fn regex_captures(pattern: &str, haystack: &str) -> (groups: Option<Vec<Option<String>>>)
    ensures
        group_views(groups) == captured_groups(pattern@, haystack@),
{
    let compiled = regex::Regex::new(pattern).ok()?;
    let found = compiled.captures(haystack)?;
    Some(found.iter().map(|group| group.map(|text| text.as_str().to_string())).collect())
}

/// Whether `c` is one of the digits `0` to `9`.
pub open spec fn is_digit(c: char) -> bool {
    '0' <= c <= '9'
}

/// The number that the digit `c` stands for.
pub open spec fn digit_value(c: char) -> nat {
    (c as u32 - '0' as u32) as nat
}

/// Whether `digits` is a decimal numeral: one digit or more, and nothing
/// else.
pub open spec fn is_decimal(digits: Seq<char>) -> bool {
    digits.len() > 0 && forall|i: int| 0 <= i < digits.len() ==> is_digit(#[trigger] digits[i])
}

/// The number that the decimal numeral `digits` stands for.
pub open spec fn decimal_value(digits: Seq<char>) -> nat
    decreases digits.len(),
{
    if digits.len() == 0 {
        0
    } else {
        10 * decimal_value(digits.drop_last()) + digit_value(digits.last())
    }
}

/// The number that `digits` stands for, where it is a decimal numeral and
/// the number fits the machine.
pub open spec fn parse_decimal_spec(digits: Seq<char>) -> Option<usize> {
    if is_decimal(digits) && decimal_value(digits) <= usize::MAX {
        Some(decimal_value(digits) as usize)
    } else {
        None
    }
}

/// A numeral is worth at least as much as each of its beginnings.
pub proof fn lemma_decimal_value_grows(digits: Seq<char>, n: int)
    requires
        0 <= n <= digits.len(),
    ensures
        decimal_value(digits.take(n)) <= decimal_value(digits),
    decreases digits.len(),
{
    if n < digits.len() {
        assert(digits.drop_last().take(n) =~= digits.take(n));
        lemma_decimal_value_grows(digits.drop_last(), n);
    } else {
        assert(digits.take(n) =~= digits);
    }
}

/// Reads a decimal numeral.
pub fn parse_decimal(digits: &str) -> (value: Option<usize>)
    ensures
        value == parse_decimal_spec(digits@),
{
    let n: usize = digits.unicode_len();
    if n == 0 {
        return None;
    }
    let mut value: usize = 0;
    let mut i: usize = 0;
    while i < n
        invariant
            i <= n,
            n == digits@.len(),
            value == decimal_value(digits@.take(i as int)),
            forall|j: int| 0 <= j < i ==> is_digit(#[trigger] digits@[j]),
        decreases n - i,
    {
        let c = digits.get_char(i);
        if c < '0' || c > '9' {
            return None;
        }
        let digit: usize = (c as u32 - '0' as u32) as usize;
        proof {
            assert(digits@.take(i + 1).drop_last() =~= digits@.take(i as int));
            assert(digits@.take(i + 1).last() == c);
            lemma_decimal_value_grows(digits@, i + 1);
        }
        let next = match value.checked_mul(10) {
            Some(tens) => tens.checked_add(digit),
            None => None,
        };
        match next {
            Some(sum) => {
                value = sum;
            },
            None => {
                return None;
            },
        }
        i = i + 1;
    }
    assert(digits@.take(i as int) =~= digits@);
    Some(value)
}

/// The view of a marker that may be missing.
pub open spec fn found_view(found: Option<Marker>) -> Option<MarkerView> {
    match found {
        Some(marker) => Some(marker@),
        None => None,
    }
}

/// The marker that the three fields of a report line name: the number is a
/// decimal numeral of a line, counted from 1, and the text is a marker line.
pub open spec fn marker_of_fields(path: Seq<char>, number: Seq<char>, text: Seq<char>) -> Option<
    MarkerView,
> {
    match (parse_decimal_spec(number), marker_kind(text)) {
        (Some(line), Some(kind)) if line >= 1 => Some(
            MarkerView { file: path, line: line as nat, kind },
        ),
        _ => None,
    }
}

/// Builds the marker that the three fields of a report line name.
pub fn marker_from_fields(path: &str, number: &str, text: &str) -> (found: Option<Marker>)
    ensures
        found_view(found) == marker_of_fields(path@, number@, text@),
{
    let line = match parse_decimal(number) {
        Some(line) => line,
        None => {
            return None;
        },
    };
    if line < 1 {
        return None;
    }
    match classify_line(text) {
        Some(kind) => Some(Marker { file: path.to_owned(), line, kind }),
        None => None,
    }
}

/// The marker that the groups captured in a report line name: there are the
/// whole match and three groups, and all of them took part.
pub open spec fn marker_of_groups(groups: Option<Seq<Option<Seq<char>>>>) -> Option<MarkerView> {
    match groups {
        Some(found) if found.len() == 4 => match (found[1], found[2], found[3]) {
            (Some(path), Some(number), Some(text)) => marker_of_fields(path, number, text),
            _ => None,
        },
        _ => None,
    }
}

/// Builds the marker that the groups captured in a report line name.
pub fn marker_from_groups(groups: &Option<Vec<Option<String>>>) -> (found: Option<Marker>)
    ensures
        found_view(found) == marker_of_groups(group_views(*groups)),
{
    match groups {
        Some(fields) => {
            if fields.len() != 4 {
                return None;
            }
            match (&fields[1], &fields[2], &fields[3]) {
                (Some(path), Some(number), Some(text)) => marker_from_fields(
                    path.as_str(),
                    number.as_str(),
                    text.as_str(),
                ),
                _ => None,
            }
        },
        None => None,
    }
}

/// The marker that one line of the report names, if it names one.
pub open spec fn marker_of_report_line(line: Seq<char>) -> Option<MarkerView> {
    marker_of_groups(captured_groups(REPORT_LINE@, line))
}

/// Reads one line of the report.
pub fn parse_search_line(line: &str) -> (found: Option<Marker>)
    ensures
        found_view(found) == marker_of_report_line(line@),
{
    let groups = regex_captures(REPORT_LINE, line);
    marker_from_groups(&groups)
}

/// The markers that the lines of a report name, in the order of the lines.
/// A line that names none is passed over.
pub open spec fn markers_of_report(lines: Seq<Seq<char>>) -> Seq<MarkerView>
    decreases lines.len(),
{
    if lines.len() == 0 {
        Seq::empty()
    } else {
        match marker_of_report_line(lines.last()) {
            Some(marker) => markers_of_report(lines.drop_last()).push(marker),
            None => markers_of_report(lines.drop_last()),
        }
    }
}

/// Reads the whole report of a search.
pub fn parse_search_output(output: &str) -> (markers: Vec<Marker>)
    ensures
        marker_views(markers@) == markers_of_report(lines_of(output@)),
{
    let lines = split_lines(output);
    let mut markers: Vec<Marker> = Vec::new();
    let mut i: usize = 0;
    while i < lines.len()
        invariant
            i <= lines.len(),
            marker_views(markers@) =~= markers_of_report(line_views(lines@).take(i as int)),
        decreases lines.len() - i,
    {
        let found = parse_search_line(lines[i].as_str());
        proof {
            let all = line_views(lines@);
            assert(all.take(i + 1).drop_last() =~= all.take(i as int));
            assert(all.take(i + 1).last() == all[i as int]);
        }
        if let Some(marker) = found {
            let ghost earlier = markers@;
            markers.push(marker);
            assert(marker_views(markers@) =~= marker_views(earlier).push(marker@));
        }
        i = i + 1;
    }
    assert(line_views(lines@).take(i as int) =~= line_views(lines@));
    markers
}

} // verus!
