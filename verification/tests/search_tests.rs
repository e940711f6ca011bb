use patch_conflicts::marker::{Marker, MarkerKind};
use patch_conflicts::search::{
    marker_from_fields, marker_from_groups, parse_decimal, parse_search_line,
    parse_search_output,
};

fn marker(file: &str, line: usize, kind: MarkerKind) -> Marker {
    Marker { file: file.to_string(), line, kind }
}

fn groups(items: &[Option<&str>]) -> Option<Vec<Option<String>>> {
    Some(items.iter().map(|g| g.map(|s| s.to_string())).collect())
}

#[test]
fn decimal_numerals_are_read() {
    assert_eq!(parse_decimal("0"), Some(0));
    assert_eq!(parse_decimal("7"), Some(7));
    assert_eq!(parse_decimal("007"), Some(7));
    assert_eq!(parse_decimal("1234567890"), Some(1234567890));
    assert_eq!(parse_decimal(&usize::MAX.to_string()), Some(usize::MAX));
}

#[test]
fn what_is_no_numeral_is_not_read() {
    assert_eq!(parse_decimal(""), None);
    assert_eq!(parse_decimal("+1"), None);
    assert_eq!(parse_decimal("-1"), None);
    assert_eq!(parse_decimal("12a"), None);
    assert_eq!(parse_decimal("a12"), None);
    assert_eq!(parse_decimal(" 12"), None);
    assert_eq!(parse_decimal("1 2"), None);
    assert_eq!(parse_decimal("\u{661}\u{662}"), None);
}

#[test]
fn numerals_beyond_the_machine_are_not_read() {
    let max = usize::MAX.to_string();
    let mut beyond = max.clone();
    beyond.push('0');
    assert_eq!(parse_decimal(&beyond), None);
    assert_eq!(parse_decimal("99999999999999999999999999999999999999999"), None);
    let last = max.chars().last().unwrap();
    if last != '9' {
        let mut next = max[..max.len() - 1].to_string();
        next.push(((last as u8) + 1) as char);
        assert_eq!(parse_decimal(&next), None);
    }
}

#[test]
fn fields_name_a_marker() {
    assert_eq!(
        marker_from_fields("src/a.c", "12", "<<<<<<< HEAD"),
        Some(marker("src/a.c", 12, MarkerKind::Start))
    );
    assert_eq!(
        marker_from_fields("src/a.c", "14", "======="),
        Some(marker("src/a.c", 14, MarkerKind::Divider))
    );
    assert_eq!(
        marker_from_fields("", "1", ">>>>>>> x"),
        Some(marker("", 1, MarkerKind::End))
    );
}

#[test]
fn fields_that_name_no_marker() {
    assert_eq!(marker_from_fields("a", "0", "======="), None);
    assert_eq!(marker_from_fields("a", "", "======="), None);
    assert_eq!(marker_from_fields("a", "x", "======="), None);
    assert_eq!(marker_from_fields("a", "3", "====== ="), None);
    assert_eq!(marker_from_fields("a", "3", "plain"), None);
    assert_eq!(marker_from_fields("a", "99999999999999999999999999", "======="), None);
}

#[test]
fn groups_need_the_match_and_three_fields() {
    assert_eq!(
        marker_from_groups(&groups(&[Some("a:1:======="), Some("a"), Some("1"), Some("=======")])),
        Some(marker("a", 1, MarkerKind::Divider))
    );
    assert_eq!(marker_from_groups(&None), None);
    assert_eq!(marker_from_groups(&groups(&[])), None);
    assert_eq!(marker_from_groups(&groups(&[Some("a"), Some("1"), Some("=======")])), None);
    assert_eq!(
        marker_from_groups(&groups(&[Some("x"), Some("a"), None, Some("=======")])),
        None
    );
    assert_eq!(
        marker_from_groups(&groups(&[Some("x"), None, Some("1"), Some("=======")])),
        None
    );
    assert_eq!(marker_from_groups(&groups(&[Some("x"), Some("a"), Some("1"), None])), None);
    assert_eq!(
        marker_from_groups(&groups(&[
            Some("x"),
            Some("a"),
            Some("1"),
            Some("======="),
            Some("more")
        ])),
        None
    );
    assert_eq!(
        marker_from_groups(&groups(&[None, Some("a"), Some("1"), Some("=======")])),
        Some(marker("a", 1, MarkerKind::Divider))
    );
}

#[test]
fn report_line_is_split_at_the_first_number_between_colons() {
    assert_eq!(
        parse_search_line("./kernels/6.8/mm/slab.c:120:<<<<<<< HEAD"),
        Some(marker("./kernels/6.8/mm/slab.c", 120, MarkerKind::Start))
    );
    assert_eq!(
        parse_search_line("a.c:7:======="),
        Some(marker("a.c", 7, MarkerKind::Divider))
    );
    assert_eq!(
        parse_search_line("a.c:9:>>>>>>> 1234:56: patch"),
        Some(marker("a.c", 9, MarkerKind::End))
    );
    assert_eq!(
        parse_search_line("dir:with:colons.c:3:<<<<<<< x"),
        Some(marker("dir:with:colons.c", 3, MarkerKind::Start))
    );
    assert_eq!(parse_search_line(":5:======="), Some(marker("", 5, MarkerKind::Divider)));
}

#[test]
fn report_line_of_another_form_names_no_marker() {
    assert_eq!(parse_search_line(""), None);
    assert_eq!(parse_search_line("a.c"), None);
    assert_eq!(parse_search_line("a.c:======="), None);
    assert_eq!(parse_search_line("a.c:x:======="), None);
    assert_eq!(parse_search_line("a.c:12"), None);
    assert_eq!(parse_search_line("a.c:12:plain text"), None);
    assert_eq!(parse_search_line("a.c:0:======="), None);
    assert_eq!(parse_search_line("a.c:99999999999999999999999:======="), None);
    assert_eq!(parse_search_line("a.c:\u{661}\u{662}:======="), None);
}

#[test]
fn report_is_read_line_by_line() {
    let report = "./a.c:3:<<<<<<< HEAD\n./a.c:5:=======\n./a.c:9:>>>>>>> p\nnoise\n./b.c:1:<<<<<<< HEAD\r\n./b.c:2:=======\r\n";
    assert_eq!(
        parse_search_output(report),
        vec![
            marker("./a.c", 3, MarkerKind::Start),
            marker("./a.c", 5, MarkerKind::Divider),
            marker("./a.c", 9, MarkerKind::End),
            marker("./b.c", 1, MarkerKind::Start),
            marker("./b.c", 2, MarkerKind::Divider),
        ]
    );
    assert_eq!(parse_search_output(""), Vec::<Marker>::new());
    assert_eq!(parse_search_output("\n\n"), Vec::<Marker>::new());
}
