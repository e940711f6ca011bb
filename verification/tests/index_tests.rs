use patch_conflicts::conflict_map::{index_conflicts, ConflictMap, FileConflicts};
use patch_conflicts::index::{index_markers, ConflictRange};
use patch_conflicts::marker::{scan_lines, Marker, MarkerKind};

fn marker(file: &str, line: usize, kind: MarkerKind) -> Marker {
    Marker { file: file.to_string(), line, kind }
}

fn range(file: &str, start: usize, end: usize) -> ConflictRange {
    ConflictRange { file: file.to_string(), start, end }
}

fn lines(items: &[&str]) -> Vec<String> {
    items.iter().map(|s| s.to_string()).collect()
}

#[test]
fn one_block_gives_one_range() {
    let file = lines(&["<<<<<<< A", "current", "=======", "incoming", ">>>>>>> B"]);
    let markers = scan_lines("f", &file);
    assert_eq!(index_markers(&markers), vec![range("f", 1, 5)]);
}

#[test]
fn unterminated_conflict_is_a_single_line() {
    let mut file = Vec::new();
    for i in 1..10 {
        file.push(format!("line {}", i));
    }
    file.push("<<<<<<< A".to_string());
    file.push("current".to_string());
    let markers = scan_lines("f", &file);
    assert_eq!(markers, vec![marker("f", 10, MarkerKind::Start)]);
    assert_eq!(index_markers(&markers), vec![range("f", 10, 10)]);
}

#[test]
fn unterminated_conflict_with_a_divider_is_a_single_line() {
    let markers =
        vec![marker("f", 10, MarkerKind::Start), marker("f", 12, MarkerKind::Divider)];
    assert_eq!(index_markers(&markers), vec![range("f", 10, 10)]);
}

#[test]
fn second_start_closes_the_first_as_a_single_line() {
    let markers = vec![
        marker("f", 3, MarkerKind::Start),
        marker("f", 5, MarkerKind::Start),
        marker("f", 7, MarkerKind::Divider),
        marker("f", 9, MarkerKind::End),
    ];
    assert_eq!(index_markers(&markers), vec![range("f", 3, 3), range("f", 5, 9)]);
}

#[test]
fn end_without_start_is_passed_over() {
    let markers = vec![
        marker("f", 2, MarkerKind::End),
        marker("f", 4, MarkerKind::Divider),
        marker("f", 6, MarkerKind::Start),
        marker("f", 8, MarkerKind::End),
        marker("f", 9, MarkerKind::End),
    ];
    assert_eq!(index_markers(&markers), vec![range("f", 6, 8)]);
}

#[test]
fn no_markers_give_no_ranges() {
    assert_eq!(index_markers(&Vec::new()), Vec::<ConflictRange>::new());
    assert_eq!(
        index_markers(&vec![marker("f", 1, MarkerKind::Divider)]),
        Vec::<ConflictRange>::new()
    );
}

#[test]
fn a_new_file_closes_the_open_conflict_of_the_old_one() {
    let markers = vec![
        marker("a", 4, MarkerKind::Start),
        marker("b", 2, MarkerKind::End),
        marker("b", 5, MarkerKind::Start),
        marker("b", 6, MarkerKind::Divider),
        marker("b", 9, MarkerKind::End),
        marker("c", 1, MarkerKind::Start),
    ];
    assert_eq!(
        index_markers(&markers),
        vec![range("a", 4, 4), range("b", 5, 9), range("c", 1, 1)]
    );
}

#[test]
fn ranges_of_a_file_ascend_and_do_not_overlap() {
    let markers = vec![
        marker("a", 1, MarkerKind::Start),
        marker("a", 2, MarkerKind::Divider),
        marker("a", 3, MarkerKind::End),
        marker("a", 10, MarkerKind::Start),
        marker("a", 20, MarkerKind::Start),
        marker("a", 21, MarkerKind::End),
        marker("b", 7, MarkerKind::Start),
        marker("b", 8, MarkerKind::End),
    ];
    let ranges = index_markers(&markers);
    assert_eq!(
        ranges,
        vec![range("a", 1, 3), range("a", 10, 10), range("a", 20, 21), range("b", 7, 8)]
    );
    for r in &ranges {
        assert!(1 <= r.start && r.start <= r.end);
    }
    for i in 0..ranges.len() {
        for j in i + 1..ranges.len() {
            if ranges[i].file == ranges[j].file {
                assert!(ranges[i].end < ranges[j].start);
            }
        }
    }
}

#[test]
fn map_groups_ranges_by_file_in_first_seen_order() {
    let ranges = vec![
        range("b", 1, 2),
        range("a", 3, 4),
        range("b", 5, 9),
        range("c", 1, 1),
        range("a", 7, 8),
    ];
    let map = ConflictMap::from_ranges(&ranges);
    assert!(!map.is_empty());
    assert_eq!(map.file_count(), 3);
    assert_eq!(
        map.file_at(0),
        &FileConflicts { file: "b".to_string(), spans: vec![(1, 2), (5, 9)] }
    );
    assert_eq!(
        map.file_at(1),
        &FileConflicts { file: "a".to_string(), spans: vec![(3, 4), (7, 8)] }
    );
    assert_eq!(map.file_at(2), &FileConflicts { file: "c".to_string(), spans: vec![(1, 1)] });
    assert_eq!(
        map.ranges(),
        vec![
            range("b", 1, 2),
            range("b", 5, 9),
            range("a", 3, 4),
            range("a", 7, 8),
            range("c", 1, 1),
        ]
    );
}

#[test]
fn map_looks_a_file_up() {
    let mut map = ConflictMap::new();
    assert!(map.is_empty());
    assert_eq!(map.file_count(), 0);
    assert_eq!(map.get("a"), None);
    assert_eq!(map.ranges(), Vec::<ConflictRange>::new());
    map.record(&range("a", 3, 4));
    map.record(&range("b", 1, 1));
    map.record(&range("a", 6, 9));
    assert_eq!(
        map.get("a"),
        Some(&FileConflicts { file: "a".to_string(), spans: vec![(3, 4), (6, 9)] })
    );
    assert_eq!(map.get("b"), Some(&FileConflicts { file: "b".to_string(), spans: vec![(1, 1)] }));
    assert_eq!(map.get("c"), None);
    assert_eq!(map.get(""), None);
}

#[test]
fn index_conflicts_builds_the_map_of_a_tree() {
    let markers = vec![
        marker("./x/a.c", 10, MarkerKind::Start),
        marker("./x/a.c", 12, MarkerKind::Divider),
        marker("./x/a.c", 15, MarkerKind::End),
        marker("./x/a.c", 40, MarkerKind::Start),
        marker("./y/b.c", 1, MarkerKind::Start),
        marker("./y/b.c", 2, MarkerKind::Divider),
        marker("./y/b.c", 3, MarkerKind::End),
    ];
    let map = index_conflicts(&markers);
    assert_eq!(map.file_count(), 2);
    assert_eq!(
        map.ranges(),
        vec![range("./x/a.c", 10, 15), range("./x/a.c", 40, 40), range("./y/b.c", 1, 3)]
    );
    assert!(index_conflicts(&Vec::new()).is_empty());
}
