use patch_conflicts::index::ConflictRange;
use patch_conflicts::rewrite::{
    apply_strategy, resolve_content, rewrite_lines, Resolution, ResolutionStrategy, ResolveError,
};

fn lines(items: &[&str]) -> Vec<String> {
    items.iter().map(|s| s.to_string()).collect()
}

fn block() -> Vec<String> {
    lines(&["<<<<<<< A", "current", "=======", "incoming", ">>>>>>> B"])
}

#[test]
fn accept_incoming_keeps_the_incoming_side() {
    assert_eq!(apply_strategy(ResolutionStrategy::AcceptIncoming, &block()), lines(&["incoming"]));
}

#[test]
fn keep_current_keeps_the_current_side() {
    assert_eq!(apply_strategy(ResolutionStrategy::KeepCurrent, &block()), lines(&["current"]));
}

#[test]
fn accept_both_keeps_both_sides_in_order() {
    assert_eq!(
        apply_strategy(ResolutionStrategy::AcceptBoth, &block()),
        lines(&["current", "incoming"])
    );
}

#[test]
fn edit_externally_changes_no_line() {
    assert_eq!(apply_strategy(ResolutionStrategy::EditExternally, &block()), block());
}

#[test]
fn rewrite_replaces_lines_one_to_five() {
    let file = block();
    assert_eq!(rewrite_lines(&file, 1, 5, ResolutionStrategy::AcceptIncoming), lines(&["incoming"]));
    assert_eq!(rewrite_lines(&file, 1, 5, ResolutionStrategy::KeepCurrent), lines(&["current"]));
    assert_eq!(
        rewrite_lines(&file, 1, 5, ResolutionStrategy::AcceptBoth),
        lines(&["current", "incoming"])
    );
}

#[test]
fn rewrite_keeps_the_lines_around_the_range() {
    let file = lines(&[
        "fn main() {",
        "<<<<<<< A",
        "    one();",
        "=======",
        "    two();",
        ">>>>>>> B",
        "}",
        "",
        "// end",
    ]);
    for strategy in [
        ResolutionStrategy::AcceptIncoming,
        ResolutionStrategy::KeepCurrent,
        ResolutionStrategy::AcceptBoth,
        ResolutionStrategy::EditExternally,
    ] {
        let out = rewrite_lines(&file, 2, 6, strategy);
        assert_eq!(out[0], "fn main() {");
        let n = out.len();
        assert_eq!(out[n - 3..].to_vec(), lines(&["}", "", "// end"]));
    }
    assert_eq!(
        rewrite_lines(&file, 2, 6, ResolutionStrategy::AcceptIncoming),
        lines(&["fn main() {", "    two();", "}", "", "// end"])
    );
}

#[test]
fn resolve_content_rewrites_the_text() {
    let range = ConflictRange { file: "a.c".to_string(), start: 2, end: 6 };
    let text = "top\n<<<<<<< A\ncurrent\n=======\nincoming\n>>>>>>> B\nbottom\n";
    assert_eq!(
        resolve_content(text, &range, ResolutionStrategy::AcceptIncoming),
        Ok(Resolution::Rewritten("top\nincoming\nbottom".to_string()))
    );
    assert_eq!(
        resolve_content(text, &range, ResolutionStrategy::KeepCurrent),
        Ok(Resolution::Rewritten("top\ncurrent\nbottom".to_string()))
    );
    assert_eq!(
        resolve_content(text, &range, ResolutionStrategy::AcceptBoth),
        Ok(Resolution::Rewritten("top\ncurrent\nincoming\nbottom".to_string()))
    );
}

#[test]
fn resolve_content_leaves_an_external_edit_alone() {
    let range = ConflictRange { file: "a.c".to_string(), start: 40, end: 50 };
    assert_eq!(
        resolve_content("x\n", &range, ResolutionStrategy::EditExternally),
        Ok(Resolution::LeftToEditor)
    );
}

#[test]
fn resolve_content_rejects_a_range_outside_the_file() {
    let text = "a\nb\nc\n";
    for (start, end) in [(0, 1), (2, 1), (1, 4), (4, 4)] {
        let range = ConflictRange { file: "a.c".to_string(), start, end };
        assert_eq!(
            resolve_content(text, &range, ResolutionStrategy::AcceptBoth),
            Err(ResolveError::RangeOutsideFile)
        );
    }
}

#[test]
fn conflict_without_a_divider() {
    let body = lines(&["<<<<<<< A", "one", "two", ">>>>>>> B"]);
    assert_eq!(apply_strategy(ResolutionStrategy::AcceptIncoming, &body), lines(&[]));
    assert_eq!(apply_strategy(ResolutionStrategy::KeepCurrent, &body), lines(&["one", "two"]));
    assert_eq!(apply_strategy(ResolutionStrategy::AcceptBoth, &body), lines(&["one", "two"]));
}

#[test]
fn single_line_conflict_leaves_nothing() {
    let body = lines(&["<<<<<<< A"]);
    for strategy in [
        ResolutionStrategy::AcceptIncoming,
        ResolutionStrategy::KeepCurrent,
        ResolutionStrategy::AcceptBoth,
    ] {
        assert_eq!(apply_strategy(strategy, &body), lines(&[]));
    }
    assert_eq!(apply_strategy(ResolutionStrategy::AcceptIncoming, &lines(&[])), lines(&[]));
    assert_eq!(apply_strategy(ResolutionStrategy::KeepCurrent, &lines(&[])), lines(&[]));
}

#[test]
fn incoming_side_stops_at_the_first_end_marker() {
    let body = lines(&["<<<<<<< A", "a", "=======", "b", ">>>>>>> B", "c", ">>>>>>> C"]);
    assert_eq!(apply_strategy(ResolutionStrategy::AcceptIncoming, &body), lines(&["b"]));
    assert_eq!(apply_strategy(ResolutionStrategy::KeepCurrent, &body), lines(&["a"]));
    assert_eq!(apply_strategy(ResolutionStrategy::AcceptBoth, &body), lines(&["a", "b", "c"]));
}

#[test]
fn line_that_only_begins_like_a_divider_is_content() {
    let body = lines(&["<<<<<<< A", "a", "======= not a divider", "=======", "b", ">>>>>>> B"]);
    assert_eq!(
        apply_strategy(ResolutionStrategy::KeepCurrent, &body),
        lines(&["a", "======= not a divider"])
    );
    assert_eq!(apply_strategy(ResolutionStrategy::AcceptIncoming, &body), lines(&["b"]));
    assert_eq!(
        apply_strategy(ResolutionStrategy::AcceptBoth, &body),
        lines(&["a", "======= not a divider", "b"])
    );
}

#[test]
fn current_side_begins_at_the_first_line_where_no_start_marker_opens_the_range() {
    let body = lines(&["a", "=======", "b", ">>>>>>> B"]);
    assert_eq!(apply_strategy(ResolutionStrategy::KeepCurrent, &body), lines(&["a"]));
}

#[test]
fn strategies_never_lengthen_the_file() {
    let file = lines(&["x", "<<<<<<< A", "a", "<<<<<<< A2", "=======", "b", ">>>>>>> B", "y"]);
    for strategy in [
        ResolutionStrategy::AcceptIncoming,
        ResolutionStrategy::KeepCurrent,
        ResolutionStrategy::AcceptBoth,
        ResolutionStrategy::EditExternally,
    ] {
        for start in 1..=file.len() {
            for end in start..=file.len() {
                let out = rewrite_lines(&file, start, end, strategy);
                assert!(out.len() <= file.len());
                assert_eq!(out[..start - 1], file[..start - 1]);
                let after = file.len() - end;
                assert_eq!(out[out.len() - after..], file[end..]);
            }
        }
    }
}

#[test]
fn edit_externally_rewrites_no_line_of_the_file() {
    let file = lines(&["x", "<<<<<<< A", "a", "=======", "b", ">>>>>>> B", "y"]);
    assert_eq!(rewrite_lines(&file, 2, 6, ResolutionStrategy::EditExternally), file);
}

#[test]
fn resolve_content_reads_both_line_endings() {
    let range = ConflictRange { file: "a.c".to_string(), start: 2, end: 6 };
    let text = "top\r\n<<<<<<< A\r\ncurrent\r\n=======\r\nincoming\r\n>>>>>>> B\r\nbottom";
    assert_eq!(
        resolve_content(text, &range, ResolutionStrategy::AcceptBoth),
        Ok(Resolution::Rewritten("top\ncurrent\nincoming\nbottom".to_string()))
    );
}

#[test]
fn resolve_content_of_a_file_that_is_one_conflict() {
    let range = ConflictRange { file: "a.c".to_string(), start: 1, end: 5 };
    let text = "<<<<<<< A\ncurrent\n=======\nincoming\n>>>>>>> B\n";
    assert_eq!(
        resolve_content(text, &range, ResolutionStrategy::AcceptIncoming),
        Ok(Resolution::Rewritten("incoming".to_string()))
    );
    assert_eq!(
        resolve_content(text, &range, ResolutionStrategy::KeepCurrent),
        Ok(Resolution::Rewritten("current".to_string()))
    );
    assert_eq!(
        resolve_content(text, &range, ResolutionStrategy::AcceptBoth),
        Ok(Resolution::Rewritten("current\nincoming".to_string()))
    );
}

#[test]
fn menu_positions_name_the_strategies() {
    assert_eq!(ResolutionStrategy::from_choice(0), Some(ResolutionStrategy::AcceptIncoming));
    assert_eq!(ResolutionStrategy::from_choice(1), Some(ResolutionStrategy::KeepCurrent));
    assert_eq!(ResolutionStrategy::from_choice(2), Some(ResolutionStrategy::AcceptBoth));
    assert_eq!(ResolutionStrategy::from_choice(3), Some(ResolutionStrategy::EditExternally));
    assert_eq!(ResolutionStrategy::from_choice(4), None);
    assert_eq!(ResolutionStrategy::from_choice(usize::MAX), None);
}

#[test]
fn strategies_have_their_menu_labels() {
    assert_eq!(ResolutionStrategy::AcceptIncoming.label(), "Accept Incoming");
    assert_eq!(ResolutionStrategy::KeepCurrent.label(), "Keep Current");
    assert_eq!(ResolutionStrategy::AcceptBoth.label(), "Accept Both");
    assert_eq!(ResolutionStrategy::EditExternally.label(), "Open in Editor");
    assert!(ResolutionStrategy::AcceptBoth.rewrites());
    assert!(!ResolutionStrategy::EditExternally.rewrites());
}

#[test]
fn confirmation_names_the_file() {
    assert_eq!(
        ResolutionStrategy::AcceptIncoming.confirmation("./a.c"),
        Some("Accepted incoming changes for ./a.c".to_string())
    );
    assert_eq!(
        ResolutionStrategy::KeepCurrent.confirmation("./a.c"),
        Some("Kept current changes for ./a.c".to_string())
    );
    assert_eq!(
        ResolutionStrategy::AcceptBoth.confirmation("./a.c"),
        Some("Merged both changes for ./a.c".to_string())
    );
    assert_eq!(ResolutionStrategy::EditExternally.confirmation("./a.c"), None);
}

#[test]
fn resolve_content_strips_one_carriage_return_before_a_line_feed() {
    let range = ConflictRange { file: "a.c".to_string(), start: 1, end: 4 };
    let text = "<<<<<<< A\nkeep\r\r\n=======\n>>>>>>> B";
    assert_eq!(
        resolve_content(text, &range, ResolutionStrategy::KeepCurrent),
        Ok(Resolution::Rewritten("keep\r".to_string()))
    );
    let lone = "<<<<<<< A\na\rb\n=======\n>>>>>>> B\n\nlast\r";
    assert_eq!(
        resolve_content(lone, &range, ResolutionStrategy::KeepCurrent),
        Ok(Resolution::Rewritten("a\rb\n\nlast\r".to_string()))
    );
}
