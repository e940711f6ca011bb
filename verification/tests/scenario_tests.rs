use patch_conflicts::conflict_map::index_conflicts;
use patch_conflicts::index::ConflictRange;
use patch_conflicts::marker::{scan_text, Marker};
use patch_conflicts::orchestrator::{step, Action, Event, Outcome, RunState};
use patch_conflicts::rewrite::{resolve_content, Resolution, ResolutionStrategy};
use patch_conflicts::search::parse_search_output;

struct Tree {
    files: Vec<(String, String)>,
}

impl Tree {
    fn scan(&self) -> Vec<Marker> {
        let mut all = Vec::new();
        for (name, text) in &self.files {
            all.extend(scan_text(name, text));
        }
        all
    }

    fn text_of(&self, name: &str) -> String {
        self.files.iter().find(|(n, _)| n == name).unwrap().1.clone()
    }

    fn write(&mut self, name: &str, text: String) {
        self.files.iter_mut().find(|(n, _)| n == name).unwrap().1 = text;
    }
}

fn two_conflicted_files() -> Tree {
    Tree {
        files: vec![
            (
                "./mm/slab.c".to_string(),
                "int a;\n<<<<<<< HEAD\nint b = 1;\n=======\nint b = 2;\n>>>>>>> patch\nint c;\n"
                    .to_string(),
            ),
            (
                "./fs/inode.c".to_string(),
                "<<<<<<< HEAD\nold();\nolder();\n=======\nnew();\n>>>>>>> patch\n".to_string(),
            ),
        ],
    }
}

#[test]
fn failed_patch_with_two_conflicts_is_resolved_and_leaves_no_marker() {
    let mut tree = two_conflicted_files();
    let mut state = RunState::Idle { next: 0 };
    let mut event = Event::Start;
    let mut presented: Vec<ConflictRange> = Vec::new();
    let mut applied = Vec::new();
    loop {
        let next = step(state, event, 2).unwrap();
        state = next.state;
        event = match next.action {
            Action::ApplyPatch { patch } => {
                applied.push(patch);
                Event::PatchRejected
            }
            Action::ScanTree { .. } => {
                presented = index_conflicts(&tree.scan()).ranges();
                Event::ScanCompleted { ranges: presented.len() }
            }
            Action::ResolveConflicts { ranges, .. } => {
                assert_eq!(ranges, 2);
                for range in &presented {
                    let text = tree.text_of(&range.file);
                    match resolve_content(&text, range, ResolutionStrategy::AcceptIncoming) {
                        Ok(Resolution::Rewritten(new_text)) => tree.write(&range.file, new_text),
                        other => panic!("no rewrite: {:?}", other),
                    }
                }
                Event::ConflictsResolved
            }
            Action::Finish => break,
        };
    }
    assert_eq!(applied, vec![0]);
    assert_eq!(state, RunState::Stopped { outcome: Outcome::ConflictsHandled { patch: 0 } });
    assert_eq!(
        presented,
        vec![
            ConflictRange { file: "./mm/slab.c".to_string(), start: 2, end: 6 },
            ConflictRange { file: "./fs/inode.c".to_string(), start: 1, end: 6 },
        ]
    );
    assert_eq!(tree.text_of("./mm/slab.c"), "int a;\nint b = 2;\nint c;");
    assert_eq!(tree.text_of("./fs/inode.c"), "new();");
    assert_eq!(tree.scan(), Vec::<Marker>::new());
}

#[test]
fn each_strategy_leaves_no_marker_of_a_well_formed_conflict() {
    for strategy in [
        ResolutionStrategy::AcceptIncoming,
        ResolutionStrategy::KeepCurrent,
        ResolutionStrategy::AcceptBoth,
    ] {
        let mut tree = two_conflicted_files();
        for range in index_conflicts(&tree.scan()).ranges() {
            let text = tree.text_of(&range.file);
            match resolve_content(&text, &range, strategy) {
                Ok(Resolution::Rewritten(new_text)) => tree.write(&range.file, new_text),
                other => panic!("no rewrite: {:?}", other),
            }
        }
        assert_eq!(tree.scan(), Vec::<Marker>::new());
    }
}

#[test]
fn search_report_and_scan_agree_on_a_tree() {
    let tree = two_conflicted_files();
    let report = "./mm/slab.c:2:<<<<<<< HEAD\n./mm/slab.c:4:=======\n./mm/slab.c:6:>>>>>>> patch\n./fs/inode.c:1:<<<<<<< HEAD\n./fs/inode.c:4:=======\n./fs/inode.c:6:>>>>>>> patch\n";
    assert_eq!(parse_search_output(report), tree.scan());
}

#[test]
fn later_conflict_of_a_file_is_found_again_after_the_earlier_one_shrank() {
    let text = "<<<<<<< A\na\n=======\nb\n>>>>>>> B\nmid\n<<<<<<< A\nc\n=======\nd\n>>>>>>> B\n";
    let ranges = index_conflicts(&scan_text("f", text)).ranges();
    assert_eq!(ranges.len(), 2);
    let first = match resolve_content(text, &ranges[0], ResolutionStrategy::KeepCurrent) {
        Ok(Resolution::Rewritten(t)) => t,
        other => panic!("no rewrite: {:?}", other),
    };
    assert_eq!(first, "a\nmid\n<<<<<<< A\nc\n=======\nd\n>>>>>>> B");
    let again = index_conflicts(&scan_text("f", &first)).ranges();
    assert_eq!(again, vec![ConflictRange { file: "f".to_string(), start: 3, end: 7 }]);
    let second = match resolve_content(&first, &again[0], ResolutionStrategy::AcceptBoth) {
        Ok(Resolution::Rewritten(t)) => t,
        other => panic!("no rewrite: {:?}", other),
    };
    assert_eq!(second, "a\nmid\nc\nd");
}
