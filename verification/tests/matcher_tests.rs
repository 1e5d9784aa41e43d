use diffstory::diff_parser::parse_diff;
use diffstory::matcher::resolve;
use diffstory::matcher::validate;
use diffstory::model::Chapter;
use diffstory::model::HunkRef;
use diffstory::model::Storyline;

fn four_hunk_diff() -> &'static str {
    "\
diff --git a/a.rs b/a.rs
--- a/a.rs
+++ b/a.rs
@@ -1 +1 @@
-x
+y
@@ -10 +10 @@
-u
+v
diff --git a/b.rs b/b.rs
--- a/b.rs
+++ b/b.rs
@@ -1 +1 @@
-p
+q
@@ -20 +20 @@
-m
+n"
}

fn chapter(title: &str, refs: Vec<(&str, usize)>) -> Chapter {
    Chapter {
        title: title.to_string(),
        description: None,
        hunks: refs
            .into_iter()
            .map(|(f, i)| HunkRef {
                file: f.to_string(),
                hunk_index: i,
                note: None,
            })
            .collect(),
    }
}

#[test]
fn test_resolve_covers_and_collects() {
    let parsed = parse_diff(four_hunk_diff()).unwrap();
    let story = Storyline {
        description: Some("intro".to_string()),
        chapters: vec![chapter("one", vec![("a.rs", 0), ("b.rs", 1)])],
        misc: vec![chapter("rest", vec![("a.rs", 1)])],
    };
    let resolved = resolve(&story, &parsed);
    assert!(resolved.warnings.is_empty());
    assert_eq!(resolved.chapters.len(), 1);
    assert_eq!(resolved.chapters[0].hunks.len(), 2);
    assert_eq!(resolved.misc[0].hunks.len(), 1);
    assert_eq!(resolved.uncategorized.len(), 1);
    assert_eq!(resolved.uncategorized[0].file_path, "b.rs");
    assert_eq!(resolved.uncategorized[0].hunk_index, 0);
    // every hunk accounted for exactly once
    let covered: usize = resolved.chapters.iter().chain(resolved.misc.iter()).map(|c| c.hunks.len()).sum();
    assert_eq!(covered + resolved.uncategorized.len(), 4);
}

#[test]
fn test_duplicate_reference_warns() {
    let parsed = parse_diff(four_hunk_diff()).unwrap();
    let story = Storyline {
        description: None,
        chapters: vec![chapter("one", vec![("a.rs", 0)])],
        misc: vec![chapter("again", vec![("a.rs", 0)])],
    };
    let resolved = resolve(&story, &parsed);
    assert_eq!(resolved.warnings.len(), 1);
    assert_eq!(resolved.warnings[0], "duplicate reference: a.rs:0");
    assert_eq!(resolved.chapters[0].hunks.len(), 1);
    assert_eq!(resolved.misc[0].hunks.len(), 0);
}

#[test]
fn test_missing_file_and_out_of_range_warn() {
    let parsed = parse_diff(four_hunk_diff()).unwrap();
    let story = Storyline {
        description: None,
        chapters: vec![chapter("bad", vec![("c.rs", 0), ("a.rs", 7)])],
        misc: vec![],
    };
    let resolved = resolve(&story, &parsed);
    assert_eq!(resolved.warnings.len(), 2);
    assert_eq!(resolved.warnings[0], "file not found in diff: c.rs");
    assert_eq!(
        resolved.warnings[1],
        "hunk index 7 out of bounds for a.rs (has 2 hunks)"
    );
    assert_eq!(resolved.chapters[0].hunks.len(), 0);
    assert_eq!(resolved.uncategorized.len(), 4);
}

#[test]
fn test_coverage_full_on_empty_diff() {
    let parsed = parse_diff("").unwrap();
    let story = Storyline {
        description: None,
        chapters: vec![],
        misc: vec![],
    };
    let result = validate(&story, &parsed);
    assert_eq!(result.total_hunks, 0);
    assert_eq!(result.covered_hunks, 0);
    assert_eq!(result.coverage_percent(), 100);
}

#[test]
fn test_coverage_three_of_four() {
    let parsed = parse_diff(four_hunk_diff()).unwrap();
    let story = Storyline {
        description: None,
        chapters: vec![chapter("most", vec![("a.rs", 0), ("a.rs", 1), ("b.rs", 0)])],
        misc: vec![],
    };
    let result = validate(&story, &parsed);
    assert_eq!(result.total_hunks, 4);
    assert_eq!(result.covered_hunks, 3);
    assert_eq!(result.uncategorized_hunks, 1);
    assert_eq!(result.coverage_percent(), 75);
}

#[test]
fn test_resolved_hunk_carries_note_and_hunk() {
    let parsed = parse_diff(four_hunk_diff()).unwrap();
    let story = Storyline {
        description: None,
        chapters: vec![Chapter {
            title: "t".to_string(),
            description: None,
            hunks: vec![HunkRef {
                file: "b.rs".to_string(),
                hunk_index: 1,
                note: Some("tricky".to_string()),
            }],
        }],
        misc: vec![],
    };
    let resolved = resolve(&story, &parsed);
    let rh = &resolved.chapters[0].hunks[0];
    assert_eq!(rh.file_path, "b.rs");
    assert_eq!(rh.hunk_index, 1);
    assert_eq!(rh.note.as_deref(), Some("tricky"));
    assert_eq!(rh.hunk.header, "@@ -20 +20 @@");
}
