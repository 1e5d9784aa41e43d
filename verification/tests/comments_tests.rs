use diffstory::comments::map_comments_to_hunks;
use diffstory::comments::parse_hunk_header;
use diffstory::comments::CommentUser;
use diffstory::comments::ReviewComment;
use diffstory::diff_parser::parse_diff;

#[test]
fn test_parse_hunk_header() {
    assert_eq!(parse_hunk_header("@@ -1,3 +1,4 @@"), Some((1, 3, 1, 4)));
    assert_eq!(
        parse_hunk_header("@@ -10,3 +11,4 @@ fn main()"),
        Some((10, 3, 11, 4))
    );
    assert_eq!(parse_hunk_header("@@ -0,0 +1,3 @@"), Some((0, 0, 1, 3)));
    assert_eq!(parse_hunk_header("@@ -1 +1 @@"), Some((1, 1, 1, 1)));
}

#[test]
fn test_map_comment_to_hunk() {
    let diff_text = "\
diff --git a/src/main.rs b/src/main.rs
--- a/src/main.rs
+++ b/src/main.rs
@@ -1,3 +1,4 @@
 fn main() {
+    println!(\"hello\");
     println!(\"world\");
 }";
    let parsed = parse_diff(diff_text).unwrap();

    let comment = ReviewComment {
        id: 1,
        path: "src/main.rs".to_string(),
        line: Some(2), // the added line
        original_line: None,
        side: Some("RIGHT".to_string()),
        body: "Nice addition!".to_string(),
        user: CommentUser {
            login: "critic".to_string(),
        },
        created_at: "2024-01-01T00:00:00Z".to_string(),
        in_reply_to_id: None,
    };

    let (map, outdated) = map_comments_to_hunks(vec![comment], &parsed);
    assert!(outdated.is_empty());
    assert_eq!(map.len(), 1);
    let threads = map.get(&("src/main.rs".to_string(), 0)).unwrap();
    assert_eq!(threads.len(), 1);
    assert_eq!(threads[0].root.line_offset, 1); // offset 1 = the addition line
    assert!(!threads[0].root.is_outdated);
}

#[test]
fn test_threaded_comments() {
    let diff_text = "\
diff --git a/lib.rs b/lib.rs
--- a/lib.rs
+++ b/lib.rs
@@ -1,3 +1,4 @@
 use std::io;
+use std::fs;

 fn read() {}";
    let parsed = parse_diff(diff_text).unwrap();

    let root = ReviewComment {
        id: 10,
        path: "lib.rs".to_string(),
        line: Some(2),
        original_line: None,
        side: Some("RIGHT".to_string()),
        body: "Why this import?".to_string(),
        user: CommentUser {
            login: "alice".to_string(),
        },
        created_at: "2024-01-01T00:00:00Z".to_string(),
        in_reply_to_id: None,
    };

    let reply = ReviewComment {
        id: 11,
        path: "lib.rs".to_string(),
        line: Some(2),
        original_line: None,
        side: Some("RIGHT".to_string()),
        body: "For file operations".to_string(),
        user: CommentUser {
            login: "bob".to_string(),
        },
        created_at: "2024-01-01T01:00:00Z".to_string(),
        in_reply_to_id: Some(10),
    };

    let (map, _) = map_comments_to_hunks(vec![root, reply], &parsed);
    let threads = map.get(&("lib.rs".to_string(), 0)).unwrap();
    assert_eq!(threads.len(), 1);
    assert_eq!(threads[0].replies.len(), 1);
    assert_eq!(threads[0].replies[0].body, "For file operations");
}

#[test]
fn test_threaded_comments_reply_first() {
    // Same thread, but the reply stands before its root in the input list:
    // the thread must come out the same.
    let diff_text = "\
diff --git a/lib.rs b/lib.rs
--- a/lib.rs
+++ b/lib.rs
@@ -1,3 +1,4 @@
 use std::io;
+use std::fs;

 fn read() {}";
    let parsed = parse_diff(diff_text).unwrap();

    let root = ReviewComment {
        id: 10,
        path: "lib.rs".to_string(),
        line: Some(2),
        original_line: None,
        side: Some("RIGHT".to_string()),
        body: "Why this import?".to_string(),
        user: CommentUser {
            login: "alice".to_string(),
        },
        created_at: "2024-01-01T00:00:00Z".to_string(),
        in_reply_to_id: None,
    };

    let reply = ReviewComment {
        id: 11,
        path: "lib.rs".to_string(),
        line: Some(2),
        original_line: None,
        side: Some("RIGHT".to_string()),
        body: "For file operations".to_string(),
        user: CommentUser {
            login: "bob".to_string(),
        },
        created_at: "2024-01-01T01:00:00Z".to_string(),
        in_reply_to_id: Some(10),
    };

    let (map, _) = map_comments_to_hunks(vec![reply, root], &parsed);
    let threads = map.get(&("lib.rs".to_string(), 0)).unwrap();
    assert_eq!(threads.len(), 1);
    assert_eq!(threads[0].replies.len(), 1);
    assert_eq!(threads[0].replies[0].body, "For file operations");
}

#[test]
fn test_unmappable_comment_becomes_outdated() {
    let diff_text = "\
diff --git a/src/main.rs b/src/main.rs
--- a/src/main.rs
+++ b/src/main.rs
@@ -1,3 +1,4 @@
 fn main() {
+    println!(\"hello\");
     println!(\"world\");
 }";
    let parsed = parse_diff(diff_text).unwrap();

    let comment = ReviewComment {
        id: 1,
        path: "src/main.rs".to_string(),
        line: None,
        original_line: Some(100), // line 100 doesn't exist in any hunk
        side: None,
        body: "Old comment".to_string(),
        user: CommentUser {
            login: "critic".to_string(),
        },
        created_at: "2024-01-01T00:00:00Z".to_string(),
        in_reply_to_id: None,
    };

    let (map, outdated) = map_comments_to_hunks(vec![comment], &parsed);
    assert!(map.is_empty());
    assert_eq!(outdated.len(), 1);
    assert_eq!(outdated[0].file, "src/main.rs");
}

#[test]
fn test_original_line_marks_outdated() {
    // A comment that only anchors by its original (old-side) position is
    // mapped, but marked outdated.
    let diff_text = "\
diff --git a/a.txt b/a.txt
--- a/a.txt
+++ b/a.txt
@@ -5,3 +5,3 @@
 one
-two
+dos
 three";
    let parsed = parse_diff(diff_text).unwrap();

    let comment = ReviewComment {
        id: 7,
        path: "a.txt".to_string(),
        line: None,
        original_line: Some(6), // the deleted line, old side
        side: None,
        body: "old anchor".to_string(),
        user: CommentUser {
            login: "critic".to_string(),
        },
        created_at: "2024-01-02T00:00:00Z".to_string(),
        in_reply_to_id: None,
    };

    let (map, outdated) = map_comments_to_hunks(vec![comment], &parsed);
    assert!(outdated.is_empty());
    let threads = map.get(&("a.txt".to_string(), 0)).unwrap();
    assert_eq!(threads[0].root.line_offset, 1);
    assert!(threads[0].root.is_outdated);
}

#[test]
fn test_threads_sorted_by_offset() {
    let diff_text = "\
diff --git a/a.txt b/a.txt
--- a/a.txt
+++ b/a.txt
@@ -1,3 +1,3 @@
 one
-two
+deux
 three";
    let parsed = parse_diff(diff_text).unwrap();

    let late = ReviewComment {
        id: 1,
        path: "a.txt".to_string(),
        line: Some(3),
        original_line: None,
        side: Some("RIGHT".to_string()),
        body: "on three".to_string(),
        user: CommentUser {
            login: "x".to_string(),
        },
        created_at: "2024-01-01T00:00:00Z".to_string(),
        in_reply_to_id: None,
    };
    let early = ReviewComment {
        id: 2,
        path: "a.txt".to_string(),
        line: Some(1),
        original_line: None,
        side: Some("RIGHT".to_string()),
        body: "on one".to_string(),
        user: CommentUser {
            login: "y".to_string(),
        },
        created_at: "2024-01-01T00:00:00Z".to_string(),
        in_reply_to_id: None,
    };

    let (map, _) = map_comments_to_hunks(vec![late, early], &parsed);
    let threads = map.get(&("a.txt".to_string(), 0)).unwrap();
    assert_eq!(threads.len(), 2);
    assert!(threads[0].root.line_offset <= threads[1].root.line_offset);
    assert_eq!(threads[0].root.comment.body, "on one");
    assert_eq!(threads[1].root.comment.body, "on three");
}

#[test]
fn test_left_side_anchors_deletion() {
    let diff_text = "\
diff --git a/a.txt b/a.txt
--- a/a.txt
+++ b/a.txt
@@ -1,3 +1,2 @@
 one
-two
 three";
    let parsed = parse_diff(diff_text).unwrap();

    let comment = ReviewComment {
        id: 3,
        path: "a.txt".to_string(),
        line: Some(2),
        original_line: None,
        side: Some("LEFT".to_string()),
        body: "why removed?".to_string(),
        user: CommentUser {
            login: "z".to_string(),
        },
        created_at: "2024-01-01T00:00:00Z".to_string(),
        in_reply_to_id: None,
    };

    let (map, outdated) = map_comments_to_hunks(vec![comment], &parsed);
    assert!(outdated.is_empty());
    let threads = map.get(&("a.txt".to_string(), 0)).unwrap();
    assert_eq!(threads[0].root.line_offset, 1);
    assert!(!threads[0].root.is_outdated);
}
