use diffstory::diff_parser::parse_diff;
use diffstory::diff_parser::DiffLine;
use diffstory::diff_parser::ParseError;

#[test]
fn test_simple_diff() {
    let diff = "\
diff --git a/src/main.rs b/src/main.rs
index abc1234..def5678 100644
--- a/src/main.rs
+++ b/src/main.rs
@@ -1,3 +1,4 @@
 fn main() {
+    println!(\"hello\");
     println!(\"world\");
 }";
    let parsed = parse_diff(diff).unwrap();
    assert_eq!(parsed.files.len(), 1);
    assert_eq!(parsed.files[0].display_path(), "src/main.rs");
    assert_eq!(parsed.files[0].hunks.len(), 1);
    assert_eq!(parsed.files[0].hunks[0].lines.len(), 4);
}

#[test]
fn test_rename_detection() {
    let diff = "\
diff --git a/old.rs b/new.rs
similarity index 95%
rename from old.rs
rename to new.rs
index abc1234..def5678 100644
--- a/old.rs
+++ b/new.rs
@@ -1,3 +1,3 @@
-fn old() {}
+fn new() {}
 fn shared() {}";
    let parsed = parse_diff(diff).unwrap();
    assert_eq!(parsed.files.len(), 1);
    assert!(parsed.files[0].is_rename);
    assert_eq!(parsed.files[0].old_path.as_deref(), Some("old.rs"));
    assert_eq!(parsed.files[0].new_path.as_deref(), Some("new.rs"));
}

#[test]
fn test_binary_file() {
    let diff = "\
diff --git a/image.png b/image.png
new file mode 100644
index 0000000..abc1234
Binary files /dev/null and b/image.png differ";
    let parsed = parse_diff(diff).unwrap();
    assert_eq!(parsed.files.len(), 1);
    assert!(parsed.files[0].is_binary);
}

#[test]
fn test_multiple_hunks() {
    let diff = "\
diff --git a/lib.rs b/lib.rs
--- a/lib.rs
+++ b/lib.rs
@@ -1,3 +1,4 @@
 use std::io;
+use std::fs;

 fn read() {}
@@ -10,3 +11,4 @@
 fn write() {}
+fn delete() {}
 fn update() {}";
    let parsed = parse_diff(diff).unwrap();
    assert_eq!(parsed.files[0].hunks.len(), 2);
}

#[test]
fn test_new_file() {
    let diff = "\
diff --git a/new.rs b/new.rs
new file mode 100644
index 0000000..abc1234
--- /dev/null
+++ b/new.rs
@@ -0,0 +1,3 @@
+fn new_function() {
+    todo!()
+}";
    let parsed = parse_diff(diff).unwrap();
    assert_eq!(parsed.files.len(), 1);
    assert!(parsed.files[0].old_path.is_none());
    assert_eq!(parsed.files[0].new_path.as_deref(), Some("new.rs"));
}

#[test]
fn test_malformed_git_line_is_fatal() {
    let diff = "diff --git nonsense-without-paths\n";
    match parse_diff(diff) {
        Err(ParseError::UnexpectedFormat(line)) => {
            assert_eq!(line, "diff --git nonsense-without-paths");
        }
        Ok(_) => panic!("malformed separator line must fail"),
    }
}

#[test]
fn test_paths_with_spaces() {
    let diff = "\
diff --git a/dir with space/f.rs b/dir with space/f.rs
--- a/dir with space/f.rs
+++ b/dir with space/f.rs
@@ -1 +1 @@
-x
+y";
    let parsed = parse_diff(diff).unwrap();
    assert_eq!(parsed.files[0].display_path(), "dir with space/f.rs");
}

#[test]
fn test_line_classification() {
    let diff = "\
diff --git a/a.txt b/a.txt
--- a/a.txt
+++ b/a.txt
@@ -1,2 +1,2 @@
 ctx
-del
+add
\\ No newline at end of file";
    let parsed = parse_diff(diff).unwrap();
    let lines = &parsed.files[0].hunks[0].lines;
    assert_eq!(lines.len(), 4);
    assert!(matches!(&lines[0], DiffLine::Context(s) if s == "ctx"));
    assert!(matches!(&lines[1], DiffLine::Deletion(s) if s == "del"));
    assert!(matches!(&lines[2], DiffLine::Addition(s) if s == "add"));
    assert!(matches!(&lines[3], DiffLine::NoNewlineAtEof));
}

#[test]
fn test_total_hunks_across_files() {
    // Two files with two and one hunks: five files would be wrong, three
    // hunks in all is right.
    let diff = "\
diff --git a/a.rs b/a.rs
--- a/a.rs
+++ b/a.rs
@@ -1 +1 @@
-x
+y
@@ -10 +10 @@
-u
+v
diff --git a/b.rs b/b.rs
--- a/b.rs
+++ b/b.rs
@@ -1 +1 @@
-p
+q";
    let parsed = parse_diff(diff).unwrap();
    assert_eq!(parsed.files.len(), 2);
    let total: usize = parsed.files.iter().map(|f| f.hunks.len()).sum();
    assert_eq!(total, 3);
    assert_eq!(parsed.files[0].display_path(), "a.rs");
    assert_eq!(parsed.files[1].display_path(), "b.rs");
}

#[test]
fn test_empty_line_is_empty_context() {
    let diff = "\
diff --git a/a.txt b/a.txt
--- a/a.txt
+++ b/a.txt
@@ -1,3 +1,3 @@
 before

 after";
    let parsed = parse_diff(diff).unwrap();
    let lines = &parsed.files[0].hunks[0].lines;
    assert_eq!(lines.len(), 3);
    assert!(matches!(&lines[1], DiffLine::Context(s) if s.is_empty()));
}

#[test]
fn test_unrecognized_line_ends_hunk() {
    let diff = "\
diff --git a/a.txt b/a.txt
--- a/a.txt
+++ b/a.txt
@@ -1,2 +1,2 @@
 kept
stray line without a marker
 also kept";
    let parsed = parse_diff(diff).unwrap();
    // The stray line ends the hunk early; parsing recovers without error.
    assert_eq!(parsed.files[0].hunks.len(), 1);
    assert_eq!(parsed.files[0].hunks[0].lines.len(), 1);
}
