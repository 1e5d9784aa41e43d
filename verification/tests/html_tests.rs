use diffstory::html::format_date;
use diffstory::html::html_escape;
use diffstory::html::parse_hunk_start;

#[test]
fn test_html_escape() {
    assert_eq!(html_escape("a < b & c > \"d\""), "a &lt; b &amp; c &gt; &quot;d&quot;");
    assert_eq!(html_escape("plain"), "plain");
    assert_eq!(html_escape(""), "");
}

#[test]
fn test_format_date() {
    assert_eq!(format_date("2024-01-15T10:30:00Z"), "2024-01-15");
    assert_eq!(format_date("2024-01-15"), "2024-01-15");
}

#[test]
fn test_parse_hunk_start() {
    assert_eq!(parse_hunk_start("@@ -1,3 +1,4 @@"), (1, 1));
    assert_eq!(parse_hunk_start("@@ -10,3 +11,4 @@ fn main()"), (11, 10));
    assert_eq!(parse_hunk_start("@@ -7 +9 @@"), (9, 7));
    // Malformed headers fall back to 1 on each side.
    assert_eq!(parse_hunk_start("nonsense"), (1, 1));
}
