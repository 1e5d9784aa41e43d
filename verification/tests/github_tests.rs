use diffstory::github::extract_storyline_from_body;
use diffstory::github::parse_pr_url;
use diffstory::github::split_concatenated_arrays;
use diffstory::github::GithubError;

#[test]
fn test_parse_pr_url() {
    let (repo, num) = parse_pr_url("https://github.com/owner/repo/pull/123").unwrap();
    assert_eq!(repo, "owner/repo");
    assert_eq!(num, 123);

    let (repo, num) = parse_pr_url("github.com/foo/bar/pull/42").unwrap();
    assert_eq!(repo, "foo/bar");
    assert_eq!(num, 42);
}

#[test]
fn test_parse_pr_url_invalid() {
    assert!(parse_pr_url("https://gitlab.com/owner/repo/pull/123").is_err());
    assert!(parse_pr_url("https://github.com/owner/repo/issues/123").is_err());
    assert!(parse_pr_url("not-a-url").is_err());
}

#[test]
fn test_invalid_url_error_names_input() {
    match parse_pr_url("not-a-url") {
        Err(GithubError::InvalidPrUrl(u)) => assert_eq!(u, "not-a-url"),
        _ => panic!("expected InvalidPrUrl"),
    }
}

#[test]
fn test_split_concatenated_arrays() {
    // A single array is one chunk.
    assert_eq!(split_concatenated_arrays("[1,2,3]"), vec!["[1,2,3]"]);
    // Concatenated arrays split at the top-level brackets.
    assert_eq!(
        split_concatenated_arrays("[1,2][3,4]"),
        vec!["[1,2]", "[3,4]"]
    );
    // Nested brackets stay inside their chunk.
    assert_eq!(
        split_concatenated_arrays("[[1],[2]][3]"),
        vec!["[[1],[2]]", "[3]"]
    );
    // No arrays, no chunks.
    assert!(split_concatenated_arrays("").is_empty());
}

#[test]
fn test_extract_storyline_from_body() {
    let body = "PR text\n<!--diffstory:payload==-->\nmore";
    assert_eq!(extract_storyline_from_body(body).unwrap(), "payload==");
    match extract_storyline_from_body("nothing embedded") {
        Err(GithubError::NoStoryline) => {}
        _ => panic!("expected NoStoryline"),
    }
}
