//! The compute side of talking to a review-hosting service: parsing change
//! request URLs, recovering an embedded narrative from a description body,
//! and splitting the concatenated JSON arrays a paginating client returns.
//! The process invocation and deserialization around these live with the
//! program shell, which hands this module plain text.

use vstd::prelude::*;

use vstd::string::StringExecFns;

use crate::codec;
use crate::codec::spec_extract_from_text;
use crate::strutil::char_eq;
use crate::strutil::find_sub;
use crate::strutil::lemma_find_props;
use crate::strutil::match_at;
use crate::strutil::parse_u64;
use crate::strutil::spec_find;
use crate::strutil::spec_parse_u64;
use crate::strutil::str_eq;
use crate::strutil::str_starts_with;
use crate::strutil::substr;

verus! {

/// The failures the URL and body handling can signal. The process-level
/// failures of fetching (a missing client binary, a failed request, a
/// deserialization error) are reported by the program shell around this
/// module.
#[derive(Debug, Clone)]
pub enum GithubError {
    NoStoryline,
    InvalidPrUrl(String),
}

/// The metadata of one change request, as plain values.
#[derive(Debug, Clone)]
pub struct PrInfo {
    pub title: String,
    pub author: String,
    pub body: String,
    /// e.g. "owner/repo"
    pub repo: String,
    /// Change request number
    pub number: u64,
    /// HEAD commit id, for creating review comments
    pub head_sha: String,
}

/// The segments of a text split at every `/`.
pub open spec fn spec_split_slash(s: Seq<char>) -> Seq<Seq<char>>
    decreases s.len(),
{
    match spec_find(s, "/"@) {
        None => seq![s],
        Some(i) => {
            if s.len() == 0 {
                seq![s]
            } else {
                let j = if i < 0 {
                    0int
                } else if i >= s.len() {
                    s.len() - 1
                } else {
                    i
                };
                seq![s.take(j)] + spec_split_slash(s.skip(j + 1))
            }
        },
    }
}

fn split_slash(s: &str) -> (r: Vec<String>)
    ensures
        r.deep_view() == spec_split_slash(s@),
        r@.len() > 0,
    decreases s@.len(),
{
    proof {
        reveal_strlit("/");
        lemma_find_props(s@, "/"@);
    }
    match find_sub(s, "/") {
        None => {
            let mut v: Vec<String> = Vec::new();
            v.push(s.to_owned());
            proof {
                assert(v.deep_view() =~= spec_split_slash(s@));
            }
            v
        },
        Some(i) => {
            proof {
                assert(match_at(s@, "/"@, i as int));
            }
            let n = s.unicode_len();
            let head = substr(s, 0, i);
            let tail = substr(s, i + 1, n);
            proof {
                assert(tail@ =~= s@.skip(i + 1));
            }
            let mut rest = split_slash(tail.as_str());
            let ghost pre = rest.deep_view();
            rest.insert(0, head);
            proof {
                assert(rest.deep_view() =~= seq![s@.take(i as int)] + pre);
            }
            rest
        },
    }
}

/// The meaning of URL parsing: drop an optional scheme, demand the
/// `github.com/` host, then read `owner/repo/pull/<number>` from the path.
pub open spec fn spec_parse_pr_url(url: Seq<char>) -> Option<(Seq<char>, u64)> {
    let path = if "https://"@.is_prefix_of(url) {
        url.skip(8)
    } else if "http://"@.is_prefix_of(url) {
        url.skip(7)
    } else {
        url
    };
    if !("github.com/"@.is_prefix_of(path)) {
        None
    } else {
        let parts = spec_split_slash(path.skip(11));
        if parts.len() < 4 || parts[2] != "pull"@ {
            None
        } else {
            match spec_parse_u64(parts[3]) {
                None => None,
                Some(n) => Some((parts[0] + "/"@ + parts[1], n)),
            }
        }
    }
}

/// Parse a change request URL into (owner/repo, number).
///
/// Accepts formats like:
/// - `https://github.com/owner/repo/pull/123`
/// - `github.com/owner/repo/pull/123`
pub fn parse_pr_url(url: &str) -> (r: Result<(String, u64), GithubError>)
    ensures
        match r {
            Ok(p) => spec_parse_pr_url(url@) == Some((p.0@, p.1)),
            Err(GithubError::InvalidPrUrl(u)) => spec_parse_pr_url(url@) is None && u@ == url@,
            Err(GithubError::NoStoryline) => false,
        },
{
    proof {
        reveal_strlit("https://");
        reveal_strlit("http://");
        reveal_strlit("github.com/");
        reveal_strlit("pull");
        reveal_strlit("/");
    }
    let n = url.unicode_len();
    let path = if str_starts_with(url, "https://") {
        substr(url, 8, n)
    } else if str_starts_with(url, "http://") {
        substr(url, 7, n)
    } else {
        substr(url, 0, n)
    };
    proof {
        assert(path@ =~= if "https://"@.is_prefix_of(url@) {
            url@.skip(8)
        } else if "http://"@.is_prefix_of(url@) {
            url@.skip(7)
        } else {
            url@
        });
    }
    if !str_starts_with(path.as_str(), "github.com/") {
        return Err(GithubError::InvalidPrUrl(url.to_owned()));
    }
    let pn = path.as_str().unicode_len();
    let rest = substr(path.as_str(), 11, pn);
    proof {
        assert(rest@ =~= path@.skip(11));
    }
    let parts = split_slash(rest.as_str());
    if parts.len() < 4 {
        return Err(GithubError::InvalidPrUrl(url.to_owned()));
    }
    proof {
        assert(parts.deep_view()[2] == parts@[2]@);
        assert(parts.deep_view()[3] == parts@[3]@);
        assert(parts.deep_view()[0] == parts@[0]@);
        assert(parts.deep_view()[1] == parts@[1]@);
    }
    if !str_eq(parts[2].as_str(), "pull") {
        return Err(GithubError::InvalidPrUrl(url.to_owned()));
    }
    let number = match parse_u64(parts[3].as_str()) {
        Some(v) => v,
        None => {
            return Err(GithubError::InvalidPrUrl(url.to_owned()));
        },
    };
    let mut repo = parts[0].clone();
    repo.append("/");
    repo.append(parts[1].as_str());
    proof {
        assert(repo@ =~= parts.deep_view()[0] + "/"@ + parts.deep_view()[1]);
    }
    Ok((repo, number))
}

/// Extract encoded narrative data from a description body.
pub fn extract_storyline_from_body(body: &str) -> (r: Result<String, GithubError>)
    ensures
        match r {
            Ok(s) => spec_extract_from_text(body@) == Some(s@),
            Err(e) => spec_extract_from_text(body@) is None && e is NoStoryline,
        },
{
    match codec::extract_from_text(body) {
        Ok(s) => Ok(s),
        Err(_) => Err(GithubError::NoStoryline),
    }
}

/// The complete bracket-balanced arrays of a text, found by scanning every
/// character and counting bracket depth: each chunk runs from a `[` seen
/// at depth zero to the `]` that returns to depth zero.
pub open spec fn spec_array_chunks(s: Seq<char>, i: int, depth: int, start: int) -> Seq<Seq<char>>
    decreases s.len() - i,
{
    if i < 0 || i >= s.len() {
        Seq::empty()
    } else if s[i] == '[' {
        spec_array_chunks(
            s,
            i + 1,
            depth + 1,
            if depth == 0 {
                i
            } else {
                start
            },
        )
    } else if s[i] == ']' {
        if depth - 1 == 0 {
            seq![s.subrange(start, i + 1)] + spec_array_chunks(s, i + 1, 0, start)
        } else {
            spec_array_chunks(s, i + 1, depth - 1, start)
        }
    } else {
        spec_array_chunks(s, i + 1, depth, start)
    }
}

/// Split text that holds several JSON arrays written back to back, as a
/// paginating client concatenates them, into the individual arrays.
pub fn split_concatenated_arrays(s: &str) -> (r: Vec<String>)
    ensures
        r.deep_view() == spec_array_chunks(s@, 0, 0, 0),
{
    let n = s.unicode_len();
    let mut out: Vec<String> = Vec::new();
    let mut i: usize = 0;
    let mut depth: i128 = 0;
    let mut start: usize = 0;
    let ghost full = spec_array_chunks(s@, 0, 0, 0);
    proof {
        assert(out.deep_view() =~= Seq::<Seq<char>>::empty());
    }
    while i < n
        invariant
            0 <= i <= n,
            0 <= start <= n,
            n == s@.len(),
            -(i as int) <= depth <= i as int,
            depth >= 1 ==> start <= i,
            full == out.deep_view() + spec_array_chunks(s@, i as int, depth as int, start as int),
        decreases n - i,
    {
        let c = s.get_char(i);
        if char_eq(c, '[') {
            if depth == 0 {
                start = i;
            }
            depth = depth + 1;
        } else if char_eq(c, ']') {
            depth = depth - 1;
            if depth == 0 {
                let chunk = substr(s, start, i + 1);
                let ghost pre = out.deep_view();
                out.push(chunk);
                proof {
                    assert(out.deep_view() =~= pre.push(s@.subrange(start as int, i + 1)));
                    assert(pre + (seq![s@.subrange(start as int, i + 1)] + spec_array_chunks(
                        s@,
                        i + 1,
                        0,
                        start as int,
                    )) =~= out.deep_view() + spec_array_chunks(s@, i + 1, 0, start as int));
                }
            }
        }
        i = i + 1;
    }
    proof {
        assert(spec_array_chunks(s@, n as int, depth as int, start as int) =~= Seq::<
            Seq<char>,
        >::empty());
        assert(out.deep_view() + Seq::<Seq<char>>::empty() =~= out.deep_view());
    }
    out
}

} // verus!