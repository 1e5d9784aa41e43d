//! Re-anchoring externally sourced, line-numbered review comments onto
//! hunk-relative offsets: replay the old-side/new-side line counters through
//! each hunk, try the comment's current position first and its original
//! position second, and report comments that fit neither as unmappable.

use vstd::prelude::*;

use crate::diff_parser::Hunk;
use crate::diff_parser::DiffLine;
use crate::diff_parser::SpecHunk;
use crate::diff_parser::SpecDiffLine;
use crate::diff_parser::SpecFileDiff;
use crate::diff_parser::ParsedDiff;
use crate::diff_parser::spec_display_path;
use crate::model::view_opt_string;
use crate::strutil::str_eq;
use crate::strutil::str_starts_with;
use crate::strutil::substr;
use crate::strutil::find_sub;
use crate::strutil::spec_find;
use crate::strutil::spec_parse_u32;
use crate::strutil::parse_u32;
use crate::strutil::lemma_find_props;
use vstd::multiset::Multiset;

verus! {

/// A line-anchored review comment as fetched from the hosting service.
#[derive(Debug, Clone)]
pub struct ReviewComment {
    pub id: u64,
    pub path: String,
    pub line: Option<u32>,
    pub original_line: Option<u32>,
    pub side: Option<String>,
    pub body: String,
    pub user: CommentUser,
    pub created_at: String,
    pub in_reply_to_id: Option<u64>,
}

/// A general discussion comment on the change as a whole.
#[derive(Debug, Clone)]
pub struct IssueComment {
    pub id: u64,
    pub body: String,
    pub user: CommentUser,
    pub created_at: String,
}

#[derive(Debug, Clone)]
pub struct CommentUser {
    pub login: String,
}

/// A review comment mapped to a specific hunk position.
#[derive(Debug, Clone)]
pub struct MappedComment {
    pub comment: ReviewComment,
    /// Offset within the hunk's lines where this comment applies.
    pub line_offset: usize,
    /// True if mapped via original_line (comment may be stale).
    pub is_outdated: bool,
}

/// A thread of review comments (root + replies).
#[derive(Debug, Clone)]
pub struct CommentThread {
    pub root: MappedComment,
    pub replies: Vec<ReviewComment>,
}

/// A review comment that couldn't be mapped to any current hunk.
#[derive(Debug, Clone)]
pub struct OutdatedComment {
    pub comment: ReviewComment,
    pub file: String,
}

pub ghost struct SpecCommentUser {
    pub login: Seq<char>,
}

pub ghost struct SpecReviewComment {
    pub id: u64,
    pub path: Seq<char>,
    pub line: Option<u32>,
    pub original_line: Option<u32>,
    pub side: Option<Seq<char>>,
    pub body: Seq<char>,
    pub user: SpecCommentUser,
    pub created_at: Seq<char>,
    pub in_reply_to_id: Option<u64>,
}

pub ghost struct SpecIssueComment {
    pub id: u64,
    pub body: Seq<char>,
    pub user: SpecCommentUser,
    pub created_at: Seq<char>,
}

pub ghost struct SpecMappedComment {
    pub comment: SpecReviewComment,
    pub line_offset: int,
    pub is_outdated: bool,
}

pub ghost struct SpecCommentThread {
    pub root: SpecMappedComment,
    pub replies: Seq<SpecReviewComment>,
}

pub ghost struct SpecOutdatedComment {
    pub comment: SpecReviewComment,
    pub file: Seq<char>,
}

impl View for CommentUser {
    type V = SpecCommentUser;

    open spec fn view(&self) -> SpecCommentUser {
        SpecCommentUser { login: self.login@ }
    }
}

impl View for ReviewComment {
    type V = SpecReviewComment;

    open spec fn view(&self) -> SpecReviewComment {
        SpecReviewComment {
            id: self.id,
            path: self.path@,
            line: self.line,
            original_line: self.original_line,
            side: view_opt_string(self.side),
            body: self.body@,
            user: self.user@,
            created_at: self.created_at@,
            in_reply_to_id: self.in_reply_to_id,
        }
    }
}

impl View for IssueComment {
    type V = SpecIssueComment;

    open spec fn view(&self) -> SpecIssueComment {
        SpecIssueComment {
            id: self.id,
            body: self.body@,
            user: self.user@,
            created_at: self.created_at@,
        }
    }
}

impl View for MappedComment {
    type V = SpecMappedComment;

    open spec fn view(&self) -> SpecMappedComment {
        SpecMappedComment {
            comment: self.comment@,
            line_offset: self.line_offset as int,
            is_outdated: self.is_outdated,
        }
    }
}

impl View for CommentThread {
    type V = SpecCommentThread;

    open spec fn view(&self) -> SpecCommentThread {
        SpecCommentThread {
            root: self.root@,
            replies: self.replies@.map_values(|c: ReviewComment| c@),
        }
    }
}

impl View for OutdatedComment {
    type V = SpecOutdatedComment;

    open spec fn view(&self) -> SpecOutdatedComment {
        SpecOutdatedComment { comment: self.comment@, file: self.file@ }
    }
}

/// The meaning of one `-a,b` or `+c,d` range: the count defaults to 1 when
/// omitted.
pub open spec fn spec_parse_range(s: Seq<char>) -> Option<(u32, u32)> {
    match spec_find(s, ","@) {
        Some(p) => match (spec_parse_u32(s.take(p)), spec_parse_u32(s.skip(p + 1))) {
            (Some(a), Some(b)) => Some((a, b)),
            _ => None,
        },
        None => match spec_parse_u32(s) {
            Some(a) => Some((a, 1)),
            None => None,
        },
    }
}

/// The meaning of a hunk header `@@ -a,b +c,d @@ ...`: the two ranges
/// between the markers, as (old_start, old_count, new_start, new_count).
pub open spec fn spec_parse_hunk_header(h: Seq<char>) -> Option<(u32, u32, u32, u32)> {
    if !("@@ "@.is_prefix_of(h)) {
        None
    } else {
        let rest = h.skip(3);
        match spec_find(rest, " @@"@) {
            None => None,
            Some(end) => {
                let range = rest.take(end);
                match spec_find(range, " "@) {
                    None => None,
                    Some(sp) => {
                        let old_part = range.take(sp);
                        let rest2 = range.skip(sp + 1);
                        let new_part = match spec_find(rest2, " "@) {
                            Some(sp2) => rest2.take(sp2),
                            None => rest2,
                        };
                        if "-"@.is_prefix_of(old_part) && "+"@.is_prefix_of(new_part) {
                            match (
                                spec_parse_range(old_part.skip(1)),
                                spec_parse_range(new_part.skip(1)),
                            ) {
                                (Some(o), Some(n)) => Some((o.0, o.1, n.0, n.1)),
                                _ => None,
                            }
                        } else {
                            None
                        }
                    },
                }
            },
        }
    }
}

/// Parse one side of a hunk range, `start` or `start,count`.
pub fn parse_range(s: &str) -> (r: Option<(u32, u32)>)
    ensures
        r == spec_parse_range(s@),
{
    proof {
        reveal_strlit(",");
    }
    let n = s.unicode_len();
    match find_sub(s, ",") {
        Some(p) => {
            proof {
                lemma_find_props(s@, ","@);
            }
            let start = substr(s, 0, p);
            let count = substr(s, p + 1, n);
            proof {
                assert(start@ =~= s@.take(p as int));
                assert(count@ =~= s@.skip(p + 1));
            }
            match (parse_u32(start.as_str()), parse_u32(count.as_str())) {
                (Some(a), Some(b)) => Some((a, b)),
                _ => None,
            }
        },
        None => match parse_u32(s) {
            Some(a) => Some((a, 1)),
            None => None,
        },
    }
}

/// Parse `@@ -a,b +c,d @@` header into (old_start, old_count, new_start,
/// new_count).
pub fn parse_hunk_header(header: &str) -> (r: Option<(u32, u32, u32, u32)>)
    ensures
        r == spec_parse_hunk_header(header@),
{
    proof {
        reveal_strlit("@@ ");
        reveal_strlit(" @@");
        reveal_strlit(" ");
        reveal_strlit("-");
        reveal_strlit("+");
    }
    if !str_starts_with(header, "@@ ") {
        return None;
    }
    let n = header.unicode_len();
    let rest = substr(header, 3, n);
    proof {
        assert(rest@ =~= header@.skip(3));
    }
    let end = match find_sub(rest.as_str(), " @@") {
        Some(e) => e,
        None => {
            return None;
        },
    };
    proof {
        lemma_find_props(rest@, " @@"@);
    }
    let range = substr(rest.as_str(), 0, end);
    proof {
        assert(range@ =~= rest@.take(end as int));
    }
    let rn = range.as_str().unicode_len();
    let sp = match find_sub(range.as_str(), " ") {
        Some(p) => p,
        None => {
            return None;
        },
    };
    proof {
        lemma_find_props(range@, " "@);
    }
    let old_part = substr(range.as_str(), 0, sp);
    let rest2 = substr(range.as_str(), sp + 1, rn);
    proof {
        assert(old_part@ =~= range@.take(sp as int));
        assert(rest2@ =~= range@.skip(sp + 1));
    }
    let r2n = rest2.as_str().unicode_len();
    let new_part = match find_sub(rest2.as_str(), " ") {
        Some(sp2) => {
            proof {
                lemma_find_props(rest2@, " "@);
            }
            let np = substr(rest2.as_str(), 0, sp2);
            proof {
                assert(np@ =~= rest2@.take(sp2 as int));
            }
            np
        },
        None => rest2,
    };
    if !str_starts_with(old_part.as_str(), "-") || !str_starts_with(new_part.as_str(), "+") {
        return None;
    }
    let on = old_part.as_str().unicode_len();
    let nn = new_part.as_str().unicode_len();
    let old_digits = substr(old_part.as_str(), 1, on);
    let new_digits = substr(new_part.as_str(), 1, nn);
    proof {
        assert(old_digits@ =~= old_part@.skip(1));
        assert(new_digits@ =~= new_part@.skip(1));
    }
    match (parse_range(old_digits.as_str()), parse_range(new_digits.as_str())) {
        (Some(o), Some(nw)) => Some((o.0, o.1, nw.0, nw.1)),
        _ => None,
    }
}

/// Does the old-side counter advance over this line?
pub open spec fn old_step(l: SpecDiffLine) -> int {
    match l {
        SpecDiffLine::Context(_) => 1,
        SpecDiffLine::Deletion(_) => 1,
        SpecDiffLine::Addition(_) => 0,
        SpecDiffLine::NoNewlineAtEof => 0,
    }
}

/// Does the new-side counter advance over this line?
pub open spec fn new_step(l: SpecDiffLine) -> int {
    match l {
        SpecDiffLine::Context(_) => 1,
        SpecDiffLine::Addition(_) => 1,
        SpecDiffLine::Deletion(_) => 0,
        SpecDiffLine::NoNewlineAtEof => 0,
    }
}

/// Does this line anchor the target? A context line is addressable from
/// either side; an addition only from the new side; a deletion only from
/// the old side.
pub open spec fn line_hits(l: SpecDiffLine, ol: int, nl: int, target: int, is_left: bool) -> bool {
    match l {
        SpecDiffLine::Context(_) => (is_left && ol == target) || (!is_left && nl == target),
        SpecDiffLine::Addition(_) => !is_left && nl == target,
        SpecDiffLine::Deletion(_) => is_left && ol == target,
        SpecDiffLine::NoNewlineAtEof => false,
    }
}

/// First offset in a hunk body whose replayed counters anchor the target.
pub open spec fn find_in_lines(
    ls: Seq<SpecDiffLine>,
    ol: int,
    nl: int,
    target: int,
    is_left: bool,
) -> Option<int>
    decreases ls.len(),
{
    if ls.len() == 0 {
        None
    } else if line_hits(ls[0], ol, nl, target, is_left) {
        Some(0)
    } else {
        match find_in_lines(
            ls.drop_first(),
            ol + old_step(ls[0]),
            nl + new_step(ls[0]),
            target,
            is_left,
        ) {
            Some(k) => Some(k + 1),
            None => None,
        }
    }
}

/// First (hunk, offset) that anchors the target, walking hunks in order.
/// A hunk whose header cannot be parsed ends the whole search.
pub open spec fn find_in_hunks(hs: Seq<SpecHunk>, target: int, is_left: bool) -> Option<(int, int)>
    decreases hs.len(),
{
    if hs.len() == 0 {
        None
    } else {
        match spec_parse_hunk_header(hs[0].header) {
            None => None,
            Some(hdr) => match find_in_lines(hs[0].lines, hdr.0 as int, hdr.2 as int, target,
                is_left) {
                Some(off) => Some((0, off)),
                None => match find_in_hunks(hs.drop_first(), target, is_left) {
                    Some(p) => Some((p.0 + 1, p.1)),
                    None => None,
                },
            },
        }
    }
}

/// Past the target, the counters never come back: the relevant counter is
/// nondecreasing, so once it exceeds the target nothing below matches.
proof fn lemma_counter_no_hit(
    ls: Seq<SpecDiffLine>,
    ol: int,
    nl: int,
    target: int,
    is_left: bool,
)
    requires
        is_left ==> ol > target,
        !is_left ==> nl > target,
    ensures
        find_in_lines(ls, ol, nl, target, is_left) is None,
    decreases ls.len(),
{
    if ls.len() > 0 {
        lemma_counter_no_hit(
            ls.drop_first(),
            ol + old_step(ls[0]),
            nl + new_step(ls[0]),
            target,
            is_left,
        )
    }
}

/// Replay the counters through one hunk body looking for the target.
fn scan_hunk_lines(h: &Hunk, old_start: u32, new_start: u32, target: u32, is_left: bool) -> (r:
    Option<usize>)
    ensures
        match r {
            Some(off) => find_in_lines(
                h@.lines,
                old_start as int,
                new_start as int,
                target as int,
                is_left,
            ) == Some(off as int) && off < h.lines@.len(),
            None => find_in_lines(
                h@.lines,
                old_start as int,
                new_start as int,
                target as int,
                is_left,
            ) is None,
        },
{
    let ghost ls = h@.lines;
    let nl_count = h.lines.len();
    let mut k: usize = 0;
    let mut cnt: u64 = if is_left {
        old_start as u64
    } else {
        new_start as u64
    };
    let ghost mut ol: int = old_start as int;
    let ghost mut nl: int = new_start as int;
    proof {
        assert(ls.skip(0) =~= ls);
        assert(ls.len() == h.lines@.len());
    }
    loop
        invariant
            0 <= k <= ls.len(),
            ls == h@.lines,
            nl_count == ls.len(),
            nl_count == h.lines@.len(),
            cnt == if is_left {
                ol
            } else {
                nl
            },
            find_in_lines(ls, old_start as int, new_start as int, target as int, is_left)
                == match find_in_lines(ls.skip(k as int), ol, nl, target as int, is_left) {
                Some(off) => Some(off + k),
                None => None::<int>,
            },
        decreases ls.len() - k,
    {
        if k >= nl_count {
            proof {
                assert(ls.skip(k as int).len() == 0);
            }
            return None;
        }
        if cnt > u32::MAX as u64 {
            proof {
                lemma_counter_no_hit(ls.skip(k as int), ol, nl, target as int, is_left);
            }
            return None;
        }
        let ghost head = ls.skip(k as int)[0];
        proof {
            assert(head == ls[k as int]);
            assert(ls.skip(k as int).drop_first() =~= ls.skip(k + 1));
        }
        let hit: bool;
        let dl = &h.lines[k];
        proof {
            assert(h.lines@[k as int]@ == ls[k as int]);
        }
        match dl {
            DiffLine::Context(_) => {
                hit = cnt == target as u64;
            },
            DiffLine::Addition(_) => {
                hit = !is_left && cnt == target as u64;
            },
            DiffLine::Deletion(_) => {
                hit = is_left && cnt == target as u64;
            },
            DiffLine::NoNewlineAtEof => {
                hit = false;
            },
        }
        if hit {
            proof {
                assert(line_hits(head, ol, nl, target as int, is_left));
                assert(find_in_lines(ls.skip(k as int), ol, nl, target as int, is_left) == Some(
                    0int,
                ));
            }
            return Some(k);
        }
        proof {
            assert(!line_hits(head, ol, nl, target as int, is_left));
        }
        match dl {
            DiffLine::Context(_) => {
                cnt = cnt + 1;
                proof {
                    ol = ol + 1;
                    nl = nl + 1;
                }
            },
            DiffLine::Addition(_) => {
                if !is_left {
                    cnt = cnt + 1;
                }
                proof {
                    nl = nl + 1;
                }
            },
            DiffLine::Deletion(_) => {
                if is_left {
                    cnt = cnt + 1;
                }
                proof {
                    ol = ol + 1;
                }
            },
            DiffLine::NoNewlineAtEof => {},
        }
        k = k + 1;
    }
}



/// Walk hunks in order, replaying the counters from each header.
fn find_line_in_hunks_impl(hunks: &Vec<Hunk>, target: u32, is_left: bool) -> (r: Option<
    (usize, usize),
>)
    ensures
        match r {
            Some(p) => find_in_hunks(hunks@.map_values(|h: Hunk| h@), target as int, is_left)
                == Some((p.0 as int, p.1 as int)) && p.0 < hunks@.len(),
            None => find_in_hunks(hunks@.map_values(|h: Hunk| h@), target as int, is_left) is None,
        },
{
    let ghost hs = hunks@.map_values(|h: Hunk| h@);
    let n = hunks.len();
    let mut hi: usize = 0;
    proof {
        assert(hs.skip(0) =~= hs);
    }
    loop
        invariant
            0 <= hi <= n,
            n == hunks@.len(),
            hs == hunks@.map_values(|h: Hunk| h@),
            hs.len() == n,
            find_in_hunks(hs, target as int, is_left) == match find_in_hunks(
                hs.skip(hi as int),
                target as int,
                is_left,
            ) {
                Some(p) => Some(((p.0 + hi) as int, p.1)),
                None => None::<(int, int)>,
            },
        decreases n - hi,
    {
        if hi >= n {
            proof {
                assert(hs.skip(hi as int).len() == 0);
            }
            return None;
        }
        let h = &hunks[hi];
        proof {
            assert(hs.skip(hi as int)[0] == hs[hi as int]);
            assert(hs[hi as int] == h@);
            assert(hs.skip(hi as int).drop_first() =~= hs.skip(hi + 1));
        }
        match parse_hunk_header(h.header.as_str()) {
            None => {
                proof {
                    assert(find_in_hunks(hs.skip(hi as int), target as int, is_left) is None);
                }
                return None;
            },
            Some((os, _oc, ns, _nc)) => {
                match scan_hunk_lines(h, os, ns, target, is_left) {
                    Some(off) => {
                        proof {
                            assert(find_in_hunks(hs.skip(hi as int), target as int, is_left)
                                == Some((0int, off as int)));
                        }
                        return Some((hi, off));
                    },
                    None => {
                        hi = hi + 1;
                    },
                }
            },
        }
    }
}

/// The side interpretation for the current-position attempt: the old side
/// only when the service says `LEFT`.
pub open spec fn side_is_left_new(side: Option<Seq<char>>) -> bool {
    match side {
        Some(s) => s == "LEFT"@,
        None => false,
    }
}

/// The side interpretation for the original-position attempt: the old side
/// unless the service says `RIGHT`.
pub open spec fn side_is_left_orig(side: Option<Seq<char>>) -> bool {
    match side {
        Some(s) => s != "RIGHT"@,
        None => true,
    }
}

/// Find which hunk contains a given new-side line number, returning
/// (hunk_index, line_offset).
pub fn find_line_in_hunks_new(hunks: &Vec<Hunk>, target_line: u32, side: &Option<String>) -> (r:
    Option<(usize, usize)>)
    ensures
        match r {
            Some(p) => find_in_hunks(
                hunks@.map_values(|h: Hunk| h@),
                target_line as int,
                side_is_left_new(view_opt_string(*side)),
            ) == Some((p.0 as int, p.1 as int)) && p.0 < hunks@.len(),
            None => find_in_hunks(
                hunks@.map_values(|h: Hunk| h@),
                target_line as int,
                side_is_left_new(view_opt_string(*side)),
            ) is None,
        },
{
    let is_left = match side {
        Some(s) => str_eq(s.as_str(), "LEFT"),
        None => false,
    };
    find_line_in_hunks_impl(hunks, target_line, is_left)
}

/// Find which hunk contains a given original-side line number (for
/// outdated comments).
pub fn find_line_in_hunks_original(hunks: &Vec<Hunk>, target_line: u32, side: &Option<String>) -> (r:
    Option<(usize, usize)>)
    ensures
        match r {
            Some(p) => find_in_hunks(
                hunks@.map_values(|h: Hunk| h@),
                target_line as int,
                side_is_left_orig(view_opt_string(*side)),
            ) == Some((p.0 as int, p.1 as int)) && p.0 < hunks@.len(),
            None => find_in_hunks(
                hunks@.map_values(|h: Hunk| h@),
                target_line as int,
                side_is_left_orig(view_opt_string(*side)),
            ) is None,
        },
{
    let is_left = match side {
        Some(s) => !str_eq(s.as_str(), "RIGHT"),
        None => true,
    };
    find_line_in_hunks_impl(hunks, target_line, is_left)
}

proof fn lemma_map_values_insert<A, B>(s: Seq<A>, i: int, a: A, f: spec_fn(A) -> B)
    requires
        0 <= i <= s.len(),
    ensures
        s.insert(i, a).map_values(f) =~= s.map_values(f).insert(i, f(a)),
{
}

proof fn lemma_seq_insert_to_multiset<A>(s: Seq<A>, i: int, a: A)
    requires
        0 <= i <= s.len(),
    ensures
        s.insert(i, a).to_multiset() =~= s.to_multiset().insert(a),
{
    broadcast use vstd::seq_lib::group_to_multiset_ensures;

    let left = s.subrange(0, i).push(a);
    let right = s.subrange(i, s.len() as int);
    vstd::seq_lib::lemma_multiset_commutative(left, right);
    vstd::seq_lib::lemma_multiset_commutative(s.subrange(0, i), right);
    assert(s.subrange(0, i) + right =~= s);
    assert(left.to_multiset() =~= s.subrange(0, i).to_multiset().insert(a));
}

/// Ascending creation-time order.
pub open spec fn sorted_by_created(s: Seq<SpecReviewComment>) -> bool {
    forall|i: int, j: int|
        0 <= i < j < s.len() ==> crate::strutil::lex_le(
            #[trigger] s[i].created_at,
            #[trigger] s[j].created_at,
        )
}

/// Ascending line-offset order.
pub open spec fn sorted_by_offset(s: Seq<SpecCommentThread>) -> bool {
    forall|i: int, j: int|
        0 <= i < j < s.len() ==> #[trigger] s[i].root.line_offset <= #[trigger] s[
            j
        ].root.line_offset
}

/// Sort review comments by creation time, ascending; equal keys keep their
/// relative input order.
fn sort_replies_by_created(v: Vec<ReviewComment>) -> (r: Vec<ReviewComment>)
    ensures
        r@.map_values(|c: ReviewComment| c@).to_multiset() == v@.map_values(
            |c: ReviewComment| c@,
        ).to_multiset(),
        sorted_by_created(r@.map_values(|c: ReviewComment| c@)),
        r@.len() == v@.len(),
{
    let ghost goal = v@.map_values(|c: ReviewComment| c@);
    let mut src = v;
    let mut out: Vec<ReviewComment> = Vec::new();
    proof {
        broadcast use vstd::seq_lib::group_to_multiset_ensures;

        assert(out@.map_values(|c: ReviewComment| c@).to_multiset() =~= Multiset::empty());
        assert(src@.map_values(|c: ReviewComment| c@) == goal);
    }
    while src.len() > 0
        invariant
            out@.map_values(|c: ReviewComment| c@).to_multiset().add(
                src@.map_values(|c: ReviewComment| c@).to_multiset(),
            ) =~= goal.to_multiset(),
            sorted_by_created(out@.map_values(|c: ReviewComment| c@)),
            out@.len() + src@.len() == goal.len(),
        decreases src.len(),
    {
        let ghost src_map = src@.map_values(|c: ReviewComment| c@);
        let c = src.remove(0);
        proof {
            broadcast use vstd::seq_lib::group_to_multiset_ensures;

            assert(src@.map_values(|c2: ReviewComment| c2@) =~= src_map.remove(0));
            assert(src_map[0] == c@);
            assert(src_map.remove(0).to_multiset() =~= src_map.to_multiset().remove(c@));
        }
        let ghost old_out_map = out@.map_values(|c2: ReviewComment| c2@);
        let n = out.len();
        let mut j: usize = 0;
        loop
            invariant
                0 <= j <= n,
                n == out@.len(),
                out@.map_values(|c2: ReviewComment| c2@) == old_out_map,
                forall|k: int|
                    0 <= k < j ==> crate::strutil::lex_le(
                        #[trigger] old_out_map[k].created_at,
                        c@.created_at,
                    ),
            ensures
                0 <= j <= n,
                n == out@.len(),
                out@.map_values(|c2: ReviewComment| c2@) == old_out_map,
                forall|k: int|
                    0 <= k < j ==> crate::strutil::lex_le(
                        #[trigger] old_out_map[k].created_at,
                        c@.created_at,
                    ),
                j < n ==> crate::strutil::lex_le(
                    c@.created_at,
                    old_out_map[j as int].created_at,
                ),
            decreases n - j,
        {
            if j >= n {
                break;
            }
            if !crate::strutil::str_le(out[j].created_at.as_str(), c.created_at.as_str()) {
                proof {
                    assert(old_out_map[j as int] == out@[j as int]@);
                    crate::strutil::lemma_lex_le_total(
                        old_out_map[j as int].created_at,
                        c@.created_at,
                    );
                }
                break;
            }
            proof {
                assert(old_out_map[j as int] == out@[j as int]@);
            }
            j = j + 1;
        }
        let ghost cv = c@;
        let ghost jj = j as int;
        let ghost pre = out@;
        out.insert(j, c);
        proof {
            broadcast use vstd::seq_lib::group_to_multiset_ensures;

            lemma_map_values_insert(pre, jj, c, |c2: ReviewComment| c2@);
            let new_map = out@.map_values(|c2: ReviewComment| c2@);
            assert(new_map =~= old_out_map.insert(jj, cv));
            lemma_seq_insert_to_multiset(old_out_map, jj, cv);
            assert(new_map.to_multiset() =~= old_out_map.to_multiset().insert(cv));
            assert forall|x: int, y: int| 0 <= x < y < new_map.len() implies crate::strutil::lex_le(
                #[trigger] new_map[x].created_at,
                #[trigger] new_map[y].created_at,
            ) by {
                if y == jj {
                    assert(new_map[x] == old_out_map[x]);
                } else if x == jj {
                    let w = old_out_map[y - 1];
                    assert(new_map[y] == w);
                    if y - 1 > jj {
                        crate::strutil::lemma_lex_le_trans(
                            cv.created_at,
                            old_out_map[jj].created_at,
                            w.created_at,
                        );
                    }
                } else if x < jj && y > jj {
                    assert(new_map[x] == old_out_map[x]);
                    assert(new_map[y] == old_out_map[y - 1]);
                } else if x > jj {
                    assert(new_map[x] == old_out_map[x - 1]);
                    assert(new_map[y] == old_out_map[y - 1]);
                } else {
                    assert(new_map[x] == old_out_map[x]);
                    assert(new_map[y] == old_out_map[y]);
                }
            }
        }
    }
    proof {
        assert(src@.map_values(|c: ReviewComment| c@).to_multiset() =~= Multiset::empty());
        assert(out@.map_values(|c: ReviewComment| c@).to_multiset() =~= goal.to_multiset());
    }
    out
}

/// Sort threads by their anchor offset, ascending.
fn sort_threads_by_offset(v: Vec<CommentThread>) -> (r: Vec<CommentThread>)
    ensures
        r@.map_values(|t: CommentThread| t@).to_multiset() == v@.map_values(
            |t: CommentThread| t@,
        ).to_multiset(),
        sorted_by_offset(r@.map_values(|t: CommentThread| t@)),
        r@.len() == v@.len(),
{
    let ghost goal = v@.map_values(|t: CommentThread| t@);
    let mut src = v;
    let mut out: Vec<CommentThread> = Vec::new();
    proof {
        broadcast use vstd::seq_lib::group_to_multiset_ensures;

        assert(out@.map_values(|t: CommentThread| t@).to_multiset() =~= Multiset::empty());
    }
    while src.len() > 0
        invariant
            out@.map_values(|t: CommentThread| t@).to_multiset().add(
                src@.map_values(|t: CommentThread| t@).to_multiset(),
            ) =~= goal.to_multiset(),
            sorted_by_offset(out@.map_values(|t: CommentThread| t@)),
            out@.len() + src@.len() == goal.len(),
        decreases src.len(),
    {
        let ghost src_map = src@.map_values(|t: CommentThread| t@);
        let c = src.remove(0);
        proof {
            broadcast use vstd::seq_lib::group_to_multiset_ensures;

            assert(src@.map_values(|t: CommentThread| t@) =~= src_map.remove(0));
            assert(src_map[0] == c@);
            assert(src_map.remove(0).to_multiset() =~= src_map.to_multiset().remove(c@));
        }
        let ghost old_out_map = out@.map_values(|t: CommentThread| t@);
        let n = out.len();
        let mut j: usize = 0;
        loop
            invariant
                0 <= j <= n,
                n == out@.len(),
                out@.map_values(|t: CommentThread| t@) == old_out_map,
                forall|k: int|
                    0 <= k < j ==> #[trigger] old_out_map[k].root.line_offset
                        <= c@.root.line_offset,
            ensures
                0 <= j <= n,
                n == out@.len(),
                out@.map_values(|t: CommentThread| t@) == old_out_map,
                forall|k: int|
                    0 <= k < j ==> #[trigger] old_out_map[k].root.line_offset
                        <= c@.root.line_offset,
                j < n ==> c@.root.line_offset <= old_out_map[j as int].root.line_offset,
            decreases n - j,
        {
            if j >= n {
                break;
            }
            proof {
                assert(old_out_map[j as int] == out@[j as int]@);
            }
            if out[j].root.line_offset > c.root.line_offset {
                break;
            }
            j = j + 1;
        }
        let ghost cv = c@;
        let ghost jj = j as int;
        let ghost pre = out@;
        out.insert(j, c);
        proof {
            broadcast use vstd::seq_lib::group_to_multiset_ensures;

            lemma_map_values_insert(pre, jj, c, |t: CommentThread| t@);
            let new_map = out@.map_values(|t: CommentThread| t@);
            assert(new_map =~= old_out_map.insert(jj, cv));
            lemma_seq_insert_to_multiset(old_out_map, jj, cv);
            assert(new_map.to_multiset() =~= old_out_map.to_multiset().insert(cv));
            assert forall|x: int, y: int| 0 <= x < y < new_map.len() implies #[trigger] new_map[
                x
            ].root.line_offset <= #[trigger] new_map[y].root.line_offset by {
                if y == jj {
                    assert(new_map[x] == old_out_map[x]);
                } else if x == jj {
                    assert(new_map[y] == old_out_map[y - 1]);
                } else if x < jj && y > jj {
                    assert(new_map[x] == old_out_map[x]);
                    assert(new_map[y] == old_out_map[y - 1]);
                } else if x > jj {
                    assert(new_map[x] == old_out_map[x - 1]);
                    assert(new_map[y] == old_out_map[y - 1]);
                } else {
                    assert(new_map[x] == old_out_map[x]);
                    assert(new_map[y] == old_out_map[y]);
                }
            }
        }
    }
    proof {
        assert(src@.map_values(|t: CommentThread| t@).to_multiset() =~= Multiset::empty());
        assert(out@.map_values(|t: CommentThread| t@).to_multiset() =~= goal.to_multiset());
    }
    out
}

/// A root comment starts a thread; every other comment replies to one.
pub open spec fn is_root_comment(c: SpecReviewComment) -> bool {
    c.in_reply_to_id is None
}

/// The thread roots of a comment list, in input order.
pub open spec fn spec_roots(cs: Seq<SpecReviewComment>) -> Seq<SpecReviewComment>
    decreases cs.len(),
{
    if cs.len() == 0 {
        Seq::empty()
    } else {
        let p = spec_roots(cs.drop_last());
        if is_root_comment(cs.last()) {
            p.push(cs.last())
        } else {
            p
        }
    }
}

/// The replies to a given comment id, in input order.
pub open spec fn spec_replies_of(cs: Seq<SpecReviewComment>, id: u64) -> Seq<SpecReviewComment>
    decreases cs.len(),
{
    if cs.len() == 0 {
        Seq::empty()
    } else {
        let p = spec_replies_of(cs.drop_last(), id);
        if cs.last().in_reply_to_id == Some(id) {
            p.push(cs.last())
        } else {
            p
        }
    }
}

/// No two thread roots share an id.
pub open spec fn root_ids_unique(rs: Seq<SpecReviewComment>) -> bool {
    forall|i: int, j: int|
        0 <= i < j < rs.len() ==> (#[trigger] rs[i]).id != (#[trigger] rs[j]).id
}

/// The roots that anchor nowhere in the diff, in input order.
pub open spec fn spec_unmappable(rs: Seq<SpecReviewComment>, dv: Seq<SpecFileDiff>) -> Seq<
    SpecReviewComment,
>
    decreases rs.len(),
{
    if rs.len() == 0 {
        Seq::empty()
    } else {
        let p = spec_unmappable(rs.drop_last(), dv);
        if spec_try_map(rs.last(), dv) is None {
            p.push(rs.last())
        } else {
            p
        }
    }
}

proof fn lemma_roots_push(cs: Seq<SpecReviewComment>, c: SpecReviewComment)
    ensures
        spec_roots(cs.push(c)) == if is_root_comment(c) {
            spec_roots(cs).push(c)
        } else {
            spec_roots(cs)
        },
{
    assert(cs.push(c).drop_last() =~= cs);
}

proof fn lemma_replies_push(cs: Seq<SpecReviewComment>, c: SpecReviewComment, id: u64)
    ensures
        spec_replies_of(cs.push(c), id) == if c.in_reply_to_id == Some(id) {
            spec_replies_of(cs, id).push(c)
        } else {
            spec_replies_of(cs, id)
        },
{
    assert(cs.push(c).drop_last() =~= cs);
}

proof fn lemma_unmappable_push(rs: Seq<SpecReviewComment>, c: SpecReviewComment, dv: Seq<
    SpecFileDiff,
>)
    ensures
        spec_unmappable(rs.push(c), dv) == if spec_try_map(c, dv) is None {
            spec_unmappable(rs, dv).push(c)
        } else {
            spec_unmappable(rs, dv)
        },
{
    assert(rs.push(c).drop_last() =~= rs);
}

/// One parent id's replies, grouped during partitioning.
struct ReplyGroup {
    id: u64,
    items: Vec<ReviewComment>,
}

spec fn group_idx(groups: Seq<ReplyGroup>, id: u64) -> Option<int>
    decreases groups.len(),
{
    if groups.len() == 0 {
        None
    } else if groups[0].id == id {
        Some(0)
    } else {
        match group_idx(groups.drop_first(), id) {
            Some(i) => Some(i + 1),
            None => None,
        }
    }
}

proof fn lemma_group_idx_props(groups: Seq<ReplyGroup>, id: u64)
    ensures
        match group_idx(groups, id) {
            Some(i) => 0 <= i < groups.len() && groups[i].id == id && forall|j: int|
                0 <= j < i ==> (#[trigger] groups[j]).id != id,
            None => forall|j: int| 0 <= j < groups.len() ==> (#[trigger] groups[j]).id != id,
        },
    decreases groups.len(),
{
    if groups.len() > 0 && groups[0].id != id {
        lemma_group_idx_props(groups.drop_first(), id);
        let d = groups.drop_first();
        match group_idx(d, id) {
            Some(i2) => {
                assert(groups[i2 + 1] == d[i2]);
                assert forall|j: int| 0 <= j < i2 + 1 implies (#[trigger] groups[j]).id != id by {
                    if j > 0 {
                        assert(d[j - 1] == groups[j]);
                    }
                }
            },
            None => {
                assert forall|j: int| 0 <= j < groups.len() implies (#[trigger] groups[j]).id
                    != id by {
                    if j > 0 {
                        assert(d[j - 1] == groups[j]);
                    }
                }
            },
        }
    }
}

fn find_group_idx(groups: &Vec<ReplyGroup>, id: u64) -> (r: Option<usize>)
    ensures
        match r {
            Some(i) => group_idx(groups@, id) == Some(i as int) && i < groups@.len(),
            None => group_idx(groups@, id) is None,
        },
{
    let ghost gv = groups@;
    let n = groups.len();
    let mut i: usize = 0;
    proof {
        assert(gv.skip(0) =~= gv);
    }
    loop
        invariant
            0 <= i <= n,
            n == gv.len(),
            gv == groups@,
            group_idx(gv, id) == match group_idx(gv.skip(i as int), id) {
                Some(k) => Some(k + i),
                None => None::<int>,
            },
        decreases n - i,
    {
        if i >= n {
            proof {
                assert(gv.skip(i as int).len() == 0);
            }
            return None;
        }
        proof {
            assert(gv.skip(i as int)[0] == gv[i as int]);
            assert(gv.skip(i as int).drop_first() =~= gv.skip(i + 1));
        }
        if groups[i].id == id {
            return Some(i);
        }
        i = i + 1;
    }
}

/// Index of the first file whose display path equals `path`.
pub open spec fn first_file_idx(files: Seq<SpecFileDiff>, path: Seq<char>) -> Option<int>
    decreases files.len(),
{
    if files.len() == 0 {
        None
    } else if spec_display_path(files[0]) == path {
        Some(0)
    } else {
        match first_file_idx(files.drop_first(), path) {
            Some(i) => Some(i + 1),
            None => None,
        }
    }
}

/// Where one comment anchors: its file by display path, then the
/// current-position attempt, then the original-position attempt. The
/// boolean is the outdated flag: true exactly when the second attempt won.
pub open spec fn spec_try_map(c: SpecReviewComment, files: Seq<SpecFileDiff>) -> Option<
    (Seq<char>, int, int, bool),
> {
    match first_file_idx(files, c.path) {
        None => None,
        Some(fi) => {
            let f = files[fi];
            let r1 = match c.line {
                Some(t) => find_in_hunks(f.hunks, t as int, side_is_left_new(c.side)),
                None => None,
            };
            match r1 {
                Some(p) => Some((spec_display_path(f), p.0, p.1, false)),
                None => {
                    let r2 = match c.original_line {
                        Some(t) => find_in_hunks(f.hunks, t as int, side_is_left_orig(c.side)),
                        None => None,
                    };
                    match r2 {
                        Some(p) => Some((spec_display_path(f), p.0, p.1, true)),
                        None => None,
                    }
                },
            }
        },
    }
}

/// Try to map a single comment to a (file_path, hunk_index, line_offset,
/// is_outdated).
pub fn try_map_comment(comment: &ReviewComment, diff: &ParsedDiff) -> (r: Option<
    (String, usize, usize, bool),
>)
    ensures
        match r {
            Some(t) => spec_try_map(comment@, diff@) == Some((t.0@, t.1 as int, t.2 as int, t.3)),
            None => spec_try_map(comment@, diff@) is None,
        },
{
    let ghost fv = diff@;
    let n = diff.files.len();
    let mut fi: usize = 0;
    proof {
        assert(fv.skip(0) =~= fv);
    }
    loop
        invariant
            0 <= fi <= n,
            n == diff.files@.len(),
            fv == diff@,
            fv.len() == n,
            first_file_idx(fv, comment@.path) == match first_file_idx(
                fv.skip(fi as int),
                comment@.path,
            ) {
                Some(i) => Some(i + fi),
                None => None::<int>,
            },
        decreases n - fi,
    {
        if fi >= n {
            proof {
                assert(fv.skip(fi as int).len() == 0);
            }
            return None;
        }
        let f = &diff.files[fi];
        proof {
            assert(fv.skip(fi as int)[0] == fv[fi as int]);
            assert(fv[fi as int] == diff.files@[fi as int]@);
            assert(fv.skip(fi as int).drop_first() =~= fv.skip(fi + 1));
        }
        if str_eq(f.display_path(), comment.path.as_str()) {
            proof {
                assert(first_file_idx(fv, comment@.path) == Some(fi as int));
                assert(fv[fi as int].hunks == f.hunks@.map_values(|h: Hunk| h@));
            }
            let file_path = f.display_path().to_owned();
            match comment.line {
                Some(t) => {
                    match find_line_in_hunks_new(&f.hunks, t, &comment.side) {
                        Some((hi, off)) => {
                            return Some((file_path, hi, off, false));
                        },
                        None => {},
                    }
                },
                None => {},
            }
            match comment.original_line {
                Some(t) => {
                    match find_line_in_hunks_original(&f.hunks, t, &comment.side) {
                        Some((hi, off)) => {
                            return Some((file_path, hi, off, true));
                        },
                        None => {},
                    }
                },
                None => {},
            }
            return None;
        }
        fi = fi + 1;
    }
}

pub ghost struct SpecCommentMapEntry {
    pub file: Seq<char>,
    pub hunk_index: int,
    pub threads: Seq<SpecCommentThread>,
}

/// One keyed bucket of the comment map.
#[derive(Debug, Clone)]
pub struct CommentMapEntry {
    pub file: String,
    pub hunk_index: usize,
    pub threads: Vec<CommentThread>,
}

impl View for CommentMapEntry {
    type V = SpecCommentMapEntry;

    open spec fn view(&self) -> SpecCommentMapEntry {
        SpecCommentMapEntry {
            file: self.file@,
            hunk_index: self.hunk_index as int,
            threads: self.threads@.map_values(|t: CommentThread| t@),
        }
    }
}

pub open spec fn entry_key(e: SpecCommentMapEntry) -> (Seq<char>, int) {
    (e.file, e.hunk_index)
}

/// Index of the first entry with this key.
pub open spec fn key_idx(entries: Seq<SpecCommentMapEntry>, key: (Seq<char>, int)) -> Option<int>
    decreases entries.len(),
{
    if entries.len() == 0 {
        None
    } else if entry_key(entries[0]) == key {
        Some(0)
    } else {
        match key_idx(entries.drop_first(), key) {
            Some(i) => Some(i + 1),
            None => None,
        }
    }
}

pub proof fn lemma_key_idx_props(entries: Seq<SpecCommentMapEntry>, key: (Seq<char>, int))
    ensures
        match key_idx(entries, key) {
            Some(i) => 0 <= i < entries.len() && entry_key(entries[i]) == key && forall|j: int|
                0 <= j < i ==> entry_key(#[trigger] entries[j]) != key,
            None => forall|j: int|
                0 <= j < entries.len() ==> entry_key(#[trigger] entries[j]) != key,
        },
    decreases entries.len(),
{
    if entries.len() > 0 && entry_key(entries[0]) != key {
        lemma_key_idx_props(entries.drop_first(), key);
        let d = entries.drop_first();
        match key_idx(d, key) {
            Some(i2) => {
                assert(entries[i2 + 1] == d[i2]);
                assert forall|j: int| 0 <= j < i2 + 1 implies entry_key(#[trigger] entries[j])
                    != key by {
                    if j > 0 {
                        assert(d[j - 1] == entries[j]);
                    }
                }
            },
            None => {
                assert forall|j: int| 0 <= j < entries.len() implies entry_key(
                    #[trigger] entries[j],
                ) != key by {
                    if j > 0 {
                        assert(d[j - 1] == entries[j]);
                    }
                }
            },
        }
    }
}

/// Each key claimed by at most one entry.
pub open spec fn cmap_wf(entries: Seq<SpecCommentMapEntry>) -> bool {
    forall|i: int, j: int|
        0 <= i < j < entries.len() ==> entry_key(#[trigger] entries[i]) != entry_key(
            #[trigger] entries[j],
        )
}

/// The threads filed under one key, if any.
pub open spec fn cmap_get(entries: Seq<SpecCommentMapEntry>, key: (Seq<char>, int)) -> Option<
    Seq<SpecCommentThread>,
> {
    match key_idx(entries, key) {
        Some(i) => Some(entries[i].threads),
        None => None,
    }
}

/// How many threads the map holds in all.
pub open spec fn total_threads(entries: Seq<SpecCommentMapEntry>) -> int
    decreases entries.len(),
{
    if entries.len() == 0 {
        0
    } else {
        entries[0].threads.len() + total_threads(entries.drop_first())
    }
}

proof fn lemma_total_threads_push(entries: Seq<SpecCommentMapEntry>, e: SpecCommentMapEntry)
    ensures
        total_threads(entries.push(e)) == total_threads(entries) + e.threads.len(),
    decreases entries.len(),
{
    if entries.len() == 0 {
        assert(entries.push(e).drop_first() =~= entries);
    } else {
        assert(entries.push(e).drop_first() =~= entries.drop_first().push(e));
        assert(entries.push(e)[0] == entries[0]);
        lemma_total_threads_push(entries.drop_first(), e);
    }
}

proof fn lemma_total_threads_update(
    entries: Seq<SpecCommentMapEntry>,
    i: int,
    e: SpecCommentMapEntry,
)
    requires
        0 <= i < entries.len(),
    ensures
        total_threads(entries.update(i, e)) == total_threads(entries) - entries[i].threads.len()
            + e.threads.len(),
    decreases entries.len(),
{
    if i == 0 {
        assert(entries.update(0, e).drop_first() =~= entries.drop_first());
        assert(entries.update(0, e)[0] == e);
    } else {
        assert(entries.update(i, e).drop_first() =~= entries.drop_first().update(i - 1, e));
        assert(entries.update(i, e)[0] == entries[0]);
        lemma_total_threads_update(entries.drop_first(), i - 1, e);
    }
}

/// Key: (file_path, hunk_index) → ordered list of threads on that hunk.
#[derive(Debug)]
pub struct CommentMap {
    entries: Vec<CommentMapEntry>,
}

impl View for CommentMap {
    type V = Seq<SpecCommentMapEntry>;

    closed spec fn view(&self) -> Seq<SpecCommentMapEntry> {
        self.entries@.map_values(|e: CommentMapEntry| e@)
    }
}

impl CommentMap {
    /// An empty map.
    pub fn new() -> (r: CommentMap)
        ensures
            r@ == Seq::<SpecCommentMapEntry>::empty(),
    {
        let r = CommentMap { entries: Vec::new() };
        proof {
            assert(r@ =~= Seq::<SpecCommentMapEntry>::empty());
        }
        r
    }

    /// How many keys hold at least one thread.
    pub fn len(&self) -> (r: usize)
        ensures
            r == self@.len(),
    {
        self.entries.len()
    }

    pub fn is_empty(&self) -> (r: bool)
        ensures
            r == (self@.len() == 0),
    {
        self.entries.len() == 0
    }

    fn find_idx(&self, file: &str, hunk_index: usize) -> (r: Option<usize>)
        ensures
            match r {
                Some(i) => key_idx(self@, (file@, hunk_index as int)) == Some(i as int) && i
                    < self@.len(),
                None => key_idx(self@, (file@, hunk_index as int)) is None,
            },
    {
        let ghost ev = self@;
        let ghost key = (file@, hunk_index as int);
        let n = self.entries.len();
        let mut i: usize = 0;
        proof {
            assert(ev.skip(0) =~= ev);
        }
        loop
            invariant
                0 <= i <= n,
                n == self.entries@.len(),
                ev == self@,
                ev.len() == n,
                key == (file@, hunk_index as int),
                key_idx(ev, key) == match key_idx(ev.skip(i as int), key) {
                    Some(k) => Some(k + i),
                    None => None::<int>,
                },
            decreases n - i,
        {
            if i >= n {
                proof {
                    assert(ev.skip(i as int).len() == 0);
                }
                return None;
            }
            let e = &self.entries[i];
            proof {
                assert(ev.skip(i as int)[0] == ev[i as int]);
                assert(ev[i as int] == self.entries@[i as int]@);
                assert(ev.skip(i as int).drop_first() =~= ev.skip(i + 1));
            }
            if str_eq(e.file.as_str(), file) && e.hunk_index == hunk_index {
                return Some(i);
            }
            i = i + 1;
        }
    }

    /// The threads filed under a key, if any.
    pub fn get(&self, key: &(String, usize)) -> (r: Option<&Vec<CommentThread>>)
        ensures
            match r {
                Some(v) => cmap_get(self@, (key.0@, key.1 as int)) == Some(
                    v@.map_values(|t: CommentThread| t@),
                ),
                None => cmap_get(self@, (key.0@, key.1 as int)) is None,
            },
    {
        match self.find_idx(key.0.as_str(), key.1) {
            Some(i) => Some(&self.entries[i].threads),
            None => None,
        }
    }

    /// Take the threads filed under a key out of the map.
    pub fn remove(&mut self, file: &str, hunk_index: usize) -> (r: Option<Vec<CommentThread>>)
        ensures
            match r {
                Some(v) => {
                    &&& key_idx(old(self)@, (file@, hunk_index as int)) matches Some(i)
                    &&& v@.map_values(|t: CommentThread| t@) == old(self)@[i].threads
                    &&& final(self)@ == old(self)@.remove(i)
                },
                None => {
                    &&& key_idx(old(self)@, (file@, hunk_index as int)) is None
                    &&& final(self)@ == old(self)@
                },
            },
    {
        match self.find_idx(file, hunk_index) {
            Some(i) => {
                let ghost pre = self.entries@;
                let e = self.entries.remove(i);
                proof {
                    assert(self@ =~= old(self)@.remove(i as int));
                }
                Some(e.threads)
            },
            None => None,
        }
    }

    /// File one more thread under a key: appended to the key's bucket, or
    /// opening a new bucket at the end.
    pub fn add_thread(&mut self, file: String, hunk_index: usize, t: CommentThread)
        ensures
            match key_idx(old(self)@, (file@, hunk_index as int)) {
                Some(i) => final(self)@ == old(self)@.update(
                    i,
                    SpecCommentMapEntry {
                        file: old(self)@[i].file,
                        hunk_index: old(self)@[i].hunk_index,
                        threads: old(self)@[i].threads.push(t@),
                    },
                ),
                None => final(self)@ == old(self)@.push(
                    SpecCommentMapEntry {
                        file: file@,
                        hunk_index: hunk_index as int,
                        threads: seq![t@],
                    },
                ),
            },
    {
        let ghost tv = t@;
        let ghost fv = file@;
        match self.find_idx(file.as_str(), hunk_index) {
            Some(i) => {
                let ghost pre = self.entries@;
                let mut e = self.entries.remove(i);
                e.threads.push(t);
                proof {
                    assert(e.threads@.map_values(|t2: CommentThread| t2@) =~= old(self)@[
                        i as int
                    ].threads.push(tv));
                }
                let ghost ee = e;
                self.entries.insert(i, e);
                proof {
                    assert(self.entries@ =~= pre.update(i as int, ee));
                    assert(self@ =~= old(self)@.update(
                        i as int,
                        SpecCommentMapEntry {
                            file: old(self)@[i as int].file,
                            hunk_index: old(self)@[i as int].hunk_index,
                            threads: old(self)@[i as int].threads.push(tv),
                        },
                    ));
                }
            },
            None => {
                let mut threads: Vec<CommentThread> = Vec::new();
                threads.push(t);
                proof {
                    assert(threads@.map_values(|t2: CommentThread| t2@) =~= seq![tv]);
                }
                let e = CommentMapEntry { file, hunk_index, threads };
                self.entries.push(e);
                proof {
                    assert(self@ =~= old(self)@.push(
                        SpecCommentMapEntry {
                            file: fv,
                            hunk_index: hunk_index as int,
                            threads: seq![tv],
                        },
                    ));
                }
            },
        }
    }

    /// Sort each bucket's threads by their anchor offset, leaving keys and
    /// bucket contents (as multisets) unchanged.
    fn sort_buckets(&mut self)
        ensures
            final(self)@.len() == old(self)@.len(),
            forall|i: int|
                0 <= i < final(self)@.len() ==> {
                    &&& (#[trigger] final(self)@[i]).file == old(self)@[i].file
                    &&& final(self)@[i].hunk_index == old(self)@[i].hunk_index
                    &&& final(self)@[i].threads.to_multiset() == old(self)@[i].threads.to_multiset()
                    &&& sorted_by_offset(final(self)@[i].threads)
                },
    {
        let ghost pre = self@;
        let n = self.entries.len();
        let mut out: Vec<CommentMapEntry> = Vec::new();
        let mut k: usize = 0;
        while self.entries.len() > 0
            invariant
                out@.len() + self.entries@.len() == n,
                n == pre.len(),
                forall|i: int|
                    0 <= i < self.entries@.len() ==> (#[trigger] self.entries@[i])@ == pre[i
                        + out@.len()],
                forall|i: int|
                    0 <= i < out@.len() ==> {
                        &&& (#[trigger] out@[i]@).file == pre[i].file
                        &&& out@[i]@.hunk_index == pre[i].hunk_index
                        &&& out@[i]@.threads.to_multiset() == pre[i].threads.to_multiset()
                        &&& sorted_by_offset(out@[i]@.threads)
                    },
            decreases self.entries@.len(),
        {
            let ghost elen = self.entries@.len() as int;
            let ghost olen = out@.len() as int;
            let e = self.entries.remove(0);
            proof {
                assert(e@ == pre[olen]);
                assert forall|i: int| 0 <= i < self.entries@.len() implies (#[trigger] self
                    .entries@[i])@ == pre[i + olen + 1] by {}
            }
            let sorted = sort_threads_by_offset(e.threads);
            out.push(CommentMapEntry { file: e.file, hunk_index: e.hunk_index, threads: sorted });
        }
        self.entries = out;
    }
}

/// Take the sorted reply group for `id` out of `groups`, or empty if the
/// id has no replies (or its group was already claimed).
fn remove_group(groups: &mut Vec<ReplyGroup>, id: u64) -> (r: Vec<ReviewComment>)
    ensures
        match group_idx(old(groups)@, id) {
            Some(g) => final(groups)@ == old(groups)@.remove(g) && r@ == old(groups)@[g].items@,
            None => final(groups)@ == old(groups)@ && r@ == Seq::<ReviewComment>::empty(),
        },
{
    match find_group_idx(groups, id) {
        Some(g) => {
            let e = groups.remove(g);
            e.items
        },
        None => {
            let r: Vec<ReviewComment> = Vec::new();
            proof {
                assert(r@ =~= Seq::<ReviewComment>::empty());
            }
            r
        },
    }
}

/// Map review comments to hunks in the parsed diff.
///
/// Thread assembly first: replies (comments naming a parent id) are grouped
/// by parent and ordered by creation time. Then each root is anchored in
/// two ordered attempts — current position, then original position, the
/// latter marking the thread outdated — and roots that fit neither are
/// returned separately, tagged with their file. Threads under one key are
/// ordered by their offset in the hunk.
///
/// Returns (mapped comments by hunk, unmappable outdated comments).
pub fn map_comments_to_hunks(comments: Vec<ReviewComment>, diff: &ParsedDiff) -> (r: (
    CommentMap,
    Vec<OutdatedComment>,
))
    ensures
        ({
            let cs = comments@.map_values(|c: ReviewComment| c@);
            let dv = diff@;
            let rs = spec_roots(cs);
            &&& r.1@.map_values(|o: OutdatedComment| o@) == spec_unmappable(rs, dv).map_values(
                |c: SpecReviewComment| SpecOutdatedComment { comment: c, file: c.path },
            )
            &&& cmap_wf(r.0@)
            &&& forall|i: int, j: int|
                0 <= i < r.0@.len() && 0 <= j < r.0@[i].threads.len() ==> spec_try_map(
                    (#[trigger] r.0@[i].threads[j]).root.comment,
                    dv,
                ) == Some(
                    (
                        r.0@[i].file,
                        r.0@[i].hunk_index,
                        r.0@[i].threads[j].root.line_offset,
                        r.0@[i].threads[j].root.is_outdated,
                    ),
                )
            &&& forall|i: int| 0 <= i < r.0@.len() ==> sorted_by_offset((#[trigger] r.0@[i]).threads)
            &&& forall|i: int, j: int|
                0 <= i < r.0@.len() && 0 <= j < r.0@[i].threads.len() ==> sorted_by_created(
                    (#[trigger] r.0@[i].threads[j]).replies,
                )
            &&& (root_ids_unique(rs) ==> forall|
                i: int,
                j: int,
            |
                0 <= i < r.0@.len() && 0 <= j < r.0@[i].threads.len() ==> (
                #[trigger] r.0@[i].threads[j]).replies.to_multiset() == spec_replies_of(
                    cs,
                    r.0@[i].threads[j].root.comment.id,
                ).to_multiset())
            &&& total_threads(r.0@) + r.1@.len() == rs.len()
            &&& forall|i: int| 0 <= i < r.0@.len() ==> (#[trigger] r.0@[i]).threads.len() > 0
            &&& forall|k: int|
                0 <= k < rs.len() && spec_try_map(#[trigger] rs[k], dv) is Some ==> exists|
                    i: int,
                    j: int,
                |
                    0 <= i < r.0@.len() && 0 <= j < r.0@[i].threads.len() && (#[trigger] r.0@[
                        i
                    ].threads[j]).root.comment == rs[k]
        }),
{
    let ghost cs = comments@.map_values(|c: ReviewComment| c@);
    let ghost dv = diff@;
    let ghost rs = spec_roots(cs);

    // Partition into roots and reply groups, in input order.
    let mut src = comments;
    let mut roots: Vec<ReviewComment> = Vec::new();
    let mut groups: Vec<ReplyGroup> = Vec::new();
    let ghost mut done: Seq<SpecReviewComment> = Seq::empty();
    proof {
        assert(done =~= cs.take(0));
        assert(src@.map_values(|c: ReviewComment| c@) =~= cs.skip(0));
        assert(roots@.map_values(|c: ReviewComment| c@) =~= spec_roots(done));
    }
    while src.len() > 0
        invariant
            done.len() + src@.len() == cs.len(),
            done == cs.take(done.len() as int),
            src@.map_values(|c: ReviewComment| c@) == cs.skip(done.len() as int),
            roots@.map_values(|c: ReviewComment| c@) == spec_roots(done),
            forall|g: int|
                0 <= g < groups@.len() ==> (#[trigger] groups@[g]).items@.map_values(
                    |c: ReviewComment| c@,
                ) == spec_replies_of(done, groups@[g].id),
            forall|g1: int, g2: int|
                0 <= g1 < g2 < groups@.len() ==> (#[trigger] groups@[g1]).id != (
                #[trigger] groups@[g2]).id,
            forall|id: u64|
                #![trigger spec_replies_of(done, id)]
                group_idx(groups@, id) is None ==> spec_replies_of(done, id).len() == 0,
        decreases src@.len(),
    {
        let ghost pre_src = src@.map_values(|c: ReviewComment| c@);
        let ghost dl = done.len() as int;
        let c = src.remove(0);
        let ghost cv = c@;
        proof {
            assert(src@.map_values(|c2: ReviewComment| c2@) =~= pre_src.remove(0));
            assert(pre_src[0] == cv);
            assert(cv == cs[dl]);
            assert(pre_src.remove(0) =~= cs.skip(dl + 1));
            assert(cs.take(dl + 1) =~= done.push(cv));
        }
        match c.in_reply_to_id {
            None => {
                let ghost pre_roots = roots@.map_values(|c2: ReviewComment| c2@);
                roots.push(c);
                proof {
                    lemma_roots_push(done, cv);
                    assert(roots@.map_values(|c2: ReviewComment| c2@) =~= pre_roots.push(cv));
                    assert forall|g: int| 0 <= g < groups@.len() implies (#[trigger] groups@[
                        g
                    ]).items@.map_values(|c2: ReviewComment| c2@) == spec_replies_of(
                        done.push(cv),
                        groups@[g].id,
                    ) by {
                        lemma_replies_push(done, cv, groups@[g].id);
                    }
                    assert forall|id: u64|
                        group_idx(groups@, id) is None implies #[trigger] spec_replies_of(
                        done.push(cv),
                        id,
                    ).len() == 0 by {
                        lemma_replies_push(done, cv, id);
                        assert(spec_replies_of(done, id).len() == 0);
                    }
                    done = done.push(cv);
                }
            },
            Some(pid) => {
                let ghost pre_groups = groups@;
                match find_group_idx(&groups, pid) {
                    Some(gi) => {
                        let mut g = groups.remove(gi);
                        g.items.push(c);
                        let ghost gg = g;
                        groups.insert(gi, g);
                        proof {
                            assert(groups@ =~= pre_groups.update(gi as int, gg));
                        }
                    },
                    None => {
                        let mut items: Vec<ReviewComment> = Vec::new();
                        items.push(c);
                        groups.push(ReplyGroup { id: pid, items });
                    },
                }
                proof {
                    lemma_group_idx_props(pre_groups, pid);
                    lemma_roots_push(done, cv);
                    assert(roots@.map_values(|c2: ReviewComment| c2@) == spec_roots(
                        done.push(cv),
                    ));
                    assert forall|g: int| 0 <= g < groups@.len() implies (#[trigger] groups@[
                        g
                    ]).items@.map_values(|c2: ReviewComment| c2@) == spec_replies_of(
                        done.push(cv),
                        groups@[g].id,
                    ) by {
                        lemma_replies_push(done, cv, groups@[g].id);
                        if groups@[g].id == pid {
                            match group_idx(pre_groups, pid) {
                                Some(gi) => {
                                    assert(groups@[g].items@.map_values(|c2: ReviewComment| c2@)
                                        =~= pre_groups[gi].items@.map_values(
                                        |c2: ReviewComment| c2@,
                                    ).push(cv));
                                },
                                None => {
                                    assert(groups@[g].items@.map_values(|c2: ReviewComment| c2@)
                                        =~= Seq::<SpecReviewComment>::empty().push(cv));
                                },
                            }
                        } else {
                            match group_idx(pre_groups, pid) {
                                Some(gi) => {
                                    assert(groups@[g] == pre_groups[g]);
                                },
                                None => {
                                    assert(groups@[g] == pre_groups[g]);
                                },
                            }
                        }
                    }
                    assert forall|id: u64|
                        group_idx(groups@, id) is None implies #[trigger] spec_replies_of(
                        done.push(cv),
                        id,
                    ).len() == 0 by {
                        lemma_group_idx_props(groups@, id);
                        lemma_group_idx_props(pre_groups, id);
                        lemma_replies_push(done, cv, id);
                        assert(group_idx(pre_groups, id) is None ==> spec_replies_of(
                            done,
                            id,
                        ).len() == 0);
                        if id == pid {
                            match group_idx(pre_groups, pid) {
                                Some(gi) => {
                                    assert(groups@[gi as int].id == pid);
                                    assert(false);
                                },
                                None => {
                                    assert(groups@[groups@.len() - 1].id == pid);
                                    assert(false);
                                },
                            }
                        } else {
                            match group_idx(pre_groups, id) {
                                Some(i2) => {
                                    assert(pre_groups[i2].id == id);
                                    match group_idx(pre_groups, pid) {
                                        Some(gi) => {
                                            assert(i2 != gi);
                                            assert(groups@[i2].id == id);
                                        },
                                        None => {
                                            assert(groups@[i2].id == id);
                                        },
                                    }
                                    assert(false);
                                },
                                None => {},
                            }
                        }
                    }
                    done = done.push(cv);
                }
            },
        }
    }
    proof {
        assert(done =~= cs);
    }

    // Sort each reply group by creation time.
    let ghost g0 = groups@;
    let mut sgroups: Vec<ReplyGroup> = Vec::new();
    while groups.len() > 0
        invariant
            sgroups@.len() + groups@.len() == g0.len(),
            forall|g: int|
                0 <= g < groups@.len() ==> #[trigger] groups@[g] == g0[g + sgroups@.len()],
            forall|g: int|
                0 <= g < sgroups@.len() ==> {
                    &&& (#[trigger] sgroups@[g]).id == g0[g].id
                    &&& sgroups@[g].items@.map_values(|c: ReviewComment| c@).to_multiset()
                        == g0[g].items@.map_values(|c: ReviewComment| c@).to_multiset()
                    &&& sorted_by_created(sgroups@[g].items@.map_values(|c: ReviewComment| c@))
                },
        decreases groups@.len(),
    {
        let ghost slen = sgroups@.len() as int;
        let g = groups.remove(0);
        proof {
            assert(g == g0[slen]);
            assert forall|k: int| 0 <= k < groups@.len() implies #[trigger] groups@[k] == g0[k
                + slen + 1] by {}
        }
        let sorted = sort_replies_by_created(g.items);
        sgroups.push(ReplyGroup { id: g.id, items: sorted });
    }

    // Anchor each root, in input order.
    let ghost nodup = root_ids_unique(rs);
    let mut cmap = CommentMap::new();
    let mut outdated: Vec<OutdatedComment> = Vec::new();
    let mut rsrc = roots;
    let ghost mut t: int = 0;
    proof {
        assert(rsrc@.map_values(|c: ReviewComment| c@) =~= rs.skip(0));
        assert(rs.take(0) =~= Seq::<SpecReviewComment>::empty());
        assert(outdated@.map_values(|o: OutdatedComment| o@) =~= spec_unmappable(
            rs.take(0),
            dv,
        ).map_values(|c: SpecReviewComment| SpecOutdatedComment { comment: c, file: c.path }));
        assert forall|id: u64|
            group_idx(sgroups@, id) is None implies #[trigger] spec_replies_of(cs, id).len() == 0
            || exists|k: int| 0 <= k < 0 && (#[trigger] rs[k]).id == id by {
            lemma_group_idx_props(sgroups@, id);
            lemma_group_idx_props(g0, id);
            match group_idx(g0, id) {
                Some(gi) => {
                    assert(sgroups@[gi].id == g0[gi].id);
                    assert(false);
                },
                None => {},
            }
            assert(spec_replies_of(done, id).len() == 0);
        }
    }
    while rsrc.len() > 0
        invariant
            dv == diff@,
            nodup == root_ids_unique(rs),
            0 <= t <= rs.len(),
            t + rsrc@.len() == rs.len(),
            rsrc@.map_values(|c: ReviewComment| c@) == rs.skip(t),
            outdated@.map_values(|o: OutdatedComment| o@) == spec_unmappable(
                rs.take(t),
                dv,
            ).map_values(|c: SpecReviewComment| SpecOutdatedComment { comment: c, file: c.path }),
            cmap_wf(cmap@),
            forall|i: int, j: int|
                0 <= i < cmap@.len() && 0 <= j < cmap@[i].threads.len() ==> spec_try_map(
                    (#[trigger] cmap@[i].threads[j]).root.comment,
                    dv,
                ) == Some(
                    (
                        cmap@[i].file,
                        cmap@[i].hunk_index,
                        cmap@[i].threads[j].root.line_offset,
                        cmap@[i].threads[j].root.is_outdated,
                    ),
                ),
            forall|i: int, j: int|
                0 <= i < cmap@.len() && 0 <= j < cmap@[i].threads.len() ==> sorted_by_created(
                    (#[trigger] cmap@[i].threads[j]).replies,
                ),
            nodup ==> forall|i: int, j: int|
                0 <= i < cmap@.len() && 0 <= j < cmap@[i].threads.len() ==> (#[trigger] cmap@[
                    i
                ].threads[j]).replies.to_multiset() == spec_replies_of(
                    cs,
                    cmap@[i].threads[j].root.comment.id,
                ).to_multiset(),
            total_threads(cmap@) + outdated@.len() == t,
            forall|i: int| 0 <= i < cmap@.len() ==> (#[trigger] cmap@[i]).threads.len() > 0,
            forall|k: int|
                0 <= k < t && spec_try_map(#[trigger] rs[k], dv) is Some ==> exists|
                    i: int,
                    j: int,
                |
                    0 <= i < cmap@.len() && 0 <= j < cmap@[i].threads.len() && (#[trigger] cmap@[
                        i
                    ].threads[j]).root.comment == rs[k],
            forall|g: int|
                0 <= g < sgroups@.len() ==> {
                    &&& (#[trigger] sgroups@[g]).items@.map_values(
                        |c: ReviewComment| c@,
                    ).to_multiset() == spec_replies_of(cs, sgroups@[g].id).to_multiset()
                    &&& sorted_by_created(sgroups@[g].items@.map_values(|c: ReviewComment| c@))
                },
            forall|id: u64|
                #![trigger spec_replies_of(cs, id)]
                group_idx(sgroups@, id) is None ==> spec_replies_of(cs, id).len() == 0 || exists|
                    k: int,
                |
                    0 <= k < t && (#[trigger] rs[k]).id == id,
        decreases rsrc@.len(),
    {
        let ghost pre_rsrc = rsrc@.map_values(|c: ReviewComment| c@);
        let c = rsrc.remove(0);
        let ghost cv = c@;
        proof {
            assert(rsrc@.map_values(|c2: ReviewComment| c2@) =~= pre_rsrc.remove(0));
            assert(pre_rsrc[0] == cv);
            assert(cv == rs[t]);
            assert(pre_rsrc.remove(0) =~= rs.skip(t + 1));
            assert(rs.take(t + 1) =~= rs.take(t).push(cv));
        }
        match try_map_comment(&c, diff) {
            Some((file_path, hi, off, outd)) => {
                let ghost pre_sgroups = sgroups@;
                let replies = remove_group(&mut sgroups, c.id);
                let ghost pre_cmap = cmap@;
                let ghost fpv = file_path@;
                let thread = CommentThread {
                    root: MappedComment { comment: c, line_offset: off, is_outdated: outd },
                    replies,
                };
                let ghost tv = thread@;
                proof {
                    lemma_group_idx_props(pre_sgroups, cv.id);
                    assert(sorted_by_created(tv.replies)) by {
                        match group_idx(pre_sgroups, cv.id) {
                            Some(g) => {
                                assert(tv.replies == pre_sgroups[g].items@.map_values(
                                    |c2: ReviewComment| c2@,
                                ));
                            },
                            None => {
                                assert(tv.replies =~= Seq::<SpecReviewComment>::empty());
                            },
                        }
                    }
                    if nodup {
                        assert(tv.replies.to_multiset() == spec_replies_of(
                            cs,
                            cv.id,
                        ).to_multiset()) by {
                            match group_idx(pre_sgroups, cv.id) {
                                Some(g) => {},
                                None => {
                                    assert(spec_replies_of(cs, cv.id).len() == 0 || exists|k: int|
                                        0 <= k < t && (#[trigger] rs[k]).id == cv.id);
                                    if spec_replies_of(cs, cv.id).len() != 0 {
                                        let k = choose|k: int|
                                            0 <= k < t && (#[trigger] rs[k]).id == cv.id;
                                        assert(rs[k].id == rs[t].id && k < t);
                                        assert(false);
                                    }
                                    assert(tv.replies =~= Seq::<SpecReviewComment>::empty());
                                    assert(tv.replies.to_multiset() =~= spec_replies_of(
                                        cs,
                                        cv.id,
                                    ).to_multiset()) by {
                                        broadcast use vstd::seq_lib::group_to_multiset_ensures;

                                        assert(spec_replies_of(cs, cv.id).to_multiset().len()
                                            == 0);
                                    }
                                },
                            }
                        }
                    }
                }
                cmap.add_thread(file_path, hi, thread);
                proof {
                    lemma_key_idx_props(pre_cmap, (fpv, hi as int));
                    lemma_unmappable_push(rs.take(t), cv, dv);
                    match key_idx(pre_cmap, (fpv, hi as int)) {
                        Some(i) => {
                            lemma_total_threads_update(
                                pre_cmap,
                                i,
                                SpecCommentMapEntry {
                                    file: pre_cmap[i].file,
                                    hunk_index: pre_cmap[i].hunk_index,
                                    threads: pre_cmap[i].threads.push(tv),
                                },
                            );
                        },
                        None => {
                            lemma_total_threads_push(
                                pre_cmap,
                                SpecCommentMapEntry {
                                    file: fpv,
                                    hunk_index: hi as int,
                                    threads: seq![tv],
                                },
                            );
                        },
                    }
                    assert(tv.root.comment == cv);
                    assert forall|k: int|
                        0 <= k < t + 1 && spec_try_map(#[trigger] rs[k], dv) is Some implies exists|
                        i: int,
                        j: int,
                    |
                        0 <= i < cmap@.len() && 0 <= j < cmap@[i].threads.len() && (
                        #[trigger] cmap@[i].threads[j]).root.comment == rs[k] by {
                        match key_idx(pre_cmap, (fpv, hi as int)) {
                            Some(iu) => {
                                if k == t {
                                    assert(cmap@[iu].threads[pre_cmap[iu].threads.len() as int]
                                        == tv);
                                } else {
                                    let (i0, j0) = choose|i0: int, j0: int|
                                        0 <= i0 < pre_cmap.len() && 0 <= j0 < pre_cmap[
                                            i0
                                        ].threads.len() && (#[trigger] pre_cmap[i0].threads[
                                            j0
                                        ]).root.comment == rs[k];
                                    if i0 == iu {
                                        assert(cmap@[i0].threads[j0] == pre_cmap[i0].threads[j0]);
                                    } else {
                                        assert(cmap@[i0] == pre_cmap[i0]);
                                        assert(cmap@[i0].threads[j0] == pre_cmap[i0].threads[j0]);
                                    }
                                }
                            },
                            None => {
                                if k == t {
                                    assert(cmap@[pre_cmap.len() as int].threads[0] == tv);
                                } else {
                                    let (i0, j0) = choose|i0: int, j0: int|
                                        0 <= i0 < pre_cmap.len() && 0 <= j0 < pre_cmap[
                                            i0
                                        ].threads.len() && (#[trigger] pre_cmap[i0].threads[
                                            j0
                                        ]).root.comment == rs[k];
                                    assert(cmap@[i0] == pre_cmap[i0]);
                                    assert(cmap@[i0].threads[j0] == pre_cmap[i0].threads[j0]);
                                }
                            },
                        }
                    }
                    assert forall|id: u64|
                        group_idx(sgroups@, id) is None implies #[trigger] spec_replies_of(
                        cs,
                        id,
                    ).len() == 0 || exists|k: int| 0 <= k < t + 1 && (#[trigger] rs[k]).id == id by {
                        lemma_group_idx_props(sgroups@, id);
                        lemma_group_idx_props(pre_sgroups, id);
                        lemma_group_idx_props(pre_sgroups, cv.id);
                        if id == cv.id {
                            assert(rs[t].id == id);
                        } else {
                            match group_idx(pre_sgroups, id) {
                                Some(g) => {
                                    assert(pre_sgroups[g].id == id);
                                    match group_idx(pre_sgroups, cv.id) {
                                        Some(gi) => {
                                            assert(g != gi);
                                            if g < gi {
                                                assert(sgroups@[g] == pre_sgroups[g]);
                                                assert(sgroups@[g].id == id);
                                            } else {
                                                assert(sgroups@[g - 1] == pre_sgroups[g]);
                                                assert(sgroups@[g - 1].id == id);
                                            }
                                            assert(false);
                                        },
                                        None => {
                                            assert(sgroups@[g].id == id);
                                            assert(false);
                                        },
                                    }
                                },
                                None => {
                                    assert(spec_replies_of(cs, id).len() == 0 || exists|k: int|
                                        0 <= k < t && (#[trigger] rs[k]).id == id);
                                    if spec_replies_of(cs, id).len() != 0 {
                                        let k = choose|k: int|
                                            0 <= k < t && (#[trigger] rs[k]).id == id;
                                        assert(0 <= k < t + 1 && rs[k].id == id);
                                    }
                                },
                            }
                        }
                    }
                    t = t + 1;
                }
            },
            None => {
                let file = c.path.clone();
                let o = OutdatedComment { comment: c, file };
                let ghost pre_out = outdated@.map_values(|o2: OutdatedComment| o2@);
                outdated.push(o);
                proof {
                    assert(spec_try_map(cv, dv) is None);
                    lemma_unmappable_push(rs.take(t), cv, dv);
                    let prev = spec_unmappable(rs.take(t), dv);
                    assert(spec_unmappable(rs.take(t + 1), dv) == prev.push(cv));
                    assert(outdated@.map_values(|o2: OutdatedComment| o2@) =~= pre_out.push(
                        SpecOutdatedComment { comment: cv, file: cv.path },
                    ));
                    assert(spec_unmappable(rs.take(t + 1), dv).map_values(
                        |c2: SpecReviewComment| SpecOutdatedComment { comment: c2, file: c2.path },
                    ) =~= prev.map_values(
                        |c2: SpecReviewComment| SpecOutdatedComment { comment: c2, file: c2.path },
                    ).push(SpecOutdatedComment { comment: cv, file: cv.path }));
                    t = t + 1;
                }
            },
        }
    }
    proof {
        assert(rs.take(t) =~= rs);
    }

    // Order the threads within each bucket by their anchor offset.
    let ghost pre_sort = cmap@;
    cmap.sort_buckets();
    proof {
        broadcast use vstd::seq_lib::group_to_multiset_ensures;

        assert forall|i: int, j: int|
            0 <= i < cmap@.len() && 0 <= j < cmap@[i].threads.len() implies {
            &&& spec_try_map((#[trigger] cmap@[i].threads[j]).root.comment, dv) == Some(
                (
                    cmap@[i].file,
                    cmap@[i].hunk_index,
                    cmap@[i].threads[j].root.line_offset,
                    cmap@[i].threads[j].root.is_outdated,
                ),
            )
            &&& sorted_by_created(cmap@[i].threads[j].replies)
            &&& (nodup ==> cmap@[i].threads[j].replies.to_multiset() == spec_replies_of(
                cs,
                cmap@[i].threads[j].root.comment.id,
            ).to_multiset())
        } by {
            let th = cmap@[i].threads[j];
            assert(cmap@[i].threads.to_multiset().count(th) > 0);
            assert(pre_sort[i].threads.to_multiset().count(th) > 0);
            assert(pre_sort[i].threads.contains(th));
            let j0 = choose|j0: int| 0 <= j0 < pre_sort[i].threads.len() && pre_sort[i].threads[j0]
                == th;
            assert(spec_try_map(pre_sort[i].threads[j0].root.comment, dv) == Some(
                (
                    pre_sort[i].file,
                    pre_sort[i].hunk_index,
                    pre_sort[i].threads[j0].root.line_offset,
                    pre_sort[i].threads[j0].root.is_outdated,
                ),
            ));
        }
        assert(cmap_wf(cmap@)) by {
            assert forall|i: int, j: int| 0 <= i < j < cmap@.len() implies entry_key(
                #[trigger] cmap@[i],
            ) != entry_key(#[trigger] cmap@[j]) by {
                assert(entry_key(cmap@[i]) == entry_key(pre_sort[i]));
                assert(entry_key(cmap@[j]) == entry_key(pre_sort[j]));
            }
        }
        assert forall|k: int|
            0 <= k < rs.len() && spec_try_map(#[trigger] rs[k], dv) is Some implies exists|
            i: int,
            j: int,
        |
            0 <= i < cmap@.len() && 0 <= j < cmap@[i].threads.len() && (#[trigger] cmap@[
                i
            ].threads[j]).root.comment == rs[k] by {
            let (i0, j0) = choose|i0: int, j0: int|
                0 <= i0 < pre_sort.len() && 0 <= j0 < pre_sort[i0].threads.len() && (
                #[trigger] pre_sort[i0].threads[j0]).root.comment == rs[k];
            let th = pre_sort[i0].threads[j0];
            assert(pre_sort[i0].threads.to_multiset().count(th) > 0) by {
                assert(pre_sort[i0].threads.contains(th));
            }
            assert(cmap@[i0].threads.to_multiset().count(th) > 0);
            assert(cmap@[i0].threads.contains(th));
            let j1 = choose|j1: int|
                0 <= j1 < cmap@[i0].threads.len() && cmap@[i0].threads[j1] == th;
            assert(cmap@[i0].threads[j1].root.comment == rs[k]);
        }
        assert forall|i: int| 0 <= i < cmap@.len() implies (#[trigger] cmap@[i]).threads.len()
            > 0 by {
            assert(cmap@[i].threads.to_multiset().len() == pre_sort[i].threads.to_multiset()
                .len());
        }
        assert(total_threads(cmap@) == total_threads(pre_sort)) by {
            assert forall|i: int| 0 <= i < cmap@.len() implies (#[trigger] cmap@[i]).threads.len()
                == (#[trigger] pre_sort[i]).threads.len() by {
                assert(cmap@[i].threads.to_multiset().len() == pre_sort[i].threads.to_multiset()
                    .len());
            }
            lemma_total_threads_same(cmap@, pre_sort);
        }
    }
    (cmap, outdated)
}

/// Buckets with pointwise equal thread counts hold the same total.
proof fn lemma_total_threads_same(a: Seq<SpecCommentMapEntry>, b: Seq<SpecCommentMapEntry>)
    requires
        a.len() == b.len(),
        forall|i: int|
            0 <= i < a.len() ==> (#[trigger] a[i]).threads.len() == (#[trigger] b[i]).threads.len(),
    ensures
        total_threads(a) == total_threads(b),
    decreases a.len(),
{
    if a.len() > 0 {
        assert(a[0].threads.len() == b[0].threads.len());
        assert forall|i: int|
            0 <= i < a.drop_first().len() implies (#[trigger] a.drop_first()[i]).threads.len() == (
        #[trigger] b.drop_first()[i]).threads.len() by {
            assert(a.drop_first()[i] == a[i + 1]);
            assert(b.drop_first()[i] == b[i + 1]);
        }
        lemma_total_threads_same(a.drop_first(), b.drop_first());
    }
}

} // verus!
