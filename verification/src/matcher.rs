//! Resolving a curator narrative against a parsed diff: each hunk reference
//! bound to its concrete hunk, duplicate/missing/out-of-range references
//! turned into warnings, and every hunk no chapter claims collected into an
//! uncategorized bucket. Resolution never fails; all problems are warnings.

use vstd::prelude::*;

use vstd::string::StringExecFns;

use crate::comments::CommentMap;
use crate::comments::CommentThread;
use crate::comments::IssueComment;
use crate::comments::OutdatedComment;
use crate::comments::SpecCommentMapEntry;
use crate::comments::SpecCommentThread;
use crate::comments::key_idx;
use crate::diff_parser::FileDiff;
use crate::diff_parser::Hunk;
use crate::diff_parser::ParsedDiff;
use crate::diff_parser::SpecFileDiff;
use crate::diff_parser::SpecHunk;
use crate::diff_parser::spec_display_path;
use crate::model::Chapter;
use crate::model::HunkRef;
use crate::model::SpecChapter;
use crate::model::SpecHunkRef;
use crate::model::Storyline;
use crate::model::view_opt_string;
use crate::strutil::str_eq;
use crate::strutil::usize_to_string;
use crate::strutil::spec_digits_of;

verus! {

/// A fully resolved narrative, ready for a rendering layer.
#[derive(Debug)]
pub struct ResolvedStory {
    pub description: Option<String>,
    pub chapters: Vec<ResolvedChapter>,
    pub misc: Vec<ResolvedChapter>,
    pub uncategorized: Vec<UncategorizedHunk>,
    pub warnings: Vec<String>,
    pub issue_comments: Vec<IssueComment>,
    pub outdated_comments: Vec<OutdatedComment>,
}

#[derive(Debug)]
pub struct ResolvedChapter {
    pub title: String,
    pub description: Option<String>,
    pub hunks: Vec<ResolvedHunk>,
}

#[derive(Debug)]
pub struct ResolvedHunk {
    pub file_path: String,
    pub file_diff: FileDiff,
    pub hunk: Hunk,
    pub hunk_index: usize,
    pub note: Option<String>,
    pub comments: Vec<CommentThread>,
}

#[derive(Debug)]
pub struct UncategorizedHunk {
    pub file_path: String,
    pub file_diff: FileDiff,
    pub hunk: Hunk,
    pub hunk_index: usize,
    pub comments: Vec<CommentThread>,
}

pub ghost struct SpecResolvedHunk {
    pub file_path: Seq<char>,
    pub file_diff: SpecFileDiff,
    pub hunk: SpecHunk,
    pub hunk_index: int,
    pub note: Option<Seq<char>>,
    pub comments: Seq<SpecCommentThread>,
}

pub ghost struct SpecResolvedChapter {
    pub title: Seq<char>,
    pub description: Option<Seq<char>>,
    pub hunks: Seq<SpecResolvedHunk>,
}

pub ghost struct SpecUncategorizedHunk {
    pub file_path: Seq<char>,
    pub file_diff: SpecFileDiff,
    pub hunk: SpecHunk,
    pub hunk_index: int,
    pub comments: Seq<SpecCommentThread>,
}

impl View for ResolvedHunk {
    type V = SpecResolvedHunk;

    open spec fn view(&self) -> SpecResolvedHunk {
        SpecResolvedHunk {
            file_path: self.file_path@,
            file_diff: self.file_diff@,
            hunk: self.hunk@,
            hunk_index: self.hunk_index as int,
            note: view_opt_string(self.note),
            comments: self.comments@.map_values(|t: CommentThread| t@),
        }
    }
}

impl View for ResolvedChapter {
    type V = SpecResolvedChapter;

    open spec fn view(&self) -> SpecResolvedChapter {
        SpecResolvedChapter {
            title: self.title@,
            description: view_opt_string(self.description),
            hunks: self.hunks@.map_values(|h: ResolvedHunk| h@),
        }
    }
}

impl View for UncategorizedHunk {
    type V = SpecUncategorizedHunk;

    open spec fn view(&self) -> SpecUncategorizedHunk {
        SpecUncategorizedHunk {
            file_path: self.file_path@,
            file_diff: self.file_diff@,
            hunk: self.hunk@,
            hunk_index: self.hunk_index as int,
            comments: self.comments@.map_values(|t: CommentThread| t@),
        }
    }
}

/// Index of the last file whose display path equals `path` — the file the
/// path lookup binds to when several files share a display path.
pub open spec fn last_file_idx(files: Seq<SpecFileDiff>, path: Seq<char>) -> Option<int>
    decreases files.len(),
{
    if files.len() == 0 {
        None
    } else if spec_display_path(files.last()) == path {
        Some(files.len() - 1)
    } else {
        last_file_idx(files.drop_last(), path)
    }
}

pub proof fn lemma_last_file_idx_props(files: Seq<SpecFileDiff>, path: Seq<char>)
    ensures
        match last_file_idx(files, path) {
            Some(i) => 0 <= i < files.len() && spec_display_path(files[i]) == path && forall|
                j: int,
            | i < j < files.len() ==> spec_display_path(#[trigger] files[j]) != path,
            None => forall|j: int|
                0 <= j < files.len() ==> spec_display_path(#[trigger] files[j]) != path,
        },
    decreases files.len(),
{
    if files.len() > 0 && spec_display_path(files.last()) != path {
        lemma_last_file_idx_props(files.drop_last(), path);
        let d = files.drop_last();
        assert(forall|j: int| 0 <= j < d.len() ==> #[trigger] files[j] == d[j]);
    }
}

/// The text of a duplicate-reference warning.
pub open spec fn warn_dup(file: Seq<char>, idx: int) -> Seq<char> {
    "duplicate reference: "@ + file + ":"@ + spec_digits_of(idx)
}

/// The text of an unknown-file warning.
pub open spec fn warn_not_found(file: Seq<char>) -> Seq<char> {
    "file not found in diff: "@ + file
}

/// The text of an out-of-range warning, carrying index and hunk count.
pub open spec fn warn_oob(idx: int, file: Seq<char>, count: int) -> Seq<char> {
    "hunk index "@ + spec_digits_of(idx) + " out of bounds for "@ + file + " (has "@
        + spec_digits_of(count) + " hunks)"@
}

fn make_warn_dup(file: &str, idx: usize) -> (r: String)
    ensures
        r@ == warn_dup(file@, idx as int),
{
    let mut s = "duplicate reference: ".to_owned();
    s.append(file);
    s.append(":");
    let d = usize_to_string(idx);
    s.append(d.as_str());
    proof {
        assert(s@ =~= warn_dup(file@, idx as int));
    }
    s
}

fn make_warn_not_found(file: &str) -> (r: String)
    ensures
        r@ == warn_not_found(file@),
{
    let mut s = "file not found in diff: ".to_owned();
    s.append(file);
    proof {
        assert(s@ =~= warn_not_found(file@));
    }
    s
}

fn make_warn_oob(idx: usize, file: &str, count: usize) -> (r: String)
    ensures
        r@ == warn_oob(idx as int, file@, count as int),
{
    let mut s = "hunk index ".to_owned();
    let d1 = usize_to_string(idx);
    s.append(d1.as_str());
    s.append(" out of bounds for ");
    s.append(file);
    s.append(" (has ");
    let d2 = usize_to_string(count);
    s.append(d2.as_str());
    s.append(" hunks)");
    proof {
        assert(s@ =~= warn_oob(idx as int, file@, count as int));
    }
    s
}

/// A hunk key: the display path of a file and an index into its hunks.
pub open spec fn ref_key(href: SpecHunkRef) -> (Seq<char>, int) {
    (href.file, href.hunk_index)
}

/// The outcome of resolving one hunk reference against one state: the
/// resolved hunk if any, the claimed-key list, the warning if any, and the
/// pending-comment map after any consumption.
pub open spec fn spec_resolve_ref(
    href: SpecHunkRef,
    files: Seq<SpecFileDiff>,
    refs: Seq<(Seq<char>, int)>,
    cmap: Seq<SpecCommentMapEntry>,
) -> (Option<SpecResolvedHunk>, Seq<(Seq<char>, int)>, Option<Seq<char>>, Seq<
    SpecCommentMapEntry,
>) {
    let key = ref_key(href);
    if refs.contains(key) {
        (None, refs, Some(warn_dup(href.file, href.hunk_index)), cmap)
    } else {
        match last_file_idx(files, href.file) {
            None => (None, refs, Some(warn_not_found(href.file)), cmap),
            Some(fi) => {
                let f = files[fi];
                if !(0 <= href.hunk_index < f.hunks.len()) {
                    (
                        None,
                        refs,
                        Some(warn_oob(href.hunk_index, href.file, f.hunks.len() as int)),
                        cmap,
                    )
                } else {
                    let threads = match key_idx(cmap, key) {
                        Some(i) => cmap[i].threads,
                        None => Seq::empty(),
                    };
                    let cmap2 = match key_idx(cmap, key) {
                        Some(i) => cmap.remove(i),
                        None => cmap,
                    };
                    (
                        Some(
                            SpecResolvedHunk {
                                file_path: href.file,
                                file_diff: f,
                                hunk: f.hunks[href.hunk_index],
                                hunk_index: href.hunk_index,
                                note: href.note,
                                comments: threads,
                            },
                        ),
                        refs.push(key),
                        None,
                        cmap2,
                    )
                }
            },
        }
    }
}

/// Resolve one hunk reference: check the claimed set, look the file up by
/// display path (the last file wins), check the index, then claim the key
/// and attach any pending comment threads for it.
pub fn resolve_hunk_ref(
    href: &HunkRef,
    diff: &ParsedDiff,
    referenced: &mut Vec<(String, usize)>,
    warnings: &mut Vec<String>,
    comment_map: &mut CommentMap,
) -> (r: Option<ResolvedHunk>)
    ensures
        ({
            let step = spec_resolve_ref(
                href@,
                diff@,
                old(referenced)@.map_values(|k: (String, usize)| (k.0@, k.1 as int)),
                old(comment_map)@,
            );
            &&& match r {
                Some(rh) => step.0 == Some(rh@),
                None => step.0 is None,
            }
            &&& final(referenced)@.map_values(|k: (String, usize)| (k.0@, k.1 as int)) == step.1
            &&& match step.2 {
                Some(w) => final(warnings)@.map_values(|s: String| s@) == old(
                    warnings,
                )@.map_values(|s: String| s@).push(w),
                None => final(warnings)@ == old(warnings)@,
            }
            &&& final(comment_map)@ == step.3
        }),
{
    let ghost refs0 = referenced@.map_values(|k: (String, usize)| (k.0@, k.1 as int));
    let ghost key = ref_key(href@);

    // Duplicate check against the shared claimed set.
    let n = referenced.len();
    let mut i: usize = 0;
    let mut is_dup = false;
    while i < n
        invariant
            0 <= i <= n,
            n == referenced@.len(),
            refs0 == referenced@.map_values(|k: (String, usize)| (k.0@, k.1 as int)),
            key == ref_key(href@),
            is_dup ==> refs0.contains(key),
            !is_dup ==> forall|j: int| 0 <= j < i ==> refs0[j] != key,
        decreases n - i,
    {
        if !is_dup {
            let e = &referenced[i];
            proof {
                assert(refs0[i as int] == (referenced@[i as int].0@, referenced@[i as int].1 as int));
            }
            if str_eq(e.0.as_str(), href.file.as_str()) && e.1 == href.hunk_index {
                is_dup = true;
            }
        }
        i = i + 1;
    }
    if is_dup {
        let w = make_warn_dup(href.file.as_str(), href.hunk_index);
        let ghost w0 = warnings@.map_values(|s: String| s@);
        warnings.push(w);
        proof {
            assert(warnings@.map_values(|s: String| s@) =~= w0.push(
                warn_dup(href@.file, href@.hunk_index),
            ));
        }
        return None;
    }
    proof {
        if refs0.contains(key) {
            let j = choose|j: int| 0 <= j < refs0.len() && refs0[j] == key;
            assert(false);
        }
    }

    // Look the file up by display path; the last match wins.
    let ghost fv = diff@;
    let nf = diff.files.len();
    let mut fi: usize = nf;
    let mut found = false;
    proof {
        assert(fv.take(nf as int) =~= fv);
    }
    while fi > 0 && !found
        invariant
            0 <= fi <= nf,
            nf == diff.files@.len(),
            fv == diff@,
            fv.len() == nf,
            found ==> fi < nf && last_file_idx(fv, href@.file) == Some(fi as int),
            !found ==> last_file_idx(fv, href@.file) == last_file_idx(
                fv.take(fi as int),
                href@.file,
            ),
        decreases fi,
    {
        let cand = fi - 1;
        let f = &diff.files[cand];
        proof {
            assert(fv.take(fi as int).last() == fv[cand as int]);
            assert(fv[cand as int] == diff.files@[cand as int]@);
            assert(fv.take(fi as int).drop_last() =~= fv.take(cand as int));
        }
        if str_eq(f.display_path(), href.file.as_str()) {
            found = true;
            fi = cand;
            proof {
                assert(fv.take(cand + 1).last() == fv[cand as int]);
            }
        } else {
            fi = cand;
        }
    }
    if !found {
        proof {
            assert(fv.take(0) =~= Seq::<SpecFileDiff>::empty());
            assert(last_file_idx(fv, href@.file) is None);
        }
        let w = make_warn_not_found(href.file.as_str());
        let ghost w0 = warnings@.map_values(|s: String| s@);
        warnings.push(w);
        proof {
            assert(warnings@.map_values(|s: String| s@) =~= w0.push(warn_not_found(href@.file)));
        }
        return None;
    }

    let f = &diff.files[fi];
    proof {
        assert(f@ == fv[fi as int]);
    }
    if href.hunk_index >= f.hunks.len() {
        let w = make_warn_oob(href.hunk_index, href.file.as_str(), f.hunks.len());
        let ghost w0 = warnings@.map_values(|s: String| s@);
        warnings.push(w);
        proof {
            assert(warnings@.map_values(|s: String| s@) =~= w0.push(
                warn_oob(href@.hunk_index, href@.file, fv[fi as int].hunks.len() as int),
            ));
        }
        return None;
    }

    // Claim the key and collect any pending comment threads for it.
    referenced.push((href.file.clone(), href.hunk_index));
    proof {
        assert(referenced@.map_values(|k: (String, usize)| (k.0@, k.1 as int)) =~= refs0.push(
            key,
        ));
    }
    let threads = match comment_map.remove(href.file.as_str(), href.hunk_index) {
        Some(v) => v,
        None => Vec::new(),
    };
    proof {
        assert(threads@.map_values(|t: CommentThread| t@) =~= match key_idx(
            old(comment_map)@,
            key,
        ) {
            Some(i) => old(comment_map)@[i].threads,
            None => Seq::<SpecCommentThread>::empty(),
        });
    }
    let note = match &href.note {
        Some(s) => Some(s.clone()),
        None => None,
    };
    let rh = ResolvedHunk {
        file_path: href.file.clone(),
        file_diff: crate::diff_parser::clone_file_diff(f),
        hunk: crate::diff_parser::clone_hunk(&f.hunks[href.hunk_index]),
        hunk_index: href.hunk_index,
        note,
        comments: threads,
    };
    Some(rh)
}

/// The claimed keys of a run of resolved hunks, in order.
pub open spec fn hunk_keys(hs: Seq<SpecResolvedHunk>) -> Seq<(Seq<char>, int)> {
    hs.map_values(|h: SpecResolvedHunk| (h.file_path, h.hunk_index))
}

/// Resolving one chapter's references in declared order, threading the
/// claimed-key list and the pending-comment map through every step.
pub open spec fn spec_resolve_refs(
    refs_list: Seq<SpecHunkRef>,
    files: Seq<SpecFileDiff>,
    refs: Seq<(Seq<char>, int)>,
    cmap: Seq<SpecCommentMapEntry>,
) -> (Seq<SpecResolvedHunk>, Seq<(Seq<char>, int)>, Seq<Seq<char>>, Seq<SpecCommentMapEntry>)
    decreases refs_list.len(),
{
    if refs_list.len() == 0 {
        (Seq::empty(), refs, Seq::empty(), cmap)
    } else {
        let step = spec_resolve_ref(refs_list[0], files, refs, cmap);
        let rest = spec_resolve_refs(refs_list.drop_first(), files, step.1, step.3);
        let hs = match step.0 {
            Some(h) => seq![h] + rest.0,
            None => rest.0,
        };
        let ws = match step.2 {
            Some(w) => seq![w] + rest.2,
            None => rest.2,
        };
        (hs, rest.1, ws, rest.3)
    }
}

/// Resolving a chapter group in declared order, against one shared state.
pub open spec fn spec_resolve_chapters(
    chs: Seq<SpecChapter>,
    files: Seq<SpecFileDiff>,
    refs: Seq<(Seq<char>, int)>,
    cmap: Seq<SpecCommentMapEntry>,
) -> (Seq<SpecResolvedChapter>, Seq<(Seq<char>, int)>, Seq<Seq<char>>, Seq<SpecCommentMapEntry>)
    decreases chs.len(),
{
    if chs.len() == 0 {
        (Seq::empty(), refs, Seq::empty(), cmap)
    } else {
        let step = spec_resolve_refs(chs[0].hunks, files, refs, cmap);
        let rest = spec_resolve_chapters(chs.drop_first(), files, step.1, step.3);
        (
            seq![
                SpecResolvedChapter {
                    title: chs[0].title,
                    description: chs[0].description,
                    hunks: step.0,
                },
            ] + rest.0,
            rest.1,
            step.2 + rest.2,
            rest.3,
        )
    }
}

/// The claimed keys of a resolved chapter group, flattened in order.
pub open spec fn chapter_keys(chs: Seq<SpecResolvedChapter>) -> Seq<(Seq<char>, int)>
    decreases chs.len(),
{
    if chs.len() == 0 {
        Seq::empty()
    } else {
        hunk_keys(chs[0].hunks) + chapter_keys(chs.drop_first())
    }
}

/// The unclaimed hunks of one file from index `k` on, in index order, each
/// taking any pending comment threads for its key.
pub open spec fn spec_uncat_hunks(
    f: SpecFileDiff,
    path: Seq<char>,
    k: int,
    refs: Seq<(Seq<char>, int)>,
    cmap: Seq<SpecCommentMapEntry>,
) -> (Seq<SpecUncategorizedHunk>, Seq<SpecCommentMapEntry>)
    decreases f.hunks.len() - k,
{
    if k < 0 || k >= f.hunks.len() {
        (Seq::empty(), cmap)
    } else {
        let key = (path, k);
        if refs.contains(key) {
            spec_uncat_hunks(f, path, k + 1, refs, cmap)
        } else {
            let threads = match key_idx(cmap, key) {
                Some(i) => cmap[i].threads,
                None => Seq::empty(),
            };
            let cmap2 = match key_idx(cmap, key) {
                Some(i) => cmap.remove(i),
                None => cmap,
            };
            let rest = spec_uncat_hunks(f, path, k + 1, refs, cmap2);
            (
                seq![
                    SpecUncategorizedHunk {
                        file_path: path,
                        file_diff: f,
                        hunk: f.hunks[k],
                        hunk_index: k,
                        comments: threads,
                    },
                ] + rest.0,
                rest.1,
            )
        }
    }
}

/// The unclaimed hunks of the whole diff, in file order then index order.
pub open spec fn spec_uncategorized(
    files: Seq<SpecFileDiff>,
    fi: int,
    refs: Seq<(Seq<char>, int)>,
    cmap: Seq<SpecCommentMapEntry>,
) -> (Seq<SpecUncategorizedHunk>, Seq<SpecCommentMapEntry>)
    decreases files.len() - fi,
{
    if fi < 0 || fi >= files.len() {
        (Seq::empty(), cmap)
    } else {
        let fstep = spec_uncat_hunks(files[fi], spec_display_path(files[fi]), 0, refs, cmap);
        let rest = spec_uncategorized(files, fi + 1, refs, fstep.1);
        (fstep.0 + rest.0, rest.1)
    }
}

/// The number of hunks in the whole diff.
pub open spec fn spec_total_hunks(files: Seq<SpecFileDiff>, fi: int) -> int
    decreases files.len() - fi,
{
    if fi < 0 || fi >= files.len() {
        0
    } else {
        files[fi].hunks.len() + spec_total_hunks(files, fi + 1)
    }
}

/// No two files share a display path. Under duplicate display paths one
/// claimed key can shadow several diff positions, and the coverage
/// accounting below does not apply.
pub open spec fn spec_distinct_paths(files: Seq<SpecFileDiff>) -> bool {
    forall|i: int, j: int|
        0 <= i < j < files.len() ==> spec_display_path(#[trigger] files[i]) != spec_display_path(
            #[trigger] files[j],
        )
}

/// A key that the uncategorized sweep can match: its file exists and its
/// index is within that file's hunk count.
pub open spec fn key_valid(files: Seq<SpecFileDiff>, key: (Seq<char>, int)) -> bool {
    match last_file_idx(files, key.0) {
        Some(fi) => 0 <= key.1 < files[fi].hunks.len(),
        None => false,
    }
}

/// How many positions of one file from index `k` on are claimed.
pub open spec fn claimed_in_file(
    path: Seq<char>,
    n: int,
    k: int,
    refs: Seq<(Seq<char>, int)>,
) -> int
    decreases n - k,
{
    if k < 0 || k >= n {
        0
    } else {
        (if refs.contains((path, k)) {
            1int
        } else {
            0int
        }) + claimed_in_file(path, n, k + 1, refs)
    }
}

/// How many positions of the whole diff are claimed.
pub open spec fn claimed_positions(
    files: Seq<SpecFileDiff>,
    fi: int,
    refs: Seq<(Seq<char>, int)>,
) -> int
    decreases files.len() - fi,
{
    if fi < 0 || fi >= files.len() {
        0
    } else {
        claimed_in_file(
            spec_display_path(files[fi]),
            files[fi].hunks.len() as int,
            0,
            refs,
        ) + claimed_positions(files, fi + 1, refs)
    }
}

/// Each emitted key extends the claimed-key list, is addressable in the
/// diff, and was not claimed before its own step.
proof fn lemma_resolve_refs_shape(
    refs_list: Seq<SpecHunkRef>,
    files: Seq<SpecFileDiff>,
    refs: Seq<(Seq<char>, int)>,
    cmap: Seq<SpecCommentMapEntry>,
)
    ensures
        ({
            let res = spec_resolve_refs(refs_list, files, refs, cmap);
            let ks = hunk_keys(res.0);
            &&& res.1 == refs + ks
            &&& forall|m: int| 0 <= m < ks.len() ==> key_valid(files, #[trigger] ks[m])
            &&& forall|m: int|
                0 <= m < ks.len() ==> !(refs + ks.take(m)).contains(#[trigger] ks[m])
        }),
    decreases refs_list.len(),
{
    let res = spec_resolve_refs(refs_list, files, refs, cmap);
    let ks = hunk_keys(res.0);
    if refs_list.len() == 0 {
        assert(res.1 =~= refs + ks);
    } else {
        let step = spec_resolve_ref(refs_list[0], files, refs, cmap);
        let rest = spec_resolve_refs(refs_list.drop_first(), files, step.1, step.3);
        let ksr = hunk_keys(rest.0);
        lemma_resolve_refs_shape(refs_list.drop_first(), files, step.1, step.3);
        match step.0 {
            None => {
                assert(step.1 == refs);
                assert(ks =~= ksr);
                assert forall|m: int| 0 <= m < ks.len() implies !(refs + ks.take(m)).contains(
                    #[trigger] ks[m],
                ) by {
                    assert(ks[m] == ksr[m]);
                    assert(refs + ks.take(m) =~= refs + ksr.take(m));
                }
            },
            Some(h) => {
                let key = ref_key(refs_list[0]);
                lemma_last_file_idx_props(files, refs_list[0].file);
                assert(h.file_path == key.0 && h.hunk_index == key.1);
                assert(ks =~= seq![key] + ksr);
                assert(step.1 == refs.push(key));
                assert(res.1 == step.1 + ksr);
                assert(res.1 =~= refs + ks);
                assert(key_valid(files, key));
                assert forall|m: int| 0 <= m < ks.len() implies key_valid(
                    files,
                    #[trigger] ks[m],
                ) by {
                    if m > 0 {
                        assert(ks[m] == ksr[m - 1]);
                    }
                }
                assert forall|m: int| 0 <= m < ks.len() implies !(refs + ks.take(m)).contains(
                    #[trigger] ks[m],
                ) by {
                    if m == 0 {
                        assert(refs + ks.take(0) =~= refs);
                        if refs.contains(key) {
                            assert(false);
                        }
                    } else {
                        assert(ks[m] == ksr[m - 1]);
                        assert(refs + ks.take(m) =~= step.1 + ksr.take(m - 1));
                    }
                }
            },
        }
    }
}

/// The chapter-group fold has the same shape, with the keys flattened in
/// chapter order.
proof fn lemma_resolve_chapters_shape(
    chs: Seq<SpecChapter>,
    files: Seq<SpecFileDiff>,
    refs: Seq<(Seq<char>, int)>,
    cmap: Seq<SpecCommentMapEntry>,
)
    ensures
        ({
            let res = spec_resolve_chapters(chs, files, refs, cmap);
            let ks = chapter_keys(res.0);
            &&& res.1 == refs + ks
            &&& forall|m: int| 0 <= m < ks.len() ==> key_valid(files, #[trigger] ks[m])
            &&& forall|m: int|
                0 <= m < ks.len() ==> !(refs + ks.take(m)).contains(#[trigger] ks[m])
        }),
    decreases chs.len(),
{
    let res = spec_resolve_chapters(chs, files, refs, cmap);
    let ks = chapter_keys(res.0);
    if chs.len() == 0 {
        assert(res.1 =~= refs + ks);
    } else {
        let step = spec_resolve_refs(chs[0].hunks, files, refs, cmap);
        let rest = spec_resolve_chapters(chs.drop_first(), files, step.1, step.3);
        let ks0 = hunk_keys(step.0);
        let ksr = chapter_keys(rest.0);
        lemma_resolve_refs_shape(chs[0].hunks, files, refs, cmap);
        lemma_resolve_chapters_shape(chs.drop_first(), files, step.1, step.3);
        assert(res.0.drop_first() =~= rest.0);
        assert(res.0[0].hunks == step.0);
        assert(ks =~= ks0 + ksr);
        assert(res.1 == (refs + ks0) + ksr);
        assert(res.1 =~= refs + ks);
        assert forall|m: int| 0 <= m < ks.len() implies key_valid(files, #[trigger] ks[m]) by {
            if m < ks0.len() {
                assert(ks[m] == ks0[m]);
            } else {
                assert(ks[m] == ksr[m - ks0.len()]);
            }
        }
        assert forall|m: int| 0 <= m < ks.len() implies !(refs + ks.take(m)).contains(
            #[trigger] ks[m],
        ) by {
            if m < ks0.len() {
                assert(ks[m] == ks0[m]);
                assert(refs + ks.take(m) =~= refs + ks0.take(m));
            } else {
                assert(ks[m] == ksr[m - ks0.len()]);
                assert(refs + ks.take(m) =~= (refs + ks0) + ksr.take(m - ks0.len()));
            }
        }
    }
}

/// Keys none of which were claimed before their own step are pairwise
/// distinct.
proof fn lemma_fresh_no_dup(ks: Seq<(Seq<char>, int)>)
    requires
        forall|m: int|
            0 <= m < ks.len() ==> !(Seq::<(Seq<char>, int)>::empty() + ks.take(m)).contains(
                #[trigger] ks[m],
            ),
    ensures
        ks.no_duplicates(),
{
    assert forall|m1: int, m2: int|
        0 <= m1 < ks.len() && 0 <= m2 < ks.len() && m1 != m2 implies ks[m1] != ks[m2] by {
        let lo = if m1 < m2 {
            m1
        } else {
            m2
        };
        let hi = if m1 < m2 {
            m2
        } else {
            m1
        };
        if ks[lo] == ks[hi] {
            let pre = Seq::<(Seq<char>, int)>::empty() + ks.take(hi);
            assert(pre[lo] == ks[lo]);
            assert(pre.contains(ks[hi]));
            assert(false);
        }
    }
}

/// Claiming nothing leaves every position unclaimed.
proof fn lemma_claimed_in_file_empty(path: Seq<char>, n: int, k: int)
    ensures
        claimed_in_file(path, n, k, Seq::<(Seq<char>, int)>::empty()) == 0,
    decreases n - k,
{
    if 0 <= k < n {
        if Seq::<(Seq<char>, int)>::empty().contains((path, k)) {
            let j = choose|j: int|
                0 <= j < 0 && Seq::<(Seq<char>, int)>::empty()[j] == (path, k);
            assert(false);
        }
        lemma_claimed_in_file_empty(path, n, k + 1);
    }
}

proof fn lemma_claimed_positions_empty(files: Seq<SpecFileDiff>, fi: int)
    ensures
        claimed_positions(files, fi, Seq::<(Seq<char>, int)>::empty()) == 0,
    decreases files.len() - fi,
{
    if 0 <= fi < files.len() {
        lemma_claimed_in_file_empty(
            spec_display_path(files[fi]),
            files[fi].hunks.len() as int,
            0,
        );
        lemma_claimed_positions_empty(files, fi + 1);
    }
}

/// One more claimed key in the same file claims one more position there
/// when its index is in range and it was not claimed yet.
proof fn lemma_claimed_in_file_push(
    path: Seq<char>,
    n: int,
    k: int,
    refs: Seq<(Seq<char>, int)>,
    key: (Seq<char>, int),
)
    requires
        0 <= k,
    ensures
        claimed_in_file(path, n, k, refs.push(key)) == claimed_in_file(path, n, k, refs) + (
        if key.0 == path && k <= key.1 < n && !refs.contains(key) {
            1int
        } else {
            0int
        }),
    decreases n - k,
{
    if 0 <= k < n {
        lemma_claimed_in_file_push(path, n, k + 1, refs, key);
        if (path, k) == key {
            assert(refs.push(key)[refs.len() as int] == key);
            assert(refs.push(key).contains((path, k)));
        } else {
            assert(refs.push(key).contains((path, k)) == refs.contains((path, k))) by {
                if refs.contains((path, k)) {
                    let j = choose|j: int| 0 <= j < refs.len() && refs[j] == (path, k);
                    assert(refs.push(key)[j] == (path, k));
                }
                if refs.push(key).contains((path, k)) {
                    let j = choose|j: int|
                        0 <= j < refs.push(key).len() && refs.push(key)[j] == (path, k);
                    assert(j < refs.len());
                    assert(refs[j] == (path, k));
                }
            }
        }
    } else {
        if key.0 == path && k <= key.1 < n {
            assert(false);
        }
    }
}

/// One more valid, fresh key claims exactly one more position in the diff,
/// provided display paths are distinct.
proof fn lemma_claimed_positions_push(
    files: Seq<SpecFileDiff>,
    fi: int,
    refs: Seq<(Seq<char>, int)>,
    key: (Seq<char>, int),
)
    requires
        spec_distinct_paths(files),
        key_valid(files, key),
        !refs.contains(key),
        0 <= fi <= files.len(),
    ensures
        claimed_positions(files, fi, refs.push(key)) == claimed_positions(files, fi, refs) + (
        if exists|j: int|
            fi <= j < files.len() && spec_display_path(#[trigger] files[j]) == key.0 {
            1int
        } else {
            0int
        }),
    decreases files.len() - fi,
{
    lemma_last_file_idx_props(files, key.0);
    if fi < files.len() {
        lemma_claimed_positions_push(files, fi + 1, refs, key);
        let p = spec_display_path(files[fi]);
        lemma_claimed_in_file_push(p, files[fi].hunks.len() as int, 0, refs, key);
        if p == key.0 {
            let wit = match last_file_idx(files, key.0) {
                Some(w) => w,
                None => 0,
            };
            assert(last_file_idx(files, key.0) == Some(wit));
            assert(spec_display_path(files[wit]) == key.0);
            if wit != fi {
                let lo = if wit < fi { wit } else { fi };
                let hi = if wit < fi { fi } else { wit };
                assert(spec_display_path(files[lo]) == spec_display_path(files[hi]));
                assert(false);
            }
            assert(0 <= key.1 < files[fi].hunks.len());
            if exists|j: int|
                fi + 1 <= j < files.len() && spec_display_path(#[trigger] files[j]) == key.0 {
                let j = choose|j: int|
                    fi + 1 <= j < files.len() && spec_display_path(#[trigger] files[j]) == key.0;
                assert(spec_display_path(files[fi]) == spec_display_path(files[j]));
                assert(false);
            }
        } else {
            assert((exists|j: int|
                fi <= j < files.len() && spec_display_path(#[trigger] files[j]) == key.0)
                == (exists|j: int|
                fi + 1 <= j < files.len() && spec_display_path(#[trigger] files[j]) == key.0))
                by {
                if exists|j: int|
                    fi <= j < files.len() && spec_display_path(#[trigger] files[j]) == key.0 {
                    let j = choose|j: int|
                        fi <= j < files.len() && spec_display_path(#[trigger] files[j]) == key.0;
                    assert(j != fi);
                    assert(fi + 1 <= j);
                }
            }
        }
    }
}

/// Valid, pairwise-fresh keys claim exactly their number of positions.
proof fn lemma_claimed_positions_many(
    files: Seq<SpecFileDiff>,
    refs: Seq<(Seq<char>, int)>,
    ks: Seq<(Seq<char>, int)>,
)
    requires
        spec_distinct_paths(files),
        forall|m: int| 0 <= m < ks.len() ==> key_valid(files, #[trigger] ks[m]),
        forall|m: int| 0 <= m < ks.len() ==> !(refs + ks.take(m)).contains(#[trigger] ks[m]),
    ensures
        claimed_positions(files, 0, refs + ks) == claimed_positions(files, 0, refs) + ks.len(),
    decreases ks.len(),
{
    if ks.len() == 0 {
        assert(refs + ks =~= refs);
    } else {
        let key = ks[0];
        assert(refs + ks.take(0) =~= refs);
        assert(key_valid(files, key));
        assert(!refs.contains(key));
        lemma_claimed_positions_push(files, 0, refs, key);
        lemma_last_file_idx_props(files, key.0);
        let wit = match last_file_idx(files, key.0) {
            Some(w) => w,
            None => 0,
        };
        assert(0 <= wit < files.len() && spec_display_path(files[wit]) == key.0);
        assert(claimed_positions(files, 0, refs.push(key)) == claimed_positions(files, 0, refs)
            + 1);
        let refs2 = refs.push(key);
        let ks2 = ks.drop_first();
        assert forall|m: int| 0 <= m < ks2.len() implies key_valid(files, #[trigger] ks2[m]) by {
            assert(ks2[m] == ks[m + 1]);
        }
        assert forall|m: int| 0 <= m < ks2.len() implies !(refs2 + ks2.take(m)).contains(
            #[trigger] ks2[m],
        ) by {
            assert(ks2[m] == ks[m + 1]);
            assert(refs2 + ks2.take(m) =~= refs + ks.take(m + 1));
        }
        lemma_claimed_positions_many(files, refs2, ks2);
        assert(refs2 + ks2 =~= refs + ks);
    }
}

/// The sweep emits exactly the unclaimed positions.
proof fn lemma_uncat_hunks_count(
    f: SpecFileDiff,
    path: Seq<char>,
    k: int,
    refs: Seq<(Seq<char>, int)>,
    cmap: Seq<SpecCommentMapEntry>,
)
    requires
        0 <= k,
    ensures
        spec_uncat_hunks(f, path, k, refs, cmap).0.len() + claimed_in_file(
            path,
            f.hunks.len() as int,
            k,
            refs,
        ) == if k <= f.hunks.len() {
            f.hunks.len() - k
        } else {
            0int
        },
    decreases f.hunks.len() - k,
{
    if k < f.hunks.len() {
        if refs.contains((path, k)) {
            lemma_uncat_hunks_count(f, path, k + 1, refs, cmap);
        } else {
            let cmap2 = match key_idx(cmap, (path, k)) {
                Some(i) => cmap.remove(i),
                None => cmap,
            };
            lemma_uncat_hunks_count(f, path, k + 1, refs, cmap2);
        }
    }
}

proof fn lemma_uncategorized_count(
    files: Seq<SpecFileDiff>,
    fi: int,
    refs: Seq<(Seq<char>, int)>,
    cmap: Seq<SpecCommentMapEntry>,
)
    requires
        0 <= fi,
    ensures
        spec_uncategorized(files, fi, refs, cmap).0.len() + claimed_positions(files, fi, refs)
            == spec_total_hunks(files, fi),
    decreases files.len() - fi,
{
    if fi < files.len() {
        let fstep = spec_uncat_hunks(files[fi], spec_display_path(files[fi]), 0, refs, cmap);
        lemma_uncat_hunks_count(files[fi], spec_display_path(files[fi]), 0, refs, cmap);
        lemma_uncategorized_count(files, fi + 1, refs, fstep.1);
    }
}

/// Claimed positions are never negative.
proof fn lemma_claimed_nonneg(files: Seq<SpecFileDiff>, fi: int, refs: Seq<(Seq<char>, int)>)
    ensures
        claimed_positions(files, fi, refs) >= 0,
    decreases files.len() - fi,
{
    if 0 <= fi < files.len() {
        lemma_claimed_in_file_nonneg(
            spec_display_path(files[fi]),
            files[fi].hunks.len() as int,
            0,
            refs,
        );
        lemma_claimed_nonneg(files, fi + 1, refs);
    }
}

proof fn lemma_claimed_in_file_nonneg(
    path: Seq<char>,
    n: int,
    k: int,
    refs: Seq<(Seq<char>, int)>,
)
    ensures
        claimed_in_file(path, n, k, refs) >= 0,
    decreases n - k,
{
    if 0 <= k < n {
        lemma_claimed_in_file_nonneg(path, n, k + 1, refs);
    }
}

/// The view of a claimed-key list.
pub open spec fn keys_view(v: Seq<(String, usize)>) -> Seq<(Seq<char>, int)> {
    v.map_values(|k: (String, usize)| (k.0@, k.1 as int))
}

/// Resolve one chapter group's references in declared order, threading the
/// shared claimed-key list, warning list and pending-comment map.
#[verifier::loop_isolation(false)]
pub fn resolve_chapters(
    chapters: &Vec<Chapter>,
    diff: &ParsedDiff,
    referenced: &mut Vec<(String, usize)>,
    warnings: &mut Vec<String>,
    comment_map: &mut CommentMap,
) -> (r: Vec<ResolvedChapter>)
    ensures
        ({
            let res = spec_resolve_chapters(
                chapters@.map_values(|c: Chapter| c@),
                diff@,
                keys_view(old(referenced)@),
                old(comment_map)@,
            );
            &&& r@.map_values(|c: ResolvedChapter| c@) == res.0
            &&& keys_view(final(referenced)@) == res.1
            &&& final(warnings)@.map_values(|s: String| s@) == old(warnings)@.map_values(
                |s: String| s@,
            ) + res.2
            &&& final(comment_map)@ == res.3
        }),
{
    let ghost files = diff@;
    let ghost chs = chapters@.map_values(|c: Chapter| c@);
    let ghost full = spec_resolve_chapters(
        chs,
        files,
        keys_view(referenced@),
        comment_map@,
    );
    let ghost w00 = warnings@.map_values(|s: String| s@);
    let ghost mut added_all: Seq<Seq<char>> = Seq::empty();
    let mut out: Vec<ResolvedChapter> = Vec::new();
    let nch = chapters.len();
    let mut ci: usize = 0;
    proof {
        assert(chs.skip(0) =~= chs);
        assert(w00 + added_all =~= w00);
        assert(out@.map_values(|c: ResolvedChapter| c@) =~= Seq::<SpecResolvedChapter>::empty());
    }
    while ci < nch
        invariant
            0 <= ci <= nch,
            ({
                let y = spec_resolve_chapters(
                    chs.skip(ci as int),
                    files,
                    keys_view(referenced@),
                    comment_map@,
                );
                &&& full.0 == out@.map_values(|c: ResolvedChapter| c@) + y.0
                &&& full.1 == y.1
                &&& full.2 == added_all + y.2
                &&& full.3 == y.3
            }),
            warnings@.map_values(|s: String| s@) == w00 + added_all,
        decreases nch - ci,
    {
        let ch = &chapters[ci];
        let ghost rl = ch.hunks@.map_values(|h: HunkRef| h@);
        let ghost cfull = spec_resolve_refs(rl, files, keys_view(referenced@), comment_map@);
        let ghost w_c0 = warnings@.map_values(|s: String| s@);
        let ghost mut added: Seq<Seq<char>> = Seq::empty();
        let mut hunks_out: Vec<ResolvedHunk> = Vec::new();
        let nh = ch.hunks.len();
        let mut k: usize = 0;
        proof {
            assert(chs.skip(ci as int)[0] == chs[ci as int]);
            assert(chs[ci as int].hunks == rl);
            assert(rl.skip(0) =~= rl);
            assert(w_c0 + added =~= w_c0);
            assert(hunks_out@.map_values(|h: ResolvedHunk| h@) =~= Seq::<
                SpecResolvedHunk,
            >::empty());
        }
        while k < nh
            invariant
                0 <= k <= nh,
                ({
                    let x = spec_resolve_refs(
                        rl.skip(k as int),
                        files,
                        keys_view(referenced@),
                        comment_map@,
                    );
                    &&& cfull.0 == hunks_out@.map_values(|h: ResolvedHunk| h@) + x.0
                    &&& cfull.1 == x.1
                    &&& cfull.2 == added + x.2
                    &&& cfull.3 == x.3
                }),
                warnings@.map_values(|s: String| s@) == w_c0 + added,
            decreases nh - k,
        {
            let ghost pre_keys = keys_view(referenced@);
            let ghost pre_cmap = comment_map@;
            let ghost pre_hunks = hunks_out@.map_values(|h: ResolvedHunk| h@);
            let ghost step = spec_resolve_ref(rl[k as int], files, pre_keys, pre_cmap);
            proof {
                assert(rl.skip(k as int)[0] == rl[k as int]);
                assert(rl[k as int] == ch.hunks@[k as int]@);
                assert(rl.skip(k as int).drop_first() =~= rl.skip(k + 1));
            }
            match resolve_hunk_ref(&ch.hunks[k], diff, referenced, warnings, comment_map) {
                Some(rh) => {
                    hunks_out.push(rh);
                    proof {
                        assert(hunks_out@.map_values(|h: ResolvedHunk| h@) =~= pre_hunks.push(
                            rh@,
                        ));
                        assert(step.0 == Some(rh@));
                        let x2 = spec_resolve_refs(
                            rl.skip(k + 1),
                            files,
                            keys_view(referenced@),
                            comment_map@,
                        );
                        assert(pre_hunks + (seq![rh@] + x2.0) =~= pre_hunks.push(rh@) + x2.0);
                    }
                },
                None => {
                    proof {
                        match step.2 {
                            Some(w) => {
                                assert(warnings@.map_values(|s: String| s@) == (w_c0 + added).push(
                                    w,
                                ));
                                assert((w_c0 + added).push(w) =~= w_c0 + added.push(w));
                                let x2 = spec_resolve_refs(
                                    rl.skip(k + 1),
                                    files,
                                    keys_view(referenced@),
                                    comment_map@,
                                );
                                assert(added + (seq![w] + x2.2) =~= added.push(w) + x2.2);
                                added = added.push(w);
                            },
                            None => {
                                assert(false);
                            },
                        }
                    }
                },
            }
            k = k + 1;
        }
        let title = ch.title.clone();
        let description = match &ch.description {
            Some(s) => Some(s.clone()),
            None => None,
        };
        let ghost pre_out = out@.map_values(|c: ResolvedChapter| c@);
        out.push(ResolvedChapter { title, description, hunks: hunks_out });
        proof {
            assert(rl.skip(nh as int).len() == 0);
            let rc = SpecResolvedChapter {
                title: chs[ci as int].title,
                description: chs[ci as int].description,
                hunks: cfull.0,
            };
            assert(out@.map_values(|c: ResolvedChapter| c@) =~= pre_out.push(rc));
            let y2 = spec_resolve_chapters(
                chs.skip(ci + 1),
                files,
                keys_view(referenced@),
                comment_map@,
            );
            assert(chs.skip(ci as int).drop_first() =~= chs.skip(ci + 1));
            assert(pre_out + (seq![rc] + y2.0) =~= pre_out.push(rc) + y2.0);
            assert(added_all + (added + y2.2) =~= (added_all + added) + y2.2);
            added_all = added_all + added;
        }
        ci = ci + 1;
    }
    proof {
        assert(chs.skip(nch as int).len() == 0);
        assert(full.2 == added_all + Seq::<Seq<char>>::empty());
        assert(added_all + Seq::<Seq<char>>::empty() =~= added_all);
        assert(full.0 == out@.map_values(|c: ResolvedChapter| c@) + Seq::<
            SpecResolvedChapter,
        >::empty());
        assert(out@.map_values(|c: ResolvedChapter| c@) + Seq::<SpecResolvedChapter>::empty()
            =~= out@.map_values(|c: ResolvedChapter| c@));
    }
    out
}

fn contains_key(referenced: &Vec<(String, usize)>, file: &str, idx: usize) -> (r: bool)
    ensures
        r == keys_view(referenced@).contains((file@, idx as int)),
{
    let ghost ks = keys_view(referenced@);
    let n = referenced.len();
    let mut i: usize = 0;
    while i < n
        invariant
            0 <= i <= n,
            n == referenced@.len(),
            ks == keys_view(referenced@),
            forall|j: int| 0 <= j < i ==> ks[j] != (file@, idx as int),
        decreases n - i,
    {
        let e = &referenced[i];
        proof {
            assert(ks[i as int] == (referenced@[i as int].0@, referenced@[i as int].1 as int));
        }
        if str_eq(e.0.as_str(), file) && e.1 == idx {
            return true;
        }
        i = i + 1;
    }
    proof {
        if ks.contains((file@, idx as int)) {
            let j = choose|j: int| 0 <= j < ks.len() && ks[j] == (file@, idx as int);
            assert(false);
        }
    }
    false
}

/// Resolve a narrative against a diff, attaching pre-filed comment threads
/// to the hunks that claim them and collecting every unclaimed hunk.
///
/// Resolution never fails: an unknown file, an out-of-range index or a
/// duplicate reference each becomes one warning and the reference is
/// dropped. One claimed-key list is shared by the main chapters and the
/// `misc` group, so cross-group duplicates are caught; afterwards every
/// hunk no chapter claimed is collected in file order, index order.
///
/// No key is claimed by more than one resolved hunk, and — when no two
/// files share a display path — the resolved and uncategorized hunks
/// together account for every hunk of the diff exactly once.
#[verifier::loop_isolation(false)]
pub fn resolve_with_comments(
    storyline: &Storyline,
    diff: &ParsedDiff,
    comments: Option<CommentMap>,
    issue_comments: Vec<IssueComment>,
    outdated_comments: Vec<OutdatedComment>,
) -> (r: ResolvedStory)
    ensures
        ({
            let cm0 = match comments {
                Some(m) => m@,
                None => Seq::<SpecCommentMapEntry>::empty(),
            };
            let c1 = spec_resolve_chapters(
                storyline@.chapters,
                diff@,
                Seq::empty(),
                cm0,
            );
            let c2 = spec_resolve_chapters(storyline@.misc, diff@, c1.1, c1.3);
            let unc = spec_uncategorized(diff@, 0, c2.1, c2.3);
            &&& view_opt_string(r.description) == storyline@.description
            &&& r.chapters@.map_values(|c: ResolvedChapter| c@) == c1.0
            &&& r.misc@.map_values(|c: ResolvedChapter| c@) == c2.0
            &&& r.warnings@.map_values(|s: String| s@) == c1.2 + c2.2
            &&& r.uncategorized@.map_values(|u: UncategorizedHunk| u@) == unc.0
            &&& r.issue_comments == issue_comments
            &&& r.outdated_comments == outdated_comments
            &&& (chapter_keys(c1.0) + chapter_keys(c2.0)).no_duplicates()
            &&& (spec_distinct_paths(diff@) ==> r.uncategorized@.len() + chapter_keys(c1.0).len()
                + chapter_keys(c2.0).len() == spec_total_hunks(diff@, 0))
            &&& r.uncategorized@.len() <= spec_total_hunks(diff@, 0)
        }),
{
    let ghost files = diff@;
    let mut warnings: Vec<String> = Vec::new();
    let mut referenced: Vec<(String, usize)> = Vec::new();
    let mut comment_map = match comments {
        Some(m) => m,
        None => CommentMap::new(),
    };
    let ghost cm0 = comment_map@;
    proof {
        assert(keys_view(referenced@) =~= Seq::<(Seq<char>, int)>::empty());
        assert(warnings@.map_values(|s: String| s@) =~= Seq::<Seq<char>>::empty());
    }
    let chapters = resolve_chapters(
        &storyline.chapters,
        diff,
        &mut referenced,
        &mut warnings,
        &mut comment_map,
    );
    let ghost c1 = spec_resolve_chapters(
        storyline@.chapters,
        files,
        Seq::empty(),
        cm0,
    );
    let misc = resolve_chapters(
        &storyline.misc,
        diff,
        &mut referenced,
        &mut warnings,
        &mut comment_map,
    );
    let ghost c2 = spec_resolve_chapters(storyline@.misc, files, c1.1, c1.3);
    proof {
        assert(Seq::<Seq<char>>::empty() + c1.2 =~= c1.2);
        assert(c1.2 + c2.2 =~= warnings@.map_values(|s: String| s@));
    }

    // Sweep for hunks no chapter claimed, in file order, index order.
    let ghost refs_final = keys_view(referenced@);
    let ghost ufull = spec_uncategorized(files, 0, refs_final, comment_map@);
    let mut uncategorized: Vec<UncategorizedHunk> = Vec::new();
    let nf = diff.files.len();
    let mut fi: usize = 0;
    proof {
        assert(uncategorized@.map_values(|u: UncategorizedHunk| u@) =~= Seq::<
            SpecUncategorizedHunk,
        >::empty());
    }
    while fi < nf
        invariant
            0 <= fi <= nf,
            refs_final == keys_view(referenced@),
            ({
                let u = spec_uncategorized(files, fi as int, refs_final, comment_map@);
                &&& ufull.0 == uncategorized@.map_values(|x: UncategorizedHunk| x@) + u.0
                &&& ufull.1 == u.1
            }),
        decreases nf - fi,
    {
        let f = &diff.files[fi];
        proof {
            assert(f@ == files[fi as int]);
        }
        let ghost path = spec_display_path(files[fi as int]);
        let ghost ffull = spec_uncat_hunks(files[fi as int], path, 0, refs_final, comment_map@);
        let ghost acc0 = uncategorized@.map_values(|x: UncategorizedHunk| x@);
        let nh = f.hunks.len();
        let mut k: usize = 0;
        while k < nh
            invariant
                0 <= k <= nh,
                refs_final == keys_view(referenced@),
                ({
                    let x = spec_uncat_hunks(
                        files[fi as int],
                        path,
                        k as int,
                        refs_final,
                        comment_map@,
                    );
                    &&& ffull.0 == uncategorized@.map_values(|x2: UncategorizedHunk| x2@).skip(
                        acc0.len() as int,
                    ) + x.0
                    &&& ffull.1 == x.1
                }),
                uncategorized@.map_values(|x2: UncategorizedHunk| x2@).take(acc0.len() as int)
                    == acc0,
                uncategorized@.len() >= acc0.len(),
            decreases nh - k,
        {
            let ghost pre = uncategorized@.map_values(|x2: UncategorizedHunk| x2@);
            if !contains_key(&referenced, f.display_path(), k) {
                let ghost pre_cm = comment_map@;
                let threads = match comment_map.remove(f.display_path(), k) {
                    Some(v) => v,
                    None => Vec::new(),
                };
                proof {
                    assert(threads@.map_values(|t: CommentThread| t@) =~= match key_idx(
                        pre_cm,
                        (path, k as int),
                    ) {
                        Some(i) => pre_cm[i].threads,
                        None => Seq::<SpecCommentThread>::empty(),
                    });
                }
                let uh = UncategorizedHunk {
                    file_path: f.display_path().to_owned(),
                    file_diff: crate::diff_parser::clone_file_diff(f),
                    hunk: crate::diff_parser::clone_hunk(&f.hunks[k]),
                    hunk_index: k,
                    comments: threads,
                };
                uncategorized.push(uh);
                proof {
                    let cur = uncategorized@.map_values(|x2: UncategorizedHunk| x2@);
                    assert(cur =~= pre.push(uh@));
                    assert(cur.take(acc0.len() as int) =~= acc0);
                    assert(cur.skip(acc0.len() as int) =~= pre.skip(acc0.len() as int).push(
                        uh@,
                    ));
                    let x2 = spec_uncat_hunks(
                        files[fi as int],
                        path,
                        k + 1,
                        refs_final,
                        comment_map@,
                    );
                    assert(pre.skip(acc0.len() as int) + (seq![uh@] + x2.0) =~= pre.skip(
                        acc0.len() as int,
                    ).push(uh@) + x2.0);
                }
            }
            k = k + 1;
        }
        proof {
            let cur = uncategorized@.map_values(|x2: UncategorizedHunk| x2@);
            assert(spec_uncat_hunks(files[fi as int], path, nh as int, refs_final, comment_map@).0
                =~= Seq::<SpecUncategorizedHunk>::empty());
            assert(ffull.0 =~= cur.skip(acc0.len() as int));
            assert(acc0 + cur.skip(acc0.len() as int) =~= cur);
        }
        fi = fi + 1;
    }
    proof {
        let u_end = spec_uncategorized(files, nf as int, refs_final, comment_map@);
        assert(u_end.0 =~= Seq::<SpecUncategorizedHunk>::empty());
        let cur = uncategorized@.map_values(|x: UncategorizedHunk| x@);
        assert(cur + Seq::<SpecUncategorizedHunk>::empty() =~= cur);
        assert(ufull.0 == cur);

        // Accounting: the claimed keys are exactly the emitted chapter keys,
        // pairwise distinct; with distinct display paths each claims exactly
        // one diff position.
        lemma_resolve_chapters_shape(storyline@.chapters, files, Seq::empty(), cm0);
        lemma_resolve_chapters_shape(storyline@.misc, files, c1.1, c1.3);
        let k1 = chapter_keys(c1.0);
        let k2 = chapter_keys(c2.0);
        let ks = k1 + k2;
        assert(c2.1 =~= Seq::<(Seq<char>, int)>::empty() + ks);
        assert forall|m: int| 0 <= m < ks.len() implies key_valid(files, #[trigger] ks[m]) by {
            if m < k1.len() {
                assert(ks[m] == k1[m]);
            } else {
                assert(ks[m] == k2[m - k1.len()]);
            }
        }
        assert forall|m: int| 0 <= m < ks.len() implies !(Seq::<(Seq<char>, int)>::empty()
            + ks.take(m)).contains(#[trigger] ks[m]) by {
            if m < k1.len() {
                assert(ks[m] == k1[m]);
                assert(Seq::<(Seq<char>, int)>::empty() + ks.take(m) =~= Seq::<
                    (Seq<char>, int),
                >::empty() + k1.take(m));
            } else {
                assert(ks[m] == k2[m - k1.len()]);
                assert(Seq::<(Seq<char>, int)>::empty() + ks.take(m) =~= c1.1 + k2.take(
                    m - k1.len(),
                ));
            }
        }
        lemma_fresh_no_dup(ks);
        lemma_uncategorized_count(files, 0, refs_final, c2.3);
        lemma_claimed_nonneg(files, 0, refs_final);
        if spec_distinct_paths(files) {
            lemma_claimed_positions_many(files, Seq::empty(), ks);
            lemma_claimed_positions_empty(files, 0);
            assert(Seq::<(Seq<char>, int)>::empty() + ks =~= ks);
            assert(refs_final == c2.1);
            assert(claimed_positions(files, 0, refs_final) == ks.len());
        }
    }
    ResolvedStory {
        description: match &storyline.description {
            Some(s) => Some(s.clone()),
            None => None,
        },
        chapters,
        misc,
        uncategorized,
        warnings,
        issue_comments,
        outdated_comments,
    }
}

/// Resolve a narrative against a diff with no comment data attached.
pub fn resolve(storyline: &Storyline, diff: &ParsedDiff) -> (r: ResolvedStory)
    ensures
        ({
            let c1 = spec_resolve_chapters(
                storyline@.chapters,
                diff@,
                Seq::empty(),
                Seq::empty(),
            );
            let c2 = spec_resolve_chapters(storyline@.misc, diff@, c1.1, c1.3);
            let unc = spec_uncategorized(diff@, 0, c2.1, c2.3);
            &&& view_opt_string(r.description) == storyline@.description
            &&& r.chapters@.map_values(|c: ResolvedChapter| c@) == c1.0
            &&& r.misc@.map_values(|c: ResolvedChapter| c@) == c2.0
            &&& r.warnings@.map_values(|s: String| s@) == c1.2 + c2.2
            &&& r.uncategorized@.map_values(|u: UncategorizedHunk| u@) == unc.0
            &&& r.issue_comments@.len() == 0
            &&& r.outdated_comments@.len() == 0
            &&& (chapter_keys(c1.0) + chapter_keys(c2.0)).no_duplicates()
            &&& (spec_distinct_paths(diff@) ==> r.uncategorized@.len() + chapter_keys(c1.0).len()
                + chapter_keys(c2.0).len() == spec_total_hunks(diff@, 0))
            &&& r.uncategorized@.len() <= spec_total_hunks(diff@, 0)
        }),
{
    resolve_with_comments(storyline, diff, None, Vec::new(), Vec::new())
}

/// Validate a storyline against a diff and return coverage info.
pub struct ValidationResult {
    pub total_hunks: usize,
    pub covered_hunks: usize,
    pub uncategorized_hunks: usize,
    pub warnings: Vec<String>,
}

/// Whole-number coverage: the share of hunks claimed by some chapter, with
/// an empty diff counting as fully covered.
pub open spec fn spec_coverage_pct(total: int, covered: int) -> int {
    if total == 0 {
        100
    } else {
        covered * 100 / total
    }
}

impl ValidationResult {
    /// Coverage as a whole-number percentage, 100 for an empty diff.
    pub fn coverage_percent(&self) -> (r: u64)
        requires
            self.covered_hunks <= self.total_hunks,
        ensures
            r == spec_coverage_pct(self.total_hunks as int, self.covered_hunks as int),
    {
        if self.total_hunks == 0 {
            100
        } else {
            let v: u128 = (self.covered_hunks as u128) * 100 / (self.total_hunks as u128);
            proof {
                assert((self.covered_hunks as int) * 100 / (self.total_hunks as int) <= 100)
                    by (nonlinear_arith)
                    requires
                        self.covered_hunks <= self.total_hunks,
                        self.total_hunks > 0,
                ;
            }
            v as u64
        }
    }
}

proof fn lemma_total_hunks_nonneg(files: Seq<SpecFileDiff>, fi: int)
    ensures
        spec_total_hunks(files, fi) >= 0,
    decreases files.len() - fi,
{
    if 0 <= fi < files.len() {
        lemma_total_hunks_nonneg(files, fi + 1);
    }
}

/// Resolve and reduce to coverage numbers: total hunks, covered hunks,
/// uncategorized hunks and the warnings of the resolution pass.
#[verifier::loop_isolation(false)]
pub fn validate(storyline: &Storyline, diff: &ParsedDiff) -> (r: ValidationResult)
    requires
        spec_total_hunks(diff@, 0) <= usize::MAX,
    ensures
        ({
            let c1 = spec_resolve_chapters(
                storyline@.chapters,
                diff@,
                Seq::empty(),
                Seq::empty(),
            );
            let c2 = spec_resolve_chapters(storyline@.misc, diff@, c1.1, c1.3);
            let unc = spec_uncategorized(diff@, 0, c2.1, c2.3);
            &&& r.total_hunks == spec_total_hunks(diff@, 0)
            &&& r.uncategorized_hunks == unc.0.len()
            &&& r.covered_hunks == r.total_hunks - r.uncategorized_hunks
            &&& r.warnings@.map_values(|s: String| s@) == c1.2 + c2.2
        }),
{
    let ghost files = diff@;
    let resolved = resolve(storyline, diff);
    let nf = diff.files.len();
    let mut total: usize = 0;
    let mut fi: usize = 0;
    proof {
        lemma_total_hunks_nonneg(files, 0);
    }
    while fi < nf
        invariant
            0 <= fi <= nf,
            total + spec_total_hunks(files, fi as int) == spec_total_hunks(files, 0),
        decreases nf - fi,
    {
        proof {
            lemma_total_hunks_nonneg(files, fi + 1);
            assert(diff.files@[fi as int]@ == files[fi as int]);
        }
        total = total + diff.files[fi].hunks.len();
        fi = fi + 1;
    }
    let uncat = resolved.uncategorized.len();
    let covered = total - uncat;
    ValidationResult {
        total_hunks: total,
        covered_hunks: covered,
        uncategorized_hunks: uncat,
        warnings: resolved.warnings,
    }
}

} // verus!
