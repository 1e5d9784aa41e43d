//! Unified-diff parsing: a single left-to-right scan over physical lines
//! that turns raw diff text into an ordered collection of per-file change
//! records, each holding ordered hunks of typed lines.

use vstd::prelude::*;

use crate::strutil::str_eq;
use crate::strutil::str_starts_with;
use crate::strutil::substr;
use crate::strutil::find_sub;
use crate::strutil::match_at;
use crate::strutil::spec_find;

verus! {

/// The one fatal parse failure: a `diff --git` line whose path pair cannot
/// be extracted. The payload is the offending line.
#[derive(Debug, Clone)]
pub enum ParseError {
    UnexpectedFormat(String),
}

/// An entire parsed diff: ordered per-file change records.
#[derive(Debug, Clone)]
pub struct ParsedDiff {
    pub files: Vec<FileDiff>,
}

/// One file's change record.
#[derive(Debug, Clone)]
pub struct FileDiff {
    pub old_path: Option<String>,
    pub new_path: Option<String>,
    pub is_rename: bool,
    pub is_binary: bool,
    pub hunks: Vec<Hunk>,
}

/// One contiguous change block: the raw `@@ ... @@` header retained
/// verbatim, and the typed body lines in physical order.
#[derive(Debug, Clone)]
pub struct Hunk {
    pub header: String,
    pub lines: Vec<DiffLine>,
}

/// A classified hunk body line. Order is significant and matches the
/// physical order in the hunk body.
#[derive(Debug, Clone)]
pub enum DiffLine {
    Context(String),
    Addition(String),
    Deletion(String),
    NoNewlineAtEof,
}

pub ghost enum SpecDiffLine {
    Context(Seq<char>),
    Addition(Seq<char>),
    Deletion(Seq<char>),
    NoNewlineAtEof,
}

pub ghost struct SpecHunk {
    pub header: Seq<char>,
    pub lines: Seq<SpecDiffLine>,
}

pub ghost struct SpecFileDiff {
    pub old_path: Option<Seq<char>>,
    pub new_path: Option<Seq<char>>,
    pub is_rename: bool,
    pub is_binary: bool,
    pub hunks: Seq<SpecHunk>,
}

impl View for DiffLine {
    type V = SpecDiffLine;

    open spec fn view(&self) -> SpecDiffLine {
        match self {
            DiffLine::Context(s) => SpecDiffLine::Context(s@),
            DiffLine::Addition(s) => SpecDiffLine::Addition(s@),
            DiffLine::Deletion(s) => SpecDiffLine::Deletion(s@),
            DiffLine::NoNewlineAtEof => SpecDiffLine::NoNewlineAtEof,
        }
    }
}

impl View for Hunk {
    type V = SpecHunk;

    open spec fn view(&self) -> SpecHunk {
        SpecHunk { header: self.header@, lines: self.lines@.map_values(|l: DiffLine| l@) }
    }
}

impl View for FileDiff {
    type V = SpecFileDiff;

    open spec fn view(&self) -> SpecFileDiff {
        SpecFileDiff {
            old_path: crate::model::view_opt_string(self.old_path),
            new_path: crate::model::view_opt_string(self.new_path),
            is_rename: self.is_rename,
            is_binary: self.is_binary,
            hunks: self.hunks@.map_values(|h: Hunk| h@),
        }
    }
}

impl View for ParsedDiff {
    type V = Seq<SpecFileDiff>;

    open spec fn view(&self) -> Seq<SpecFileDiff> {
        self.files@.map_values(|f: FileDiff| f@)
    }
}

/// The path a file change is identified by: the post-change path if present,
/// else the pre-change path, else a sentinel.
pub open spec fn spec_display_path(f: SpecFileDiff) -> Seq<char> {
    match f.new_path {
        Some(p) => p,
        None => match f.old_path {
            Some(p) => p,
            None => "<unknown>"@,
        },
    }
}

impl FileDiff {
    /// Returns the most relevant path for display purposes.
    pub fn display_path(&self) -> (r: &str)
        ensures
            r@ == spec_display_path(self@),
    {
        match &self.new_path {
            Some(p) => p.as_str(),
            None => match &self.old_path {
                Some(p) => p.as_str(),
                None => "<unknown>",
            },
        }
    }
}

/// Index of the first newline in `s`, or `s.len()` if there is none.
pub open spec fn first_nl(s: Seq<char>) -> nat
    decreases s.len(),
{
    if s.len() == 0 {
        0
    } else if s[0] == '\n' {
        0
    } else {
        1 + first_nl(s.drop_first())
    }
}

pub proof fn lemma_first_nl(s: Seq<char>)
    ensures
        0 <= first_nl(s) <= s.len(),
        first_nl(s) < s.len() ==> s[first_nl(s) as int] == '\n',
        forall|j: int| 0 <= j < first_nl(s) ==> s[j] != '\n',
    decreases s.len(),
{
    if s.len() > 0 && s[0] != '\n' {
        lemma_first_nl(s.drop_first());
        assert forall|j: int| 0 <= j < first_nl(s) implies s[j] != '\n' by {
            if j > 0 {
                assert(s.drop_first()[j - 1] == s[j]);
            }
        }
    }
}

/// Strip one trailing carriage return, as `str::lines` does.
pub open spec fn strip_cr(l: Seq<char>) -> Seq<char> {
    if l.len() > 0 && l.last() == '\r' {
        l.drop_last()
    } else {
        l
    }
}

/// The physical lines of a text, split as `str::lines` splits them: at each
/// newline, with one carriage return stripped from the end of every piece,
/// and an optional final line ending.
pub open spec fn spec_lines(s: Seq<char>) -> Seq<Seq<char>>
    decreases s.len(),
{
    if s.len() == 0 {
        Seq::empty()
    } else {
        let i = first_nl(s);
        if i >= s.len() {
            seq![strip_cr(s)]
        } else {
            seq![strip_cr(s.take(i as int))] + spec_lines(s.skip(i + 1 as int))
        }
    }
}

/// If the first newline of `s` falls before `c`, the prefix of length `c`
/// has the same first newline.
proof fn lemma_first_nl_prefix(s: Seq<char>, c: int)
    requires
        0 < c <= s.len(),
        s[c - 1] == '\n',
    ensures
        first_nl(s) == first_nl(s.take(c)),
        first_nl(s) <= c - 1,
    decreases s.len(),
{
    lemma_first_nl(s);
    lemma_first_nl(s.take(c));
    let p = s.take(c);
    if s[first_nl(s) as int] != '\n' || first_nl(s) > c - 1 {
        assert(first_nl(s) <= c - 1);
    }
    if first_nl(p) < first_nl(s) {
        assert(s[first_nl(p) as int] == p[first_nl(p) as int]);
        assert(false);
    }
    if first_nl(s) < first_nl(p) {
        assert(p[first_nl(s) as int] == s[first_nl(s) as int]);
        assert(false);
    }
}

/// Splitting distributes over a cut placed just after a newline.
proof fn lemma_lines_split(s: Seq<char>, c: int)
    requires
        0 <= c <= s.len(),
        c == 0 || s[c - 1] == '\n',
    ensures
        spec_lines(s) == spec_lines(s.take(c)) + spec_lines(s.skip(c)),
    decreases s.len(),
{
    if c == 0 {
        assert(s.take(0) =~= Seq::<char>::empty());
        assert(s.skip(0) =~= s);
        assert(spec_lines(s.take(0)) + spec_lines(s.skip(0)) =~= spec_lines(s));
    } else {
        let p = s.take(c);
        lemma_first_nl_prefix(s, c);
        lemma_first_nl(s);
        let i = first_nl(s) as int;
        assert(i < s.len());
        assert(p.take(i) =~= s.take(i));
        let s2 = s.skip(i + 1);
        let c2 = c - i - 1;
        assert(p.skip(i + 1) =~= s2.take(c2));
        assert(c2 == 0 || s2[c2 - 1] == '\n');
        lemma_lines_split(s2, c2);
        assert(s2.skip(c2) =~= s.skip(c));
        assert(first_nl(p) == i);
        if i >= p.len() {
            assert(p.len() == c && i <= c - 1);
            assert(false);
        }
        assert(spec_lines(p) == seq![strip_cr(p.take(i))] + spec_lines(p.skip(i + 1)));
        assert(spec_lines(s) =~= spec_lines(p) + spec_lines(s.skip(c)));
    }
}

/// A non-empty run without newlines is one line.
proof fn lemma_lines_single(l: Seq<char>)
    requires
        l.len() > 0,
        forall|j: int| 0 <= j < l.len() ==> l[j] != '\n',
    ensures
        spec_lines(l) == seq![strip_cr(l)],
{
    lemma_first_nl(l);
    if first_nl(l) < l.len() {
        assert(false);
    }
}

/// A newline-free run plus its terminator is one line.
proof fn lemma_lines_terminated(l: Seq<char>)
    requires
        forall|j: int| 0 <= j < l.len() ==> l[j] != '\n',
    ensures
        spec_lines(l.push('\n')) == seq![strip_cr(l)],
{
    let s = l.push('\n');
    lemma_first_nl(s);
    if first_nl(s) < l.len() {
        assert(s[first_nl(s) as int] == l[first_nl(s) as int]);
        assert(false);
    }
    if first_nl(s) > l.len() {
        assert(s[l.len() as int] == '\n');
        assert(false);
    }
    assert(s.take(l.len() as int) =~= l);
    assert(s.skip(l.len() + 1 as int) =~= Seq::<char>::empty());
    assert(spec_lines(Seq::<char>::empty()) =~= Seq::<Seq<char>>::empty());
    assert(spec_lines(s) =~= seq![strip_cr(l)] + spec_lines(s.skip(l.len() + 1 as int)));
    assert(spec_lines(s) =~= seq![strip_cr(l)]);
}

/// Split a text into its physical lines.
pub fn split_lines(s: &str) -> (r: Vec<String>)
    ensures
        r.deep_view() == spec_lines(s@),
{
    let n = s.unicode_len();
    let mut out: Vec<String> = Vec::new();
    let mut c: usize = 0;
    let mut i: usize = 0;
    proof {
        assert(s@.take(0) =~= Seq::<char>::empty());
        assert(out.deep_view() =~= spec_lines(s@.take(0)));
    }
    while i < n
        invariant
            0 <= c <= i <= n,
            n == s@.len(),
            c == 0 || s@[c - 1] == '\n',
            forall|j: int| c <= j < i ==> s@[j] != '\n',
            out.deep_view() == spec_lines(s@.take(c as int)),
        decreases n - i,
    {
        let ch = s.get_char(i);
        if ch as u32 == '\n' as u32 {
            proof {
                vstd::utf8::char_u32_cast(ch, ch as u32);
                vstd::utf8::char_u32_cast('\n', '\n' as u32);
            }
            let line = take_line(s, c, i);
            let ghost old_out = out.deep_view();
            out.push(line);
            proof {
                let l = s@.skip(c as int).take(i - c);
                assert(out.deep_view() =~= old_out + seq![strip_cr(l)]);
                lemma_lines_split(s@.take(i + 1), c as int);
                assert(s@.take(i + 1).take(c as int) =~= s@.take(c as int));
                assert(s@.take(i + 1).skip(c as int) =~= l.push('\n'));
                assert forall|j: int| 0 <= j < l.len() implies l[j] != '\n' by {
                    assert(l[j] == s@[c + j]);
                }
                lemma_lines_terminated(l);
                assert(out.deep_view() =~= spec_lines(s@.take(i + 1)));
            }
            c = i + 1;
        } else {
            proof {
                vstd::utf8::char_u32_cast(ch, ch as u32);
                vstd::utf8::char_u32_cast('\n', '\n' as u32);
            }
        }
        i = i + 1;
    }
    if c < n {
        let line = take_line(s, c, n);
        out.push(line);
        proof {
            let l = s@.skip(c as int);
            assert(l.take(n - c) =~= l);
            lemma_lines_split(s@, c as int);
            assert(s@.take(n as int) =~= s@);
            assert forall|j: int| 0 <= j < l.len() implies l[j] != '\n' by {
                assert(l[j] == s@[c + j]);
            }
            lemma_lines_single(l);
            assert(out.deep_view() =~= spec_lines(s@));
        }
    } else {
        proof {
            assert(s@.take(c as int) =~= s@);
        }
    }
    out
}

/// One line of `s` from `from` to `to` (exclusive), with a trailing
/// carriage return stripped.
fn take_line(s: &str, from: usize, to: usize) -> (r: String)
    requires
        from <= to <= s@.len(),
    ensures
        r@ == strip_cr(s@.skip(from as int).take(to - from)),
{
    let ghost l = s@.skip(from as int).take(to - from);
    if to > from {
        let last = s.get_char(to - 1);
        if last as u32 == '\r' as u32 {
            proof {
                vstd::utf8::char_u32_cast(last, last as u32);
                vstd::utf8::char_u32_cast('\r', '\r' as u32);
                assert(l.last() == s@[to - 1]);
                assert(l.drop_last() =~= s@.skip(from as int).take(to - 1 - from));
                assert(s@.subrange(from as int, to - 1) =~= l.drop_last());
            }
            return substr(s, from, to - 1);
        }
        proof {
            vstd::utf8::char_u32_cast(last, last as u32);
            vstd::utf8::char_u32_cast('\r', '\r' as u32);
            assert(l.last() == s@[to - 1]);
            assert(s@.subrange(from as int, to as int) =~= l);
        }
        return substr(s, from, to);
    }
    proof {
        assert(l.len() == 0);
        assert(s@.subrange(from as int, to as int) =~= l);
    }
    substr(s, from, to)
}

/// Copy one classified line.
pub fn clone_diff_line(l: &DiffLine) -> (r: DiffLine)
    ensures
        r@ == l@,
{
    match l {
        DiffLine::Context(s) => DiffLine::Context(s.clone()),
        DiffLine::Addition(s) => DiffLine::Addition(s.clone()),
        DiffLine::Deletion(s) => DiffLine::Deletion(s.clone()),
        DiffLine::NoNewlineAtEof => DiffLine::NoNewlineAtEof,
    }
}

/// Copy one hunk.
pub fn clone_hunk(h: &Hunk) -> (r: Hunk)
    ensures
        r@ == h@,
{
    let mut lines: Vec<DiffLine> = Vec::new();
    let n = h.lines.len();
    let mut i: usize = 0;
    while i < n
        invariant
            0 <= i <= n,
            n == h.lines@.len(),
            lines@.len() == i,
            forall|k: int| 0 <= k < i ==> (#[trigger] lines@[k])@ == h.lines@[k]@,
        decreases n - i,
    {
        let l = clone_diff_line(&h.lines[i]);
        lines.push(l);
        i = i + 1;
    }
    let r = Hunk { header: h.header.clone(), lines };
    proof {
        assert(r@.lines =~= h@.lines);
    }
    r
}

fn clone_opt_string(s: &Option<String>) -> (r: Option<String>)
    ensures
        crate::model::view_opt_string(r) == crate::model::view_opt_string(*s),
{
    match s {
        Some(x) => Some(x.clone()),
        None => None,
    }
}

/// Copy one file record.
pub fn clone_file_diff(f: &FileDiff) -> (r: FileDiff)
    ensures
        r@ == f@,
{
    let mut hunks: Vec<Hunk> = Vec::new();
    let n = f.hunks.len();
    let mut i: usize = 0;
    while i < n
        invariant
            0 <= i <= n,
            n == f.hunks@.len(),
            hunks@.len() == i,
            forall|k: int| 0 <= k < i ==> (#[trigger] hunks@[k])@ == f.hunks@[k]@,
        decreases n - i,
    {
        let h = clone_hunk(&f.hunks[i]);
        hunks.push(h);
        i = i + 1;
    }
    let r = FileDiff {
        old_path: clone_opt_string(&f.old_path),
        new_path: clone_opt_string(&f.new_path),
        is_rename: f.is_rename,
        is_binary: f.is_binary,
        hunks,
    };
    proof {
        assert(r@.hunks =~= f@.hunks);
    }
    r
}

/// A line that begins a new file record.
pub open spec fn is_file_sep(l: Seq<char>) -> bool {
    "diff --git "@.is_prefix_of(l)
}

/// A line that begins a hunk.
pub open spec fn is_hunk_start(l: Seq<char>) -> bool {
    "@@ "@.is_prefix_of(l)
}

/// Classify one hunk body line by its first character; `None` means the
/// line ends the hunk. An empty physical line counts as an empty context
/// line (a trailing-space trimming artifact of some diff tools).
pub open spec fn classify_line(l: Seq<char>) -> Option<SpecDiffLine> {
    if l.len() == 0 {
        Some(SpecDiffLine::Context(Seq::empty()))
    } else if l[0] == '+' {
        Some(SpecDiffLine::Addition(l.drop_first()))
    } else if l[0] == '-' {
        Some(SpecDiffLine::Deletion(l.drop_first()))
    } else if l[0] == ' ' {
        Some(SpecDiffLine::Context(l.drop_first()))
    } else if l[0] == '\\' {
        Some(SpecDiffLine::NoNewlineAtEof)
    } else {
        None
    }
}

/// How many consecutive lines from `j` on belong to a hunk body.
pub open spec fn spec_hunk_len(lines: Seq<Seq<char>>, j: int) -> nat
    decreases lines.len() - j,
{
    if j < 0 || j >= lines.len() {
        0
    } else if classify_line(lines[j]) is None {
        0
    } else {
        1 + spec_hunk_len(lines, j + 1)
    }
}

pub proof fn lemma_hunk_len_bound(lines: Seq<Seq<char>>, j: int)
    requires
        0 <= j <= lines.len(),
    ensures
        spec_hunk_len(lines, j) <= lines.len() - j,
    decreases lines.len() - j,
{
    if j < lines.len() && classify_line(lines[j]) is Some {
        lemma_hunk_len_bound(lines, j + 1);
    }
}

/// The hunk whose header stands at line `i`.
pub open spec fn spec_hunk_at(lines: Seq<Seq<char>>, i: int) -> SpecHunk {
    SpecHunk {
        header: lines[i],
        lines: Seq::new(
            spec_hunk_len(lines, i + 1),
            |k: int| classify_line(lines[i + 1 + k]).unwrap(),
        ),
    }
}

/// Strip one leading `a/` or `b/` segment from a `---`/`+++` marker path.
pub open spec fn strip_ab(p: Seq<char>) -> Seq<char> {
    if "a/"@.is_prefix_of(p) || "b/"@.is_prefix_of(p) {
        p.skip(2)
    } else {
        p
    }
}

/// The effect of one extended-header line on the file record under
/// construction, in the priority order of the scan. Unrecognized lines
/// (index, mode, similarity, and so on) change nothing.
pub open spec fn apply_header_line(st: SpecFileDiff, l: Seq<char>) -> SpecFileDiff {
    if "rename from "@.is_prefix_of(l) {
        SpecFileDiff { is_rename: true, old_path: Some(l.skip(12)), ..st }
    } else if "rename to "@.is_prefix_of(l) {
        SpecFileDiff { is_rename: true, new_path: Some(l.skip(10)), ..st }
    } else if "Binary files"@.is_prefix_of(l) || l == "GIT binary patch"@ {
        SpecFileDiff { is_binary: true, ..st }
    } else if "--- "@.is_prefix_of(l) {
        if l.skip(4) == "/dev/null"@ {
            SpecFileDiff { old_path: None, ..st }
        } else {
            SpecFileDiff { old_path: Some(strip_ab(l.skip(4))), ..st }
        }
    } else if "+++ "@.is_prefix_of(l) {
        if l.skip(4) == "/dev/null"@ {
            SpecFileDiff { new_path: None, ..st }
        } else {
            SpecFileDiff { new_path: Some(strip_ab(l.skip(4))), ..st }
        }
    } else {
        st
    }
}

pub open spec fn min_i(a: int, b: int) -> int {
    if a <= b {
        a
    } else {
        b
    }
}

/// Index of the next file-separator line at or after `i`, or the number of
/// lines if there is none.
pub open spec fn section_end(lines: Seq<Seq<char>>, i: int) -> int
    decreases lines.len() - i,
{
    if i < 0 || i >= lines.len() {
        lines.len() as int
    } else if is_file_sep(lines[i]) {
        i
    } else {
        section_end(lines, i + 1)
    }
}

pub proof fn lemma_section_end(lines: Seq<Seq<char>>, i: int)
    requires
        0 <= i <= lines.len(),
    ensures
        i <= section_end(lines, i) <= lines.len(),
        section_end(lines, i) < lines.len() ==> is_file_sep(lines[section_end(lines, i)]),
        forall|j: int| i <= j < section_end(lines, i) ==> !is_file_sep(#[trigger] lines[j]),
    decreases lines.len() - i,
{
    if i < lines.len() && !is_file_sep(lines[i]) {
        lemma_section_end(lines, i + 1);
    }
}

/// `section_end` does not change while scanning past non-separator lines.
proof fn lemma_section_end_same(lines: Seq<Seq<char>>, i: int, j: int)
    requires
        0 <= i <= j <= lines.len(),
        forall|k: int| i <= k < j ==> !is_file_sep(#[trigger] lines[k]),
    ensures
        section_end(lines, i) == section_end(lines, j),
    decreases j - i,
{
    if i < j {
        lemma_section_end_same(lines, i + 1, j);
    }
}

/// A classifiable hunk body line is never a file separator or hunk header.
proof fn lemma_classify_not_marker(l: Seq<char>)
    requires
        classify_line(l) is Some,
    ensures
        !is_file_sep(l),
        !is_hunk_start(l),
{
    reveal_strlit("diff --git ");
    reveal_strlit("@@ ");
    if is_file_sep(l) {
        assert(l.subrange(0, 11)[0] == l[0]);
        assert(l[0] == 'd');
        assert(false);
    }
    if is_hunk_start(l) {
        assert(l.subrange(0, 3)[0] == l[0]);
        assert(l[0] == '@');
        assert(false);
    }
}

/// The file record built from the extended-header and hunk lines of one
/// file section, scanned from line `i` with record `st` so far. Hunk body
/// lines are consumed by their hunk and never read as header lines.
pub open spec fn section_state(lines: Seq<Seq<char>>, i: int, st: SpecFileDiff) -> SpecFileDiff
    decreases lines.len() - i,
{
    if i < 0 || i >= lines.len() || is_file_sep(lines[i]) {
        st
    } else if is_hunk_start(lines[i]) {
        let next = min_i(i + 1 + spec_hunk_len(lines, i + 1), lines.len() as int);
        section_state(
            lines,
            next,
            SpecFileDiff { hunks: st.hunks.push(spec_hunk_at(lines, i)), ..st },
        )
    } else {
        section_state(lines, i + 1, apply_header_line(st, lines[i]))
    }
}

/// The file record a `diff --git` line opens: both paths taken from the
/// separator line itself, nothing else known yet.
pub open spec fn spec_init_file(a: Seq<char>, b: Seq<char>) -> SpecFileDiff {
    SpecFileDiff {
        old_path: Some(a),
        new_path: Some(b),
        is_rename: false,
        is_binary: false,
        hunks: Seq::empty(),
    }
}

/// The path pair of a `diff --git a/<path> b/<path>` line: strip the
/// `a/` prefix, then split at the first ` b/`, so paths may contain spaces.
pub open spec fn spec_git_paths(l: Seq<char>) -> Option<(Seq<char>, Seq<char>)> {
    if !is_file_sep(l) {
        None
    } else {
        let rest = l.skip(11);
        if "a/"@.is_prefix_of(rest) {
            let ar = rest.skip(2);
            match spec_find(ar, " b/"@) {
                Some(p) => Some((ar.take(p), ar.skip(p + 3))),
                None => None,
            }
        } else {
            None
        }
    }
}

/// Classify one hunk body line.
fn classify_exec(line: &str) -> (r: Option<DiffLine>)
    ensures
        match r {
            Some(dl) => classify_line(line@) == Some(dl@),
            None => classify_line(line@) is None,
        },
{
    let n = line.unicode_len();
    if n == 0 {
        let empty = String::new();
        proof {
            assert(empty@ =~= Seq::<char>::empty());
        }
        return Some(DiffLine::Context(empty));
    }
    let c = line.get_char(0);
    proof {
        assert(line@.subrange(1, n as int) =~= line@.drop_first());
    }
    if crate::strutil::char_eq(c, '+') {
        Some(DiffLine::Addition(substr(line, 1, n)))
    } else if crate::strutil::char_eq(c, '-') {
        Some(DiffLine::Deletion(substr(line, 1, n)))
    } else if crate::strutil::char_eq(c, ' ') {
        Some(DiffLine::Context(substr(line, 1, n)))
    } else if crate::strutil::char_eq(c, '\\') {
        Some(DiffLine::NoNewlineAtEof)
    } else {
        None
    }
}

/// Extract the path pair from a `diff --git a/<path> b/<path>` line,
/// tolerating paths that contain spaces.
pub fn parse_diff_git_line(line: &str) -> (r: Result<(String, String), ParseError>)
    ensures
        match r {
            Ok(p) => spec_git_paths(line@) == Some((p.0@, p.1@)),
            Err(ParseError::UnexpectedFormat(s)) => spec_git_paths(line@) is None && s@
                == line@,
        },
{
    proof {
        reveal_strlit("diff --git ");
        reveal_strlit("a/");
        reveal_strlit(" b/");
    }
    if !str_starts_with(line, "diff --git ") {
        return Err(ParseError::UnexpectedFormat(line.to_owned()));
    }
    let n = line.unicode_len();
    let rest = substr(line, 11, n);
    proof {
        assert(rest@ =~= line@.skip(11));
    }
    if !str_starts_with(rest.as_str(), "a/") {
        return Err(ParseError::UnexpectedFormat(line.to_owned()));
    }
    let rn = rest.as_str().unicode_len();
    let ar = substr(rest.as_str(), 2, rn);
    proof {
        assert(ar@ =~= line@.skip(11).skip(2));
    }
    match find_sub(ar.as_str(), " b/") {
        Some(pos) => {
            proof {
                crate::strutil::lemma_find_props(ar@, " b/"@);
                assert(match_at(ar@, " b/"@, pos as int));
            }
            let an = ar.as_str().unicode_len();
            let a_path = substr(ar.as_str(), 0, pos);
            let b_path = substr(ar.as_str(), pos + 3, an);
            proof {
                assert(a_path@ =~= ar@.take(pos as int));
                assert(b_path@ =~= ar@.skip(pos + 3));
            }
            Ok((a_path, b_path))
        },
        None => Err(ParseError::UnexpectedFormat(line.to_owned())),
    }
}

/// Strip a leading `a/` or `b/` segment from a marker-line path.
pub fn strip_prefix_segment(path: &str) -> (r: String)
    ensures
        r@ == strip_ab(path@),
{
    proof {
        reveal_strlit("a/");
        reveal_strlit("b/");
    }
    if str_starts_with(path, "a/") || str_starts_with(path, "b/") {
        let n = path.unicode_len();
        let r = substr(path, 2, n);
        proof {
            assert(r@ =~= path@.skip(2));
        }
        r
    } else {
        path.to_owned()
    }
}

proof fn lemma_hunk_len_step(lines: Seq<Seq<char>>, j: int)
    requires
        0 <= j < lines.len(),
        classify_line(lines[j]) is Some,
    ensures
        spec_hunk_len(lines, j) == 1 + spec_hunk_len(lines, j + 1),
{
}

/// Collect the body of the hunk whose `@@` header stands at line `start`:
/// classified lines up to the first line that ends the hunk.
pub fn parse_hunk(lines: &Vec<String>, start: usize) -> (r: (Hunk, usize))
    requires
        start < lines@.len(),
    ensures
        r.0@ == spec_hunk_at(lines.deep_view(), start as int),
        r.1 == start + 1 + spec_hunk_len(lines.deep_view(), start as int + 1),
        start < r.1 <= lines@.len(),
{
    let ghost lv = lines.deep_view();
    let nlines = lines.len();
    let header = lines[start].clone();
    proof {
        assert(header@ == lv[start as int]);
    }
    let mut body: Vec<DiffLine> = Vec::new();
    let mut i: usize = start + 1;
    proof {
        assert(body@.map_values(|l: DiffLine| l@) =~= Seq::<SpecDiffLine>::empty());
    }
    loop
        invariant_except_break
            start + 1 <= i <= lv.len(),
            lv == lines.deep_view(),
            lv.len() == lines@.len(),
            spec_hunk_len(lv, start + 1 as int) == (i - start - 1) + spec_hunk_len(lv, i as int),
            body@.map_values(|l: DiffLine| l@) =~= Seq::new(
                (i - start - 1) as nat,
                |k: int| classify_line(lv[start + 1 + k]).unwrap(),
            ),
        ensures
            start + 1 <= i <= lv.len(),
            lv == lines.deep_view(),
            i == start + 1 + spec_hunk_len(lv, start + 1 as int),
            body@.map_values(|l: DiffLine| l@) =~= Seq::new(
                spec_hunk_len(lv, start + 1 as int),
                |k: int| classify_line(lv[start + 1 + k]).unwrap(),
            ),
        decreases lv.len() - i,
    {
        if i >= lines.len() {
            break;
        }
        match classify_exec(lines[i].as_str()) {
            None => {
                break;
            },
            Some(dl) => {
                let ghost old_map = body@.map_values(|l: DiffLine| l@);
                body.push(dl);
                proof {
                    lemma_hunk_len_step(lv, i as int);
                    assert(body@.map_values(|l: DiffLine| l@) =~= old_map.push(dl@));
                    assert(body@.map_values(|l: DiffLine| l@) =~= Seq::new(
                        (i - start) as nat,
                        |k: int| classify_line(lv[start + 1 + k]).unwrap(),
                    ));
                }
                i = i + 1;
            },
        }
    }
    let h = Hunk { header, lines: body };
    proof {
        assert(h@ == spec_hunk_at(lv, start as int));
    }
    (h, i)
}

/// Parse one file section: the `diff --git` line at `start`, then extended
/// headers and hunks until the next file separator or the end of input.
pub fn parse_file_diff(lines: &Vec<String>, start: usize) -> (r: Result<
    (FileDiff, usize),
    ParseError,
>)
    requires
        start < lines@.len(),
        is_file_sep(lines.deep_view()[start as int]),
    ensures
        match r {
            Ok(p) => {
                &&& spec_git_paths(lines.deep_view()[start as int]) matches Some(ab)
                &&& p.0@ == section_state(
                    lines.deep_view(),
                    start + 1 as int,
                    spec_init_file(ab.0, ab.1),
                )
                &&& p.1 == section_end(lines.deep_view(), start + 1 as int)
                &&& start < p.1 <= lines@.len()
            },
            Err(ParseError::UnexpectedFormat(s)) => {
                &&& spec_git_paths(lines.deep_view()[start as int]) is None
                &&& s@ == lines.deep_view()[start as int]
            },
        },
{
    let ghost lv = lines.deep_view();
    let nlines = lines.len();
    let (a_path, b_path) = match parse_diff_git_line(lines[start].as_str()) {
        Err(e) => {
            return Err(e);
        },
        Ok(p) => p,
    };
    let ghost st0 = spec_init_file(a_path@, b_path@);
    let mut old_path: Option<String> = Some(a_path);
    let mut new_path: Option<String> = Some(b_path);
    let mut is_rename = false;
    let mut is_binary = false;
    let mut hunks: Vec<Hunk> = Vec::new();
    let mut i: usize = start + 1;
    proof {
        lemma_section_end(lv, start + 1 as int);
        assert(hunks@.map_values(|h: Hunk| h@) =~= Seq::<SpecHunk>::empty());
    }
    loop
        invariant_except_break
            start + 1 <= i <= lv.len(),
            lv == lines.deep_view(),
            lv.len() == lines@.len(),
            section_state(lv, start + 1 as int, st0) == section_state(
                lv,
                i as int,
                SpecFileDiff {
                    old_path: crate::model::view_opt_string(old_path),
                    new_path: crate::model::view_opt_string(new_path),
                    is_rename: is_rename,
                    is_binary: is_binary,
                    hunks: hunks@.map_values(|h: Hunk| h@),
                },
            ),
            section_end(lv, start + 1 as int) == section_end(lv, i as int),
        ensures
            lv == lines.deep_view(),
            i == section_end(lv, start + 1 as int),
            start + 1 <= i <= lv.len(),
            section_state(lv, start + 1 as int, st0) == (SpecFileDiff {
                old_path: crate::model::view_opt_string(old_path),
                new_path: crate::model::view_opt_string(new_path),
                is_rename: is_rename,
                is_binary: is_binary,
                hunks: hunks@.map_values(|h: Hunk| h@),
            }),
        decreases lv.len() - i,
    {
        if i >= lines.len() {
            break;
        }
        let ghost cur = SpecFileDiff {
            old_path: crate::model::view_opt_string(old_path),
            new_path: crate::model::view_opt_string(new_path),
            is_rename: is_rename,
            is_binary: is_binary,
            hunks: hunks@.map_values(|h: Hunk| h@),
        };
        if str_starts_with(lines[i].as_str(), "diff --git ") {
            break;
        }
        if str_starts_with(lines[i].as_str(), "@@ ") {
            let (h, ni) = parse_hunk(lines, i);
            let ghost old_hunks = hunks@.map_values(|h2: Hunk| h2@);
            hunks.push(h);
            proof {
                lemma_hunk_len_bound(lv, i + 1 as int);
                assert(min_i(i + 1 + spec_hunk_len(lv, i + 1 as int), lv.len() as int) == ni);
                assert(hunks@.map_values(|h2: Hunk| h2@) =~= old_hunks.push(h@));
                assert(section_state(lv, i as int, cur) == section_state(
                    lv,
                    ni as int,
                    SpecFileDiff { hunks: cur.hunks.push(spec_hunk_at(lv, i as int)), ..cur },
                ));
                assert forall|k: int| i <= k < ni implies !is_file_sep(#[trigger] lv[k]) by {
                    if k == i {
                        lemma_not_sep_of_hunk_start(lv[k]);
                    } else {
                        assert(classify_line(lv[k]) is Some) by {
                            lemma_hunk_body_classified(lv, i + 1 as int, k);
                        }
                        lemma_classify_not_marker(lv[k]);
                    }
                }
                lemma_section_end_same(lv, i as int, ni as int);
            }
            i = ni;
            continue;
        }
        proof {
            reveal_strlit("rename from ");
            reveal_strlit("rename to ");
            reveal_strlit("Binary files");
            reveal_strlit("GIT binary patch");
            reveal_strlit("--- ");
            reveal_strlit("+++ ");
            reveal_strlit("/dev/null");
        }
        let line = lines[i].as_str();
        let n = line.unicode_len();
        if str_starts_with(line, "rename from ") {
            is_rename = true;
            let p = substr(line, 12, n);
            proof {
                assert(p@ =~= lv[i as int].skip(12));
            }
            old_path = Some(p);
        } else if str_starts_with(line, "rename to ") {
            is_rename = true;
            let p = substr(line, 10, n);
            proof {
                assert(p@ =~= lv[i as int].skip(10));
            }
            new_path = Some(p);
        } else if str_starts_with(line, "Binary files") || str_eq(line, "GIT binary patch") {
            is_binary = true;
        } else if str_starts_with(line, "--- ") {
            let p = substr(line, 4, n);
            proof {
                assert(p@ =~= lv[i as int].skip(4));
            }
            if str_eq(p.as_str(), "/dev/null") {
                old_path = None;
            } else {
                old_path = Some(strip_prefix_segment(p.as_str()));
            }
        } else if str_starts_with(line, "+++ ") {
            let p = substr(line, 4, n);
            proof {
                assert(p@ =~= lv[i as int].skip(4));
            }
            if str_eq(p.as_str(), "/dev/null") {
                new_path = None;
            } else {
                new_path = Some(strip_prefix_segment(p.as_str()));
            }
        }
        proof {
            let cur2 = SpecFileDiff {
                old_path: crate::model::view_opt_string(old_path),
                new_path: crate::model::view_opt_string(new_path),
                is_rename: is_rename,
                is_binary: is_binary,
                hunks: hunks@.map_values(|h: Hunk| h@),
            };
            assert(cur2 == apply_header_line(cur, lv[i as int]));
            assert(section_state(lv, i as int, cur) == section_state(lv, i + 1 as int, cur2));
        }
        i = i + 1;
    }
    let fd = FileDiff { old_path, new_path, is_rename, is_binary, hunks };
    Ok((fd, i))
}

/// Every line strictly inside a hunk body classifies.
proof fn lemma_hunk_body_classified(lines: Seq<Seq<char>>, j: int, k: int)
    requires
        0 <= j <= k < j + spec_hunk_len(lines, j),
    ensures
        classify_line(lines[k]) is Some,
    decreases k - j,
{
    if j < k {
        lemma_hunk_body_classified(lines, j + 1, k);
    }
}

/// A hunk header line is not a file separator.
proof fn lemma_not_sep_of_hunk_start(l: Seq<char>)
    requires
        is_hunk_start(l),
    ensures
        !is_file_sep(l),
{
    reveal_strlit("diff --git ");
    reveal_strlit("@@ ");
    if is_file_sep(l) {
        assert(l.subrange(0, 11)[0] == l[0]);
        assert(l.subrange(0, 3)[0] == l[0]);
        assert(false);
    }
}

/// The meaning of parsing: scan from line `i` for file separators; a
/// malformed separator line is the one fatal error, and every other line
/// outside a file section is ignored.
pub open spec fn spec_parse_diff(lines: Seq<Seq<char>>, i: int) -> Result<
    Seq<SpecFileDiff>,
    Seq<char>,
>
    decreases lines.len() - i,
{
    if i < 0 || i >= lines.len() {
        Ok(Seq::empty())
    } else if is_file_sep(lines[i]) {
        match spec_git_paths(lines[i]) {
            None => Err(lines[i]),
            Some(ab) => {
                let st = section_state(lines, i + 1, spec_init_file(ab.0, ab.1));
                let next = min_i(section_end(lines, i + 1), lines.len() as int);
                let next2 = if next < i + 1 {
                    i + 1
                } else {
                    next
                };
                match spec_parse_diff(lines, next2) {
                    Ok(rest) => Ok(seq![st] + rest),
                    Err(e) => Err(e),
                }
            },
        }
    } else {
        spec_parse_diff(lines, i + 1)
    }
}

/// Law: a `rename from <path>` extended-header line sets the rename flag
/// and makes `<path>` the old path; a `rename to <path>` line sets the
/// flag and makes `<path>` the new path — whatever the record held before.
pub proof fn lemma_rename_line_applies(st: SpecFileDiff, l: Seq<char>)
    ensures
        "rename from "@.is_prefix_of(l) ==> apply_header_line(st, l) == (SpecFileDiff {
            is_rename: true,
            old_path: Some(l.skip(12)),
            ..st
        }),
        "rename to "@.is_prefix_of(l) ==> apply_header_line(st, l) == (SpecFileDiff {
            is_rename: true,
            new_path: Some(l.skip(10)),
            ..st
        }),
{
    reveal_strlit("rename from ");
    reveal_strlit("rename to ");
    if "rename to "@.is_prefix_of(l) && "rename from "@.is_prefix_of(l) {
        assert(l.subrange(0, 12)[7] == l[7]);
        assert(l.subrange(0, 10)[7] == l[7]);
        assert(false);
    }
}

/// Law: once the rename flag is set, no later line of the scan clears it.
pub proof fn lemma_rename_flag_monotone(lines: Seq<Seq<char>>, i: int, st: SpecFileDiff)
    requires
        st.is_rename,
    ensures
        section_state(lines, i, st).is_rename,
    decreases lines.len() - i,
{
    if !(i < 0 || i >= lines.len() || is_file_sep(lines[i])) {
        if is_hunk_start(lines[i]) {
            let next = min_i(i + 1 + spec_hunk_len(lines, i + 1), lines.len() as int);
            lemma_rename_flag_monotone(
                lines,
                next,
                SpecFileDiff { hunks: st.hunks.push(spec_hunk_at(lines, i)), ..st },
            );
        } else {
            lemma_rename_flag_monotone(lines, i + 1, apply_header_line(st, lines[i]));
        }
    }
}

/// Law: after a `+++ <path>` marker line, the record's display path is
/// `<path>` with its `a/` or `b/` segment stripped; when the marker names
/// `/dev/null`, the display path falls back to the old path.
pub proof fn lemma_display_after_new_path_marker(st: SpecFileDiff, l: Seq<char>)
    requires
        "+++ "@.is_prefix_of(l),
    ensures
        ({
            let st2 = apply_header_line(st, l);
            &&& l.skip(4) != "/dev/null"@ ==> spec_display_path(st2) == strip_ab(l.skip(4))
            &&& l.skip(4) == "/dev/null"@ && st.old_path is Some ==> spec_display_path(st2)
                == st.old_path.unwrap()
        }),
{
    reveal_strlit("rename from ");
    reveal_strlit("rename to ");
    reveal_strlit("Binary files");
    reveal_strlit("GIT binary patch");
    reveal_strlit("--- ");
    reveal_strlit("+++ ");
    assert(l.subrange(0, 4)[0] == l[0]);
    assert(l[0] == '+');
    if "rename from "@.is_prefix_of(l) {
        assert(l.subrange(0, 12)[0] == l[0]);
        assert(false);
    }
    if "rename to "@.is_prefix_of(l) {
        assert(l.subrange(0, 10)[0] == l[0]);
        assert(false);
    }
    if "Binary files"@.is_prefix_of(l) {
        assert(l.subrange(0, 12)[0] == l[0]);
        assert(false);
    }
    if l == "GIT binary patch"@ {
        assert(false);
    }
    if "--- "@.is_prefix_of(l) {
        assert(l.subrange(0, 4)[0] == l[0]);
        assert(false);
    }
}

/// Does this extended-header line change the record's new path?
pub open spec fn sets_new_path(l: Seq<char>) -> bool {
    "rename to "@.is_prefix_of(l) || ("+++ "@.is_prefix_of(l) && !("rename from "@.is_prefix_of(
        l,
    )) && !("Binary files"@.is_prefix_of(l)) && !(l == "GIT binary patch"@) && !("--- "@
        .is_prefix_of(l)))
}

/// No header line that the scan from `i` on will read changes the new
/// path. Hunk body lines are consumed by their hunk and never read.
pub open spec fn scan_keeps_new_path(lines: Seq<Seq<char>>, i: int) -> bool
    decreases lines.len() - i,
{
    if i < 0 || i >= lines.len() || is_file_sep(lines[i]) {
        true
    } else if is_hunk_start(lines[i]) {
        scan_keeps_new_path(lines, min_i(i + 1 + spec_hunk_len(lines, i + 1), lines.len() as int))
    } else {
        !sets_new_path(lines[i]) && scan_keeps_new_path(lines, i + 1)
    }
}

proof fn lemma_apply_keeps_new_path(st: SpecFileDiff, l: Seq<char>)
    requires
        !sets_new_path(l),
    ensures
        apply_header_line(st, l).new_path == st.new_path,
{
}

/// Law: a scan that reads no further new-path marker leaves the new path
/// as it stands.
pub proof fn lemma_scan_keeps_new_path(lines: Seq<Seq<char>>, i: int, st: SpecFileDiff)
    requires
        scan_keeps_new_path(lines, i),
    ensures
        section_state(lines, i, st).new_path == st.new_path,
    decreases lines.len() - i,
{
    if !(i < 0 || i >= lines.len() || is_file_sep(lines[i])) {
        if is_hunk_start(lines[i]) {
            let next = min_i(i + 1 + spec_hunk_len(lines, i + 1), lines.len() as int);
            lemma_scan_keeps_new_path(
                lines,
                next,
                SpecFileDiff { hunks: st.hunks.push(spec_hunk_at(lines, i)), ..st },
            );
        } else {
            lemma_apply_keeps_new_path(st, lines[i]);
            lemma_scan_keeps_new_path(lines, i + 1, apply_header_line(st, lines[i]));
        }
    }
}

/// Does this extended-header line change the record's old path?
pub open spec fn sets_old_path(l: Seq<char>) -> bool {
    "rename from "@.is_prefix_of(l) || ("--- "@.is_prefix_of(l) && !("rename to "@.is_prefix_of(
        l,
    )) && !("Binary files"@.is_prefix_of(l)) && !(l == "GIT binary patch"@))
}

/// No header line that the scan from `i` on will read changes the old
/// path.
pub open spec fn scan_keeps_old_path(lines: Seq<Seq<char>>, i: int) -> bool
    decreases lines.len() - i,
{
    if i < 0 || i >= lines.len() || is_file_sep(lines[i]) {
        true
    } else if is_hunk_start(lines[i]) {
        scan_keeps_old_path(lines, min_i(i + 1 + spec_hunk_len(lines, i + 1), lines.len() as int))
    } else {
        !sets_old_path(lines[i]) && scan_keeps_old_path(lines, i + 1)
    }
}

proof fn lemma_apply_keeps_old_path(st: SpecFileDiff, l: Seq<char>)
    requires
        !sets_old_path(l),
    ensures
        apply_header_line(st, l).old_path == st.old_path,
{
    reveal_strlit("rename from ");
    reveal_strlit("rename to ");
    if "rename to "@.is_prefix_of(l) && "rename from "@.is_prefix_of(l) {
        assert(l.subrange(0, 12)[7] == l[7]);
        assert(l.subrange(0, 10)[7] == l[7]);
        assert(false);
    }
}

/// Law: a scan that reads no further old-path marker leaves the old path
/// as it stands.
pub proof fn lemma_scan_keeps_old_path(lines: Seq<Seq<char>>, i: int, st: SpecFileDiff)
    requires
        scan_keeps_old_path(lines, i),
    ensures
        section_state(lines, i, st).old_path == st.old_path,
    decreases lines.len() - i,
{
    if !(i < 0 || i >= lines.len() || is_file_sep(lines[i])) {
        if is_hunk_start(lines[i]) {
            let next = min_i(i + 1 + spec_hunk_len(lines, i + 1), lines.len() as int);
            lemma_scan_keeps_old_path(
                lines,
                next,
                SpecFileDiff { hunks: st.hunks.push(spec_hunk_at(lines, i)), ..st },
            );
        } else {
            lemma_apply_keeps_old_path(st, lines[i]);
            lemma_scan_keeps_old_path(lines, i + 1, apply_header_line(st, lines[i]));
        }
    }
}

/// Law: when line `i` is a `+++ <path>` marker naming a real path and no
/// later line of the section scan changes the new path again, the file
/// record's display path is `<path>` with its `a/`/`b/` segment stripped —
/// whatever the record held before the marker.
pub proof fn lemma_display_path_from_marker(lines: Seq<Seq<char>>, i: int, st: SpecFileDiff)
    requires
        0 <= i < lines.len(),
        "+++ "@.is_prefix_of(lines[i]),
        lines[i].skip(4) != "/dev/null"@,
        scan_keeps_new_path(lines, i + 1),
    ensures
        spec_display_path(section_state(lines, i, st)) == strip_ab(lines[i].skip(4)),
{
    let l = lines[i];
    reveal_strlit("diff --git ");
    reveal_strlit("@@ ");
    reveal_strlit("rename from ");
    reveal_strlit("rename to ");
    reveal_strlit("Binary files");
    reveal_strlit("GIT binary patch");
    reveal_strlit("--- ");
    reveal_strlit("+++ ");
    assert(l.subrange(0, 4)[0] == l[0]);
    assert(l[0] == '+');
    if is_file_sep(l) {
        assert(l.subrange(0, 11)[0] == l[0]);
        assert(false);
    }
    if is_hunk_start(l) {
        assert(l.subrange(0, 3)[0] == l[0]);
        assert(false);
    }
    if "rename from "@.is_prefix_of(l) {
        assert(l.subrange(0, 12)[0] == l[0]);
        assert(false);
    }
    if "rename to "@.is_prefix_of(l) {
        assert(l.subrange(0, 10)[0] == l[0]);
        assert(false);
    }
    if "Binary files"@.is_prefix_of(l) {
        assert(l.subrange(0, 12)[0] == l[0]);
        assert(false);
    }
    if l == "GIT binary patch"@ {
        assert(l[0] == 'G');
        assert(false);
    }
    if "--- "@.is_prefix_of(l) {
        assert(l.subrange(0, 4)[0] == l[0]);
        assert(false);
    }
    let st2 = apply_header_line(st, l);
    assert(st2.new_path == Some(strip_ab(l.skip(4))));
    lemma_scan_keeps_new_path(lines, i + 1, st2);
    assert(section_state(lines, i, st) == section_state(lines, i + 1, st2));
}

/// Parse unified-diff text into an ordered collection of per-file change
/// records. The one fatal error is a `diff --git` line whose path pair
/// cannot be extracted; that error names the offending line.
pub fn parse_diff(input: &str) -> (r: Result<ParsedDiff, ParseError>)
    ensures
        match r {
            Ok(d) => spec_parse_diff(spec_lines(input@), 0) == Ok::<Seq<SpecFileDiff>, Seq<char>>(
                d@,
            ),
            Err(ParseError::UnexpectedFormat(s)) => spec_parse_diff(spec_lines(input@), 0)
                == Err::<Seq<SpecFileDiff>, Seq<char>>(s@),
        },
{
    let lines = split_lines(input);
    let ghost lv = lines.deep_view();
    let mut files: Vec<FileDiff> = Vec::new();
    let mut i: usize = 0;
    proof {
        assert(files@.map_values(|f: FileDiff| f@) =~= Seq::<SpecFileDiff>::empty());
    }
    while i < lines.len()
        invariant
            0 <= i <= lv.len(),
            lv == lines.deep_view(),
            lv == spec_lines(input@),
            lv.len() == lines@.len(),
            spec_parse_diff(lv, 0) == match spec_parse_diff(lv, i as int) {
                Ok(rest) => Ok::<Seq<SpecFileDiff>, Seq<char>>(
                    files@.map_values(|f: FileDiff| f@) + rest,
                ),
                Err(e) => Err::<Seq<SpecFileDiff>, Seq<char>>(e),
            },
        decreases lv.len() - i,
    {
        if str_starts_with(lines[i].as_str(), "diff --git ") {
            match parse_file_diff(&lines, i) {
                Err(e) => {
                    proof {
                        assert(spec_parse_diff(lv, i as int) matches Err(x) && x == lv[i as int]);
                    }
                    return Err(e);
                },
                Ok((fd, ni)) => {
                    let ghost old_map = files@.map_values(|f: FileDiff| f@);
                    files.push(fd);
                    proof {
                        lemma_section_end(lv, i + 1 as int);
                        assert(min_i(section_end(lv, i + 1 as int), lv.len() as int)
                            == section_end(lv, i + 1 as int));
                        assert(files@.map_values(|f: FileDiff| f@) =~= old_map.push(fd@));
                        assert(spec_parse_diff(lv, i as int) == match spec_parse_diff(
                            lv,
                            ni as int,
                        ) {
                            Ok(rest) => Ok::<Seq<SpecFileDiff>, Seq<char>>(seq![fd@] + rest),
                            Err(e) => Err::<Seq<SpecFileDiff>, Seq<char>>(e),
                        });
                        if spec_parse_diff(lv, ni as int) is Ok {
                            let rest = spec_parse_diff(lv, ni as int)->Ok_0;
                            assert(old_map + (seq![fd@] + rest) =~= old_map.push(fd@) + rest);
                        }
                    }
                    i = ni;
                },
            }
        } else {
            i = i + 1;
        }
    }
    proof {
        assert(spec_parse_diff(lv, i as int) == Ok::<Seq<SpecFileDiff>, Seq<char>>(
            Seq::empty(),
        ));
        let d = ParsedDiff { files };
        assert(files@.map_values(|f: FileDiff| f@) + Seq::<SpecFileDiff>::empty() =~= files@
            .map_values(|f: FileDiff| f@));
    }
    Ok(ParsedDiff { files })
}

} // verus!
