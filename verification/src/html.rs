//! The verified leaves of the static-viewer output: HTML escaping, date
//! shortening, and re-reading a hunk header for display line numbers. The
//! page assembly around them is formatting glue and lives with the program
//! shell.

use vstd::prelude::*;

use vstd::string::StringExecFns;

use crate::strutil::char_eq;
use crate::strutil::find_sub;
use crate::strutil::lemma_find_props;
use crate::strutil::spec_find;
use crate::strutil::spec_parse_u32;
use crate::strutil::parse_u32;
use crate::strutil::str_starts_with;
use crate::strutil::substr;

verus! {

/// What one character escapes to.
pub open spec fn esc_char(c: char) -> Seq<char> {
    if c == '&' {
        "&amp;"@
    } else if c == '<' {
        "&lt;"@
    } else if c == '>' {
        "&gt;"@
    } else if c == '"' {
        "&quot;"@
    } else {
        seq![c]
    }
}

/// The HTML-escaped form of a text: every markup character replaced by its
/// entity.
pub open spec fn spec_html_escape(s: Seq<char>) -> Seq<char>
    decreases s.len(),
{
    if s.len() == 0 {
        Seq::empty()
    } else {
        esc_char(s[0]) + spec_html_escape(s.drop_first())
    }
}

proof fn lemma_html_escape_snoc(s: Seq<char>, c: char)
    ensures
        spec_html_escape(s.push(c)) == spec_html_escape(s) + esc_char(c),
    decreases s.len(),
{
    if s.len() == 0 {
        assert(s.push(c)[0] == c);
        assert(s.push(c).drop_first() =~= Seq::<char>::empty());
        assert(spec_html_escape(Seq::<char>::empty()) =~= Seq::<char>::empty());
        assert(spec_html_escape(s.push(c)) =~= esc_char(c) + Seq::<char>::empty());
        assert(esc_char(c) + Seq::<char>::empty() =~= esc_char(c));
        assert(spec_html_escape(s) + esc_char(c) =~= esc_char(c));
    } else {
        assert(s.push(c)[0] == s[0]);
        assert(s.push(c).drop_first() =~= s.drop_first().push(c));
        lemma_html_escape_snoc(s.drop_first(), c);
        assert(esc_char(s[0]) + (spec_html_escape(s.drop_first()) + esc_char(c)) =~= (esc_char(
            s[0],
        ) + spec_html_escape(s.drop_first())) + esc_char(c));
    }
}

/// Escape the four HTML markup characters.
pub fn html_escape(s: &str) -> (r: String)
    ensures
        r@ == spec_html_escape(s@),
{
    proof {
        reveal_strlit("&amp;");
        reveal_strlit("&lt;");
        reveal_strlit("&gt;");
        reveal_strlit("&quot;");
    }
    let n = s.unicode_len();
    let mut out = String::new();
    let mut i: usize = 0;
    proof {
        assert(s@.take(0) =~= Seq::<char>::empty());
        assert(out@ =~= spec_html_escape(s@.take(0)));
    }
    while i < n
        invariant
            0 <= i <= n,
            n == s@.len(),
            out@ == spec_html_escape(s@.take(i as int)),
        decreases n - i,
    {
        let c = s.get_char(i);
        if char_eq(c, '&') {
            out.append("&amp;");
        } else if char_eq(c, '<') {
            out.append("&lt;");
        } else if char_eq(c, '>') {
            out.append("&gt;");
        } else if char_eq(c, '"') {
            out.append("&quot;");
        } else {
            let one = substr(s, i, i + 1);
            proof {
                assert(one@ =~= seq![c]);
            }
            out.append(one.as_str());
        }
        proof {
            lemma_html_escape_snoc(s@.take(i as int), c);
            assert(s@.take(i + 1) =~= s@.take(i as int).push(s@[i as int]));
        }
        i = i + 1;
    }
    proof {
        assert(s@.take(n as int) =~= s@);
    }
    out
}

/// The date part of a sortable timestamp: everything before the first `T`,
/// or the whole text when there is none.
pub open spec fn spec_format_date(s: Seq<char>) -> Seq<char> {
    match spec_find(s, "T"@) {
        Some(i) => s.take(i),
        None => s,
    }
}

/// Format a sortable timestamp to a short display date.
pub fn format_date(iso: &str) -> (r: String)
    ensures
        r@ == spec_format_date(iso@),
{
    proof {
        reveal_strlit("T");
        lemma_find_props(iso@, "T"@);
    }
    let n = iso.unicode_len();
    match find_sub(iso, "T") {
        Some(i) => substr(iso, 0, i),
        None => substr(iso, 0, n),
    }
}

/// One side's start number from a hunk header part, falling back to 1 at
/// any malformation.
pub open spec fn spec_range_start(part: Seq<char>, marker: char) -> u32 {
    if part.len() > 0 && part[0] == marker {
        let digits = part.drop_first();
        let first = match spec_find(digits, ","@) {
            Some(ci) => digits.take(ci),
            None => digits,
        };
        match spec_parse_u32(first) {
            Some(v) => v,
            None => 1,
        }
    } else {
        1
    }
}

/// The (new_start, old_start) pair a hunk header displays, defaulting each
/// side to 1 when it cannot be read.
pub open spec fn spec_parse_hunk_start(h: Seq<char>) -> (u32, u32) {
    let h2 = if "@@ "@.is_prefix_of(h) {
        h.skip(3)
    } else {
        h
    };
    let range = match spec_find(h2, " @@"@) {
        Some(e) => h2.take(e),
        None => h2,
    };
    let seg0 = match spec_find(range, " "@) {
        Some(sp) => range.take(sp),
        None => range,
    };
    let old_start = spec_range_start(seg0, '-');
    let new_start = match spec_find(range, " "@) {
        None => 1,
        Some(sp) => {
            let rest = range.skip(sp + 1);
            let seg1 = match spec_find(rest, " "@) {
                Some(sp2) => rest.take(sp2),
                None => rest,
            };
            spec_range_start(seg1, '+')
        },
    };
    (new_start, old_start)
}

fn range_start(part: &str, marker: char) -> (r: u32)
    ensures
        r == spec_range_start(part@, marker),
{
    proof {
        reveal_strlit(",");
    }
    let n = part.unicode_len();
    if n == 0 {
        return 1;
    }
    let c = part.get_char(0);
    if !char_eq(c, marker) {
        return 1;
    }
    let digits = substr(part, 1, n);
    proof {
        assert(digits@ =~= part@.drop_first());
        lemma_find_props(digits@, ","@);
    }
    let dn = digits.as_str().unicode_len();
    let first = match find_sub(digits.as_str(), ",") {
        Some(ci) => substr(digits.as_str(), 0, ci),
        None => substr(digits.as_str(), 0, dn),
    };
    proof {
        assert(first@ =~= match spec_find(digits@, ","@) {
            Some(ci) => digits@.take(ci),
            None => digits@,
        });
    }
    match parse_u32(first.as_str()) {
        Some(v) => v,
        None => 1,
    }
}

/// Re-read a hunk header for display: the starting line numbers of the new
/// and old sides, `@@ -old_start,old_count +new_start,new_count @@`.
pub fn parse_hunk_start(header: &str) -> (r: (u32, u32))
    ensures
        r == spec_parse_hunk_start(header@),
{
    proof {
        reveal_strlit("@@ ");
        reveal_strlit(" @@");
        reveal_strlit(" ");
    }
    let n = header.unicode_len();
    let h2 = if str_starts_with(header, "@@ ") {
        substr(header, 3, n)
    } else {
        substr(header, 0, n)
    };
    proof {
        assert(h2@ =~= if "@@ "@.is_prefix_of(header@) {
            header@.skip(3)
        } else {
            header@
        });
        lemma_find_props(h2@, " @@"@);
    }
    let hn = h2.as_str().unicode_len();
    let range = match find_sub(h2.as_str(), " @@") {
        Some(e) => substr(h2.as_str(), 0, e),
        None => substr(h2.as_str(), 0, hn),
    };
    proof {
        assert(range@ =~= match spec_find(h2@, " @@"@) {
            Some(e) => h2@.take(e),
            None => h2@,
        });
        lemma_find_props(range@, " "@);
    }
    let rn = range.as_str().unicode_len();
    match find_sub(range.as_str(), " ") {
        None => {
            let old_start = range_start(range.as_str(), '-');
            (1, old_start)
        },
        Some(sp) => {
            proof {
                assert(crate::strutil::match_at(range@, " "@, sp as int));
            }
            let seg0 = substr(range.as_str(), 0, sp);
            proof {
                assert(seg0@ =~= range@.take(sp as int));
            }
            let old_start = range_start(seg0.as_str(), '-');
            let rest = substr(range.as_str(), sp + 1, rn);
            proof {
                assert(rest@ =~= range@.skip(sp + 1));
                lemma_find_props(rest@, " "@);
            }
            let rstn = rest.as_str().unicode_len();
            let seg1 = match find_sub(rest.as_str(), " ") {
                Some(sp2) => substr(rest.as_str(), 0, sp2),
                None => substr(rest.as_str(), 0, rstn),
            };
            proof {
                assert(seg1@ =~= match spec_find(rest@, " "@) {
                    Some(sp2) => rest@.take(sp2),
                    None => rest@,
                });
            }
            let new_start = range_start(seg1.as_str(), '+');
            (new_start, old_start)
        },
    }
}

} // verus!