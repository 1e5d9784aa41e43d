//! The text side of the narrative embedding format: wrapping encoded data
//! in the marker pair that carries it inside a change description, and
//! finding it there again.

use vstd::prelude::*;

use vstd::string::StringExecFns;

use crate::strutil::find_sub;
use crate::strutil::lemma_find_props;
use crate::strutil::spec_find;
use crate::strutil::substr;

verus! {

/// The failure the marker-pair text handling can signal: no embedded
/// narrative found. (Failures of the compression and serialization layers
/// around the embedding are reported by those layers.)
#[derive(Debug, Clone)]
pub enum CodecError {
    MarkerNotFound,
}

/// The wrapped form: a collapsed details block whose hidden comment holds
/// the encoded data between the start marker and `-->`.
pub open spec fn spec_wrap(encoded: Seq<char>) -> Seq<char> {
    "<details><summary>diffstory</summary>\n\n<!--diffstory:"@ + encoded + "-->\n\n</details>"@
}

/// What extraction yields: the text between the first start marker and the
/// first end marker after it, if both are present.
pub open spec fn spec_extract_from_text(text: Seq<char>) -> Option<Seq<char>> {
    match spec_find(text, "<!--diffstory:"@) {
        None => None,
        Some(start) => {
            let ds = start + 14;
            match spec_find(text.skip(ds), "-->"@) {
                None => None,
                Some(end) => Some(text.skip(ds).take(end)),
            }
        },
    }
}

/// Wrap encoded data in the embeddable format.
pub fn wrap(encoded: &str) -> (r: String)
    ensures
        r@ == spec_wrap(encoded@),
{
    let mut s = "<details><summary>diffstory</summary>\n\n<!--diffstory:".to_owned();
    s.append(encoded);
    s.append("-->\n\n</details>");
    proof {
        assert(s@ =~= spec_wrap(encoded@));
    }
    s
}

/// Extract encoded data from description text.
pub fn extract_from_text(text: &str) -> (r: Result<String, CodecError>)
    ensures
        match r {
            Ok(s) => spec_extract_from_text(text@) == Some(s@),
            Err(e) => spec_extract_from_text(text@) is None && e is MarkerNotFound,
        },
{
    proof {
        reveal_strlit("<!--diffstory:");
        reveal_strlit("-->");
    }
    let start = match find_sub(text, "<!--diffstory:") {
        Some(i) => i,
        None => {
            return Err(CodecError::MarkerNotFound);
        },
    };
    proof {
        lemma_find_props(text@, "<!--diffstory:"@);
    }
    let n = text.unicode_len();
    let data_start = start + 14;
    let suffix = substr(text, data_start, n);
    proof {
        assert(suffix@ =~= text@.skip(data_start as int));
    }
    let end = match find_sub(suffix.as_str(), "-->") {
        Some(i) => i,
        None => {
            return Err(CodecError::MarkerNotFound);
        },
    };
    proof {
        lemma_find_props(suffix@, "-->"@);
    }
    let r = substr(suffix.as_str(), 0, end);
    proof {
        assert(r@ =~= text@.skip(data_start as int).take(end as int));
    }
    Ok(r)
}

} // verus!
