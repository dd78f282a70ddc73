//! Search-term matching: every term must occur, smart-case.
use vstd::prelude::*;
use crate::text::{
    ascii_lower, ascii_text, char_is_uppercase, chars_of, contains_str, contains_text,
    is_ascii_char, is_ascii_upper, lowercase, texts, to_lowercase, uppercase,
};

verus! {

/// An uppercase character: `A`-`Z` among the ASCII characters, else a
/// character with the Unicode Uppercase property.
pub open spec fn upper_char(c: char) -> bool {
    if is_ascii_char(c) {
        is_ascii_upper(c)
    } else {
        uppercase(c)
    }
}

/// The term holds an uppercase character, which makes its match case-sensitive.
pub open spec fn has_uppercase(t: Seq<char>) -> bool {
    exists|i: int| 0 <= i < t.len() && upper_char(t[i])
}

/// The lowercase form of a text: `A`-`Z` lowered for an ASCII text, else the
/// text's Unicode lowercase form.
pub open spec fn lowered(s: Seq<char>) -> Seq<char> {
    if ascii_text(s) {
        ascii_lower(s)
    } else {
        lowercase(s)
    }
}

/// One term matches a text: as written when it holds an uppercase character,
/// else with both lowercased.
pub open spec fn term_matches(text: Seq<char>, t: Seq<char>) -> bool {
    if has_uppercase(t) {
        contains_text(text, t)
    } else {
        contains_text(lowered(text), lowered(t))
    }
}

/// Every term matches the text (so no terms match every text).
pub open spec fn all_match(text: Seq<char>, terms: Seq<Seq<char>>) -> bool {
    forall|i: int| 0 <= i < terms.len() ==> term_matches(text, #[trigger] terms[i])
}

/// Whether the term holds an uppercase character.
fn any_uppercase(t: &str) -> (r: bool)
    ensures
        r == has_uppercase(t@),
{
    let cs = chars_of(t);
    let mut i: usize = 0;
    while i < cs.len()
        invariant
            cs@ == t@,
            i <= cs.len(),
            forall|k: int| 0 <= k < i ==> !upper_char(cs@[k]),
        decreases cs.len() - i,
    {
        if char_is_uppercase(cs[i]) {
            return true;
        }
        i += 1;
    }
    false
}

/// Whether `text` matches every term, each smart-case.
pub fn matches(text: &str, terms: &[String]) -> (r: bool)
    ensures
        r == all_match(text@, texts(terms@)),
{
    let mut i: usize = 0;
    while i < terms.len()
        invariant
            i <= terms.len(),
            forall|k: int| 0 <= k < i ==> term_matches(text@, #[trigger] texts(terms@)[k]),
        decreases terms.len() - i,
    {
        let t = terms[i].as_str();
        let ok = if any_uppercase(t) {
            contains_str(text, t)
        } else {
            let lt = to_lowercase(text);
            let lp = to_lowercase(t);
            contains_str(lt.as_str(), lp.as_str())
        };
        assert(texts(terms@)[i as int] == t@);
        if !ok {
            return false;
        }
        i += 1;
    }
    true
}

} // verus!
