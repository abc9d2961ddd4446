//! Routes of the reading list: the full-text keyword of its search.

use regex::Regex;
use vstd::prelude::*;
use vstd::string::*;

use crate::text::{is_white_space, is_whitespace, spec_trim, trim};

verus! {

/// Path under which the routes of the reading list are mounted.
pub fn base() -> (r: &'static str)
    ensures
        r@ == "reading"@,
{
    "reading"
}

/// `text` with every character that is neither a word character nor a space replaced by a
/// space.
pub uninterp spec fn punctuation_to_spaces(text: Seq<char>) -> Seq<char>;

/// `text` with every match of `([^\w\d ])` replaced by a space, through `regex`'s
/// `Regex::new` and `Regex::replace_all`. Claimed: the result is the one `text` determines.
#[verifier::external_body]
pub(crate) fn replace_punctuation(text: &str) -> (r: String)
    ensures
        r@ == punctuation_to_spaces(text@),
{
    Regex::new(r"([^\w\d ])").unwrap().replace_all(text, " ").to_string()
}

/// Reading `s` left to right: the boolean-mode terms written so far, and whether a word is
/// open.
pub open spec fn terms_fold(s: Seq<char>) -> (Seq<char>, bool)
    decreases s.len(),
{
    if s.len() == 0 {
        (Seq::empty(), false)
    } else {
        let (out, open) = terms_fold(s.drop_last());
        let c = s.last();
        if is_white_space(c) {
            if open {
                (out + "*"@, false)
            } else {
                (out, false)
            }
        } else if open {
            (out.push(c), true)
        } else if out.len() == 0 {
            ("+"@.push(c), true)
        } else {
            (out + " +"@.push(c), true)
        }
    }
}

/// Every whitespace-separated word of `s` as a required prefix term, `+word*`, joined by
/// spaces.
pub open spec fn boolean_terms(s: Seq<char>) -> Seq<char> {
    let (out, open) = terms_fold(s);
    if open {
        out + "*"@
    } else {
        out
    }
}

/// The full-text keyword of a reading-list search: the keyword (empty when absent),
/// trimmed, punctuation turned into spaces, and each word made a required prefix term.
pub fn boolean_mode_keyword(keyword: Option<&str>) -> (r: String)
    ensures
        r@ == boolean_terms(punctuation_to_spaces(spec_trim(match keyword {
            Some(k) => k@,
            None => ""@,
        }))),
{
    let k = match keyword {
        Some(k) => k,
        None => "",
    };
    let cleaned = replace_punctuation(trim(k));
    boolean_mode_terms(cleaned.as_str())
}

/// Every whitespace-separated word of `s` (the keyword once cleaned of punctuation) as a
/// required prefix term, `+word*`, joined by spaces.
pub fn boolean_mode_terms(s: &str) -> (r: String)
    ensures
        r@ == boolean_terms(s@),
{
    let n = s.unicode_len();
    let mut out = String::new();
    let mut open = false;
    let mut i: usize = 0;
    while i < n
        invariant
            n == s@.len(),
            i <= n,
            (out@, open) == terms_fold(s@.subrange(0, i as int)),
        decreases n - i,
    {
        let c = s.get_char(i);
        proof {
            assert(s@.subrange(0, i as int + 1).drop_last() =~= s@.subrange(0, i as int));
            assert(s@.subrange(0, i as int + 1).last() == c);
            reveal_strlit("*");
            reveal_strlit("+");
            reveal_strlit(" +");
        }
        if is_whitespace(c) {
            if open {
                out.append("*");
            }
            open = false;
        } else {
            let mut piece = String::new();
            if !open {
                if out.unicode_len() == 0 {
                    piece.append("+");
                } else {
                    piece.append(" +");
                }
            }
            let ghost before = out@;
            out.append(piece.as_str());
            out.append(s.substring_char(i, i + 1));
            proof {
                assert(s@.subrange(i as int, i as int + 1) =~= seq![c]);
                if open {
                    assert(out@ =~= before.push(c));
                } else if before.len() == 0 {
                    assert(out@ =~= "+"@.push(c));
                } else {
                    assert(out@ =~= before + " +"@.push(c));
                }
            }
            open = true;
        }
        i = i + 1;
    }
    proof {
        assert(s@.subrange(0, n as int) =~= s@);
    }
    if open {
        out.append("*");
    }
    out
}

} // verus!
