//! Validation of the account fields of a registration: username, email and password.

use regex::Regex;
use vstd::prelude::*;
use vstd::string::*;

use crate::text::{spec_trim, trim, utf8_len, utf8_len_below};

verus! {

/// Whether `pattern` is one of the patterns the account checks use.
pub open spec fn known_pattern(pattern: Seq<char>) -> bool {
    ||| pattern == ONLY_WORD@
    ||| pattern == HAS_UPPERCASE@
    ||| pattern == HAS_DIGIT@
    ||| pattern == HAS_SPECIAL@
    ||| pattern == IS_EMAIL@
}

/// A username is word characters only.
pub const ONLY_WORD: &'static str = r"^\w+$";

/// Some uppercase ASCII letter.
pub const HAS_UPPERCASE: &'static str = "[A-Z]";

/// Some ASCII digit.
pub const HAS_DIGIT: &'static str = "[0-9]";

/// Some non-word character.
pub const HAS_SPECIAL: &'static str = r"\W";

/// An email address, as RFC 5322 has it.
pub const IS_EMAIL: &'static str = r#"(?:[a-z0-9!#$%&'*+/=?^_`{|}~-]+(?:\.[a-z0-9!#$%&'*+/=?^_`{|}~-]+)*|"(?:[\x01-\x08\x0b\x0c\x0e-\x1f\x21\x23-\x5b\x5d-\x7f]|\\[\x01-\x09\x0b\x0c\x0e-\x7f])*")@(?:(?:[a-z0-9](?:[a-z0-9-]*[a-z0-9])?\.)+[a-z0-9](?:[a-z0-9-]*[a-z0-9])?|\[(?:(?:(2(5[0-5]|[0-4][0-9])|1[0-9][0-9]|[1-9]?[0-9]))\.){3}(?:(2(5[0-5]|[0-4][0-9])|1[0-9][0-9]|[1-9]?[0-9])|[a-z0-9-]*[a-z0-9]:(?:[\x01-\x08\x0b\x0c\x0e-\x1f\x21-\x5a\x53-\x7f]|\\[\x01-\x09\x0b\x0c\x0e-\x7f])+)\])"#;

/// Whether the regular expression `pattern` matches somewhere in `text`.
pub uninterp spec fn regex_is_match(pattern: Seq<char>, text: Seq<char>) -> bool;

/// Whether `text` holds a character in `lo..=hi`.
pub open spec fn has_char_in(text: Seq<char>, lo: u32, hi: u32) -> bool {
    exists|i: int| 0 <= i < text.len() && lo <= #[trigger] (text[i] as u32) <= hi
}

/// Whether `c` is an ASCII word character: a digit, a letter or `_`.
pub open spec fn is_ascii_word(c: char) -> bool {
    let u = c as u32;
    ||| 0x30 <= u <= 0x39
    ||| 0x41 <= u <= 0x5a
    ||| 0x61 <= u <= 0x7a
    ||| u == 0x5f
}

/// Whether `text` holds a character other than an ASCII word character.
pub open spec fn has_non_word(text: Seq<char>) -> bool {
    exists|i: int| 0 <= i < text.len() && !is_ascii_word(#[trigger] text[i])
}

/// Whether `text` is one or more ASCII word characters.
pub open spec fn is_word(text: Seq<char>) -> bool {
    text.len() > 0 && !has_non_word(text)
}

/// Whether every character of `text` is ASCII.
pub open spec fn all_ascii(text: Seq<char>) -> bool {
    forall|i: int| 0 <= i < text.len() ==> (#[trigger] text[i] as u32) < 0x80
}

/// Whether `pattern` matches somewhere in `text`, through `regex`'s `Regex::new` and
/// `Regex::is_match`. Claimed: the answer is the one `pattern` and `text` determine, the
/// known patterns compile, the two character-class patterns match exactly the texts
/// holding a character of their class, and on ASCII text (where Unicode `\w` is the ASCII
/// word characters) `\W` matches exactly the texts holding a character other than a word
/// character, and `^\w+$` (whose `$` is the end of the text) exactly the non-empty texts
/// of word characters only.
#[verifier::external_body]
pub(crate) fn pattern_matches(pattern: &str, text: &str) -> (r: bool)
    requires
        known_pattern(pattern@),
    ensures
        r == regex_is_match(pattern@, text@),
        pattern@ == HAS_DIGIT@ ==> (r <==> has_char_in(text@, 0x30, 0x39)),
        pattern@ == HAS_UPPERCASE@ ==> (r <==> has_char_in(text@, 0x41, 0x5a)),
        pattern@ == HAS_SPECIAL@ ==> (all_ascii(text@) ==> (r <==> has_non_word(text@))),
        pattern@ == ONLY_WORD@ ==> (all_ascii(text@) ==> (r <==> is_word(text@))),
{
    Regex::new(pattern).unwrap().is_match(text)
}

/// What is wrong with a password.
#[derive(Debug, Clone, Copy, PartialEq, Eq)]
pub enum PasswordProblem {
    MissingDigit,
    MissingSpecial,
    MissingUppercase,
    TooShort,
}

impl PasswordProblem {
    /// The problem in words.
    pub fn message(&self) -> (r: &'static str)
        ensures
            r@ == problem_message(*self),
    {
        match self {
            PasswordProblem::MissingDigit => "Missing digit",
            PasswordProblem::MissingSpecial => "Missing special character",
            PasswordProblem::MissingUppercase => "Missing uppercase",
            PasswordProblem::TooShort => "Should be more than 8 characters",
        }
    }
}

/// The words for `p`.
pub open spec fn problem_message(p: PasswordProblem) -> Seq<char> {
    match p {
        PasswordProblem::MissingDigit => "Missing digit"@,
        PasswordProblem::MissingSpecial => "Missing special character"@,
        PasswordProblem::MissingUppercase => "Missing uppercase"@,
        PasswordProblem::TooShort => "Should be more than 8 characters"@,
    }
}

/// The messages of `ps`, one per line.
pub open spec fn problem_lines(ps: Seq<PasswordProblem>) -> Seq<char>
    decreases ps.len(),
{
    if ps.len() == 0 {
        Seq::empty()
    } else if ps.len() == 1 {
        problem_message(ps[0])
    } else {
        problem_lines(ps.drop_last()) + "\n"@ + problem_message(ps.last())
    }
}

/// Why an account field was refused.
#[derive(Debug, Clone, PartialEq, Eq)]
pub enum ValidationError {
    UsernameTooShort,
    UsernameCharacters,
    InvalidEmail,
    /// The password's problems, in the order they were found.
    WeakPassword(Vec<PasswordProblem>),
}

impl ValidationError {
    /// The message the caller is answered with.
    pub fn message(&self) -> (r: String)
        ensures
            r@ == match *self {
                ValidationError::UsernameTooShort => "Username should be at least 4 characters"@,
                ValidationError::UsernameCharacters => "Username should only contain [a-zA-Z0-9_]+"@,
                ValidationError::InvalidEmail => "Invalid email"@,
                ValidationError::WeakPassword(ps) => problem_lines(ps@),
            },
    {
        match self {
            ValidationError::UsernameTooShort => "Username should be at least 4 characters".to_owned(),
            ValidationError::UsernameCharacters => "Username should only contain [a-zA-Z0-9_]+".to_owned(),
            ValidationError::InvalidEmail => "Invalid email".to_owned(),
            ValidationError::WeakPassword(ps) => {
                let mut out = String::new();
                let mut i: usize = 0;
                while i < ps.len()
                    invariant
                        i <= ps@.len(),
                        out@ == problem_lines(ps@.take(i as int)),
                    decreases ps@.len() - i,
                {
                    proof {
                        assert(ps@.take(i as int + 1).drop_last() =~= ps@.take(i as int));
                        assert(ps@.take(i as int + 1).last() == ps@[i as int]);
                        if i == 0 {
                            assert(ps@.take(1)[0] == ps@[0]);
                        }
                    }
                    if i > 0 {
                        out.append("\n");
                    }
                    out.append(ps[i].message());
                    i = i + 1;
                }
                proof {
                    assert(ps@.take(i as int) =~= ps@);
                }
                out
            },
        }
    }
}

/// The problems of password `t` (already trimmed), in the order they are checked.
pub open spec fn password_problems(t: Seq<char>) -> Seq<PasswordProblem> {
    let a = if !has_char_in(t, 0x30, 0x39) { seq![PasswordProblem::MissingDigit] } else { Seq::empty() };
    let b = if !regex_is_match(HAS_SPECIAL@, t) { seq![PasswordProblem::MissingSpecial] } else { Seq::empty() };
    let c = if !has_char_in(t, 0x41, 0x5a) { seq![PasswordProblem::MissingUppercase] } else { Seq::empty() };
    let d = if utf8_len(t) < 8 { seq![PasswordProblem::TooShort] } else { Seq::empty() };
    a + b + c + d
}

/// Each rule of a password stands on its own: a problem is reported exactly when the
/// trimmed password `t` breaks its rule (no ASCII digit, no non-word character, no ASCII
/// uppercase letter, under 8 bytes), and the password passes exactly when it breaks none.
pub proof fn lemma_password_rules(t: Seq<char>)
    ensures
        password_problems(t).contains(PasswordProblem::MissingDigit) <==> !has_char_in(t, 0x30, 0x39),
        password_problems(t).contains(PasswordProblem::MissingSpecial) <==> !regex_is_match(HAS_SPECIAL@, t),
        password_problems(t).contains(PasswordProblem::MissingUppercase) <==> !has_char_in(t, 0x41, 0x5a),
        password_problems(t).contains(PasswordProblem::TooShort) <==> utf8_len(t) < 8,
        password_problems(t).len() == 0 <==> has_char_in(t, 0x30, 0x39) && regex_is_match(HAS_SPECIAL@, t)
            && has_char_in(t, 0x41, 0x5a) && utf8_len(t) >= 8,
{
    let digit = if !has_char_in(t, 0x30, 0x39) { seq![PasswordProblem::MissingDigit] } else { Seq::empty() };
    let special = if !regex_is_match(HAS_SPECIAL@, t) { seq![PasswordProblem::MissingSpecial] } else { Seq::empty() };
    let upper = if !has_char_in(t, 0x41, 0x5a) { seq![PasswordProblem::MissingUppercase] } else { Seq::empty() };
    let short = if utf8_len(t) < 8 { seq![PasswordProblem::TooShort] } else { Seq::empty() };
    let ps = password_problems(t);
    assert(ps == digit + special + upper + short);
    assert forall|p: PasswordProblem| #[trigger] ps.contains(p) <==> digit.contains(p) || special.contains(p) || upper.contains(p)
        || short.contains(p) by {
        if ps.contains(p) {
            let i = choose|i: int| 0 <= i < ps.len() && ps[i] == p;
            if i < digit.len() {
                assert(digit[i] == p);
            } else if i < digit.len() + special.len() {
                assert(special[i - digit.len()] == p);
            } else if i < digit.len() + special.len() + upper.len() {
                assert(upper[i - digit.len() - special.len()] == p);
            } else {
                assert(short[i - digit.len() - special.len() - upper.len()] == p);
            }
        }
        if digit.contains(p) {
            let i = choose|i: int| 0 <= i < digit.len() && digit[i] == p;
            assert(ps[i] == p);
        }
        if special.contains(p) {
            let i = choose|i: int| 0 <= i < special.len() && special[i] == p;
            assert(ps[digit.len() + i] == p);
        }
        if upper.contains(p) {
            let i = choose|i: int| 0 <= i < upper.len() && upper[i] == p;
            assert(ps[digit.len() + special.len() + i] == p);
        }
        if short.contains(p) {
            let i = choose|i: int| 0 <= i < short.len() && short[i] == p;
            assert(ps[digit.len() + special.len() + upper.len() + i] == p);
        }
    }
    assert(digit.contains(PasswordProblem::MissingDigit) <==> !has_char_in(t, 0x30, 0x39)) by {
        if !has_char_in(t, 0x30, 0x39) {
            assert(digit[0] == PasswordProblem::MissingDigit);
        }
    }
    assert(special.contains(PasswordProblem::MissingSpecial) <==> !regex_is_match(HAS_SPECIAL@, t)) by {
        if !regex_is_match(HAS_SPECIAL@, t) {
            assert(special[0] == PasswordProblem::MissingSpecial);
        }
    }
    assert(upper.contains(PasswordProblem::MissingUppercase) <==> !has_char_in(t, 0x41, 0x5a)) by {
        if !has_char_in(t, 0x41, 0x5a) {
            assert(upper[0] == PasswordProblem::MissingUppercase);
        }
    }
    assert(short.contains(PasswordProblem::TooShort) <==> utf8_len(t) < 8) by {
        if utf8_len(t) < 8 {
            assert(short[0] == PasswordProblem::TooShort);
        }
    }
    assert(!digit.contains(PasswordProblem::MissingSpecial) && !digit.contains(PasswordProblem::MissingUppercase)
        && !digit.contains(PasswordProblem::TooShort));
    assert(!special.contains(PasswordProblem::MissingDigit) && !special.contains(PasswordProblem::MissingUppercase)
        && !special.contains(PasswordProblem::TooShort));
    assert(!upper.contains(PasswordProblem::MissingDigit) && !upper.contains(PasswordProblem::MissingSpecial)
        && !upper.contains(PasswordProblem::TooShort));
    assert(!short.contains(PasswordProblem::MissingDigit) && !short.contains(PasswordProblem::MissingSpecial)
        && !short.contains(PasswordProblem::MissingUppercase));
    assert(ps.contains(PasswordProblem::MissingDigit) <==> digit.contains(PasswordProblem::MissingDigit));
    assert(ps.contains(PasswordProblem::MissingSpecial) <==> special.contains(PasswordProblem::MissingSpecial));
    assert(ps.contains(PasswordProblem::MissingUppercase) <==> upper.contains(PasswordProblem::MissingUppercase));
    assert(ps.contains(PasswordProblem::TooShort) <==> short.contains(PasswordProblem::TooShort));
}

/// Checks a username: trimmed, it must take at least 4 bytes and be word characters only.
pub fn username(input: &str) -> (r: Result<String, ValidationError>)
    ensures
        ({
            let t = spec_trim(input@);
            &&& utf8_len(t) < 4 ==> r == Err::<String, ValidationError>(ValidationError::UsernameTooShort)
            &&& utf8_len(t) >= 4 && !regex_is_match(ONLY_WORD@, t) ==> r == Err::<String, ValidationError>(
                ValidationError::UsernameCharacters,
            )
            &&& r is Ok <==> utf8_len(t) >= 4 && regex_is_match(ONLY_WORD@, t)
            &&& r matches Ok(s) ==> s@ == t
        }),
{
    let t = trim(input);
    if utf8_len_below(t, 4) {
        Err(ValidationError::UsernameTooShort)
    } else if !pattern_matches(ONLY_WORD, t) {
        Err(ValidationError::UsernameCharacters)
    } else {
        Ok(t.to_owned())
    }
}

/// Checks an email address: trimmed, it must be an email address.
pub fn email(input: &str) -> (r: Result<String, ValidationError>)
    ensures
        r is Ok <==> regex_is_match(IS_EMAIL@, spec_trim(input@)),
        r is Err ==> r == Err::<String, ValidationError>(ValidationError::InvalidEmail),
        r matches Ok(s) ==> s@ == spec_trim(input@),
{
    let t = trim(input);
    if !pattern_matches(IS_EMAIL, t) {
        Err(ValidationError::InvalidEmail)
    } else {
        Ok(t.to_owned())
    }
}

/// Checks a password: trimmed, it needs a digit, a special character, an uppercase letter
/// and at least 8 bytes; every missing one is reported.
pub fn password(input: &str) -> (r: Result<String, ValidationError>)
    ensures
        ({
            let t = spec_trim(input@);
            &&& r is Ok <==> password_problems(t).len() == 0
            &&& r is Ok <==> has_char_in(t, 0x30, 0x39) && regex_is_match(HAS_SPECIAL@, t) && has_char_in(t, 0x41, 0x5a)
                && utf8_len(t) >= 8
            &&& r matches Ok(s) ==> s@ == t
            &&& r matches Err(e) ==> e matches ValidationError::WeakPassword(ps) && ps@ == password_problems(t)
            &&& r matches Err(ValidationError::WeakPassword(ps)) ==> {
                &&& ps@.contains(PasswordProblem::MissingDigit) <==> !has_char_in(t, 0x30, 0x39)
                &&& ps@.contains(PasswordProblem::MissingSpecial) <==> !regex_is_match(HAS_SPECIAL@, t)
                &&& ps@.contains(PasswordProblem::MissingUppercase) <==> !has_char_in(t, 0x41, 0x5a)
                &&& ps@.contains(PasswordProblem::TooShort) <==> utf8_len(t) < 8
            }
        }),
{
    let t = trim(input);
    let mut problems: Vec<PasswordProblem> = Vec::new();
    if !pattern_matches(HAS_DIGIT, t) {
        problems.push(PasswordProblem::MissingDigit);
    }
    if !pattern_matches(HAS_SPECIAL, t) {
        problems.push(PasswordProblem::MissingSpecial);
    }
    if !pattern_matches(HAS_UPPERCASE, t) {
        problems.push(PasswordProblem::MissingUppercase);
    }
    if utf8_len_below(t, 8) {
        problems.push(PasswordProblem::TooShort);
    }
    proof {
        assert(problems@ =~= password_problems(t@));
        lemma_password_rules(t@);
    }
    if problems.len() > 0 {
        Err(ValidationError::WeakPassword(problems))
    } else {
        Ok(t.to_owned())
    }
}

} // verus!
