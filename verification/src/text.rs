//! Text helpers shared by the request validators and header parsers: Unicode whitespace,
//! trimming, prefixes and UTF-8 lengths, each stated over the text's characters.

use vstd::prelude::*;
use vstd::string::*;

verus! {

/// Whether `c` has the Unicode `White_Space` property, the whitespace that `str::trim`
/// removes.
pub open spec fn is_white_space(c: char) -> bool {
    let u = c as u32;
    ||| 0x9 <= u <= 0xd
    ||| u == 0x20
    ||| u == 0x85
    ||| u == 0xa0
    ||| u == 0x1680
    ||| 0x2000 <= u <= 0x200a
    ||| u == 0x2028
    ||| u == 0x2029
    ||| u == 0x202f
    ||| u == 0x205f
    ||| u == 0x3000
}

/// Number of whitespace characters `s` starts with.
pub open spec fn leading_ws(s: Seq<char>) -> nat
    decreases s.len(),
{
    if s.len() > 0 && is_white_space(s[0]) {
        1 + leading_ws(s.drop_first())
    } else {
        0
    }
}

/// Number of whitespace characters `s` ends with.
pub open spec fn trailing_ws(s: Seq<char>) -> nat
    decreases s.len(),
{
    if s.len() > 0 && is_white_space(s.last()) {
        1 + trailing_ws(s.drop_last())
    } else {
        0
    }
}

/// `s` without its leading and trailing whitespace.
pub open spec fn spec_trim(s: Seq<char>) -> Seq<char> {
    if leading_ws(s) == s.len() {
        Seq::empty()
    } else {
        s.subrange(leading_ws(s) as int, s.len() - trailing_ws(s))
    }
}

/// Bytes that `c` takes in UTF-8.
pub open spec fn utf8_width(c: char) -> nat {
    let u = c as u32;
    if u < 0x80 {
        1
    } else if u < 0x800 {
        2
    } else if u < 0x10000 {
        3
    } else {
        4
    }
}

/// Bytes that `s` takes in UTF-8: what `str::len` gives.
pub open spec fn utf8_len(s: Seq<char>) -> nat
    decreases s.len(),
{
    if s.len() == 0 {
        0
    } else {
        utf8_len(s.drop_last()) + utf8_width(s.last())
    }
}

/// The leading whitespace of `s` is the first `i` characters when they are all whitespace
/// and the next one is not.
pub proof fn lemma_leading_ws(s: Seq<char>, i: int)
    requires
        0 <= i <= s.len(),
        forall|k: int| 0 <= k < i ==> is_white_space(#[trigger] s[k]),
        i == s.len() || !is_white_space(s[i]),
    ensures
        leading_ws(s) == i,
    decreases s.len(),
{
    if s.len() > 0 && is_white_space(s[0]) {
        let t = s.drop_first();
        assert forall|k: int| 0 <= k < i - 1 implies is_white_space(#[trigger] t[k]) by {
            assert(t[k] == s[k + 1]);
        }
        if i - 1 < t.len() {
            assert(t[i - 1] == s[i]);
        }
        lemma_leading_ws(t, i - 1);
    }
}

/// The trailing whitespace of `s` is everything from `j` on when that is all whitespace
/// and the character before it is not.
pub proof fn lemma_trailing_ws(s: Seq<char>, j: int)
    requires
        0 <= j <= s.len(),
        forall|k: int| j <= k < s.len() ==> is_white_space(#[trigger] s[k]),
        j == 0 || !is_white_space(s[j - 1]),
    ensures
        trailing_ws(s) == s.len() - j,
    decreases s.len(),
{
    if s.len() > 0 && is_white_space(s.last()) {
        let t = s.drop_last();
        assert forall|k: int| j <= k < t.len() implies is_white_space(#[trigger] t[k]) by {
            assert(t[k] == s[k]);
        }
        if j > 0 {
            assert(j - 1 < t.len());
            assert(t[j - 1] == s[j - 1]);
        }
        lemma_trailing_ws(t, j);
    }
}

/// Whether `c` is Unicode whitespace, as `char::is_whitespace` decides.
pub fn is_whitespace(c: char) -> (r: bool)
    ensures
        r == is_white_space(c),
{
    let u = c as u32;
    (0x9 <= u && u <= 0xd) || u == 0x20 || u == 0x85 || u == 0xa0 || u == 0x1680 || (0x2000 <= u && u <= 0x200a)
        || u == 0x2028 || u == 0x2029 || u == 0x202f || u == 0x205f || u == 0x3000
}

/// `s` without its leading and trailing whitespace, as `str::trim` gives it.
pub fn trim(s: &str) -> (r: &str)
    ensures
        r@ == spec_trim(s@),
{
    let n = s.unicode_len();
    let mut i: usize = 0;
    loop
        invariant
            n == s@.len(),
            i <= n,
            forall|k: int| 0 <= k < i ==> is_white_space(#[trigger] s@[k]),
        ensures
            i <= n,
            forall|k: int| 0 <= k < i ==> is_white_space(#[trigger] s@[k]),
            i == n || !is_white_space(s@[i as int]),
        decreases n - i,
    {
        if i == n {
            break;
        }
        if !is_whitespace(s.get_char(i)) {
            break;
        }
        i = i + 1;
    }
    proof {
        lemma_leading_ws(s@, i as int);
    }
    if i == n {
        return s.substring_char(n, n);
    }
    let mut j: usize = n;
    loop
        invariant
            n == s@.len(),
            i < j <= n,
            !is_white_space(s@[i as int]),
            forall|k: int| j <= k < n ==> is_white_space(#[trigger] s@[k]),
        ensures
            i < j <= n,
            forall|k: int| j <= k < n ==> is_white_space(#[trigger] s@[k]),
            !is_white_space(s@[j - 1]),
        decreases j,
    {
        if !is_whitespace(s.get_char(j - 1)) {
            break;
        }
        j = j - 1;
    }
    proof {
        lemma_trailing_ws(s@, j as int);
    }
    s.substring_char(i, j)
}

/// Whether `s` starts with `prefix`.
pub fn starts_with(s: &str, prefix: &str) -> (r: bool)
    ensures
        r == (prefix@.len() <= s@.len() && s@.subrange(0, prefix@.len() as int) == prefix@),
{
    let n = s.unicode_len();
    let m = prefix.unicode_len();
    if m > n {
        return false;
    }
    let mut i: usize = 0;
    while i < m
        invariant
            n == s@.len(),
            m == prefix@.len(),
            m <= n,
            i <= m,
            forall|k: int| 0 <= k < i ==> s@[k] == prefix@[k],
        decreases m - i,
    {
        if s.get_char(i) != prefix.get_char(i) {
            proof {
                assert(s@.subrange(0, m as int)[i as int] != prefix@[i as int]);
            }
            return false;
        }
        i = i + 1;
    }
    proof {
        assert(s@.subrange(0, m as int) =~= prefix@);
    }
    true
}

/// `s` without `prefix`, when it starts with it: `str::strip_prefix`.
pub fn strip_prefix<'a>(s: &'a str, prefix: &str) -> (r: Option<&'a str>)
    ensures
        r is Some <==> (prefix@.len() <= s@.len() && s@.subrange(0, prefix@.len() as int) == prefix@),
        r matches Some(rest) ==> rest@ == s@.subrange(prefix@.len() as int, s@.len() as int),
{
    if starts_with(s, prefix) {
        let n = s.unicode_len();
        let m = prefix.unicode_len();
        Some(s.substring_char(m, n))
    } else {
        None
    }
}

/// Whether `s` has the same characters as `t`.
pub fn same_text(s: &str, t: &str) -> (r: bool)
    ensures
        r == (s@ == t@),
{
    let n = s.unicode_len();
    if n != t.unicode_len() {
        return false;
    }
    let mut i: usize = 0;
    while i < n
        invariant
            n == s@.len(),
            n == t@.len(),
            i <= n,
            forall|k: int| 0 <= k < i ==> s@[k] == t@[k],
        decreases n - i,
    {
        if s.get_char(i) != t.get_char(i) {
            return false;
        }
        i = i + 1;
    }
    proof {
        assert(s@ =~= t@);
    }
    true
}

/// Whether `s` takes fewer than `limit` bytes in UTF-8 (`s.len() < limit`).
pub fn utf8_len_below(s: &str, limit: usize) -> (r: bool)
    ensures
        r == (utf8_len(s@) < limit),
{
    if limit == 0 {
        return false;
    }
    let n = s.unicode_len();
    let mut total: usize = 0;
    let mut i: usize = 0;
    while i < n
        invariant
            n == s@.len(),
            i <= n,
            total == utf8_len(s@.subrange(0, i as int)),
            total < limit,
        decreases n - i,
    {
        let c = s.get_char(i);
        let u = c as u32;
        let w: usize = if u < 0x80 {
            1
        } else if u < 0x800 {
            2
        } else if u < 0x10000 {
            3
        } else {
            4
        };
        proof {
            assert(s@.subrange(0, i as int + 1).drop_last() =~= s@.subrange(0, i as int));
            assert(s@.subrange(0, i as int + 1).last() == c);
        }
        if w >= limit - total {
            proof {
                lemma_utf8_len_prefix_monotone(s@, i as int + 1);
            }
            return false;
        }
        total = total + w;
        i = i + 1;
    }
    proof {
        assert(s@.subrange(0, n as int) =~= s@);
    }
    true
}

/// A prefix never takes more bytes than the whole text.
pub proof fn lemma_utf8_len_prefix_monotone(s: Seq<char>, i: int)
    requires
        0 <= i <= s.len(),
    ensures
        utf8_len(s.subrange(0, i)) <= utf8_len(s),
    decreases s.len() - i,
{
    if i < s.len() {
        lemma_utf8_len_prefix_monotone(s, i + 1);
        assert(s.subrange(0, i + 1).drop_last() =~= s.subrange(0, i));
    } else {
        assert(s.subrange(0, i) =~= s);
    }
}

/// `c` in ASCII lowercase: `A`..=`Z` become `a`..=`z`, every other character stays.
pub open spec fn ascii_lower(c: char) -> char {
    if 0x41 <= c as u32 <= 0x5a {
        ((c as u32) + 32) as char
    } else {
        c
    }
}

/// `s` with every character in ASCII lowercase.
pub open spec fn ascii_lowercase(s: Seq<char>) -> Seq<char> {
    s.map_values(|c: char| ascii_lower(c))
}

/// The lowercase ASCII letters, in order.
pub const LOWERCASE_LETTERS: &'static str = "abcdefghijklmnopqrstuvwxyz";

/// `s` in ASCII lowercase: `A`..=`Z` become `a`..=`z`, every other character stays (what
/// `str::to_ascii_lowercase` does).
pub fn to_ascii_lowercase(s: &str) -> (r: String)
    ensures
        r@ == ascii_lowercase(s@),
{
    let letters = LOWERCASE_LETTERS;
    proof {
        reveal_strlit("abcdefghijklmnopqrstuvwxyz");
        assert(letters@ =~= seq!['a', 'b', 'c', 'd', 'e', 'f', 'g', 'h', 'i', 'j', 'k', 'l', 'm', 'n', 'o', 'p', 'q',
            'r', 's', 't', 'u', 'v', 'w', 'x', 'y', 'z']);
        assert(forall|k: int| 0 <= k < 26 ==> (#[trigger] letters@[k]) as u32 == 0x61 + k);
    }
    let n = s.unicode_len();
    let mut out = String::new();
    let mut i: usize = 0;
    while i < n
        invariant
            n == s@.len(),
            i <= n,
            letters@.len() == 26,
            forall|k: int| 0 <= k < 26 ==> (#[trigger] letters@[k]) as u32 == 0x61 + k,
            out@ == ascii_lowercase(s@.subrange(0, i as int)),
        decreases n - i,
    {
        let c = s.get_char(i);
        let u = c as u32;
        let ghost before = out@;
        if 0x41 <= u && u <= 0x5a {
            let k = (u - 0x41) as usize;
            out.append(letters.substring_char(k, k + 1));
            proof {
                assert(letters@.subrange(k as int, k as int + 1) =~= seq![letters@[k as int]]);
                let x = letters@[k as int];
                assert(x as u32 == u + 32);
                assert(((c as u32) + 32) as char == (x as u32) as char);
                vstd::utf8::char_u32_cast(x, x as u32);
                assert(x == ascii_lower(c));
            }
        } else {
            out.append(s.substring_char(i, i + 1));
            proof {
                assert(s@.subrange(i as int, i as int + 1) =~= seq![c]);
            }
        }
        proof {
            assert(s@.subrange(0, i as int + 1) =~= s@.subrange(0, i as int).push(c));
            assert(ascii_lowercase(s@.subrange(0, i as int).push(c)) =~= before.push(ascii_lower(c)));
            assert(out@ =~= before.push(ascii_lower(c)));
        }
        i = i + 1;
    }
    proof {
        assert(s@.subrange(0, n as int) =~= s@);
    }
    out
}

/// Whether `sep` occurs in `t` at position `i`.
pub open spec fn occurs_at(t: Seq<char>, sep: Seq<char>, i: int) -> bool {
    0 <= i && i + sep.len() <= t.len() && t.subrange(i, i + sep.len()) == sep
}

/// Position of the first occurrence of `sep` in `t`, or -1.
pub open spec fn first_occurrence(t: Seq<char>, sep: Seq<char>) -> int
    decreases t.len(),
{
    if t.len() == 0 || t.len() < sep.len() {
        -1
    } else if occurs_at(t, sep, 0) {
        0
    } else {
        let r = first_occurrence(t.drop_first(), sep);
        if r < 0 {
            -1
        } else {
            r + 1
        }
    }
}

/// `first_occurrence` is the first position where `sep` occurs.
pub proof fn lemma_first_occurrence(t: Seq<char>, sep: Seq<char>)
    requires
        sep.len() > 0,
    ensures
        first_occurrence(t, sep) >= 0 ==> occurs_at(t, sep, first_occurrence(t, sep)),
        forall|j: int| 0 <= j && (first_occurrence(t, sep) < 0 || j < first_occurrence(t, sep)) ==> !occurs_at(t, sep, j),
    decreases t.len(),
{
    if t.len() >= sep.len() && !occurs_at(t, sep, 0) {
        let d = t.drop_first();
        lemma_first_occurrence(d, sep);
        assert forall|j: int| 0 <= j && j + 1 + sep.len() <= t.len() implies #[trigger] d.subrange(j, j + sep.len())
            == t.subrange(j + 1, j + 1 + sep.len()) by {
            assert forall|q: int| 0 <= q < sep.len() implies #[trigger] d.subrange(j, j + sep.len())[q] == t.subrange(
                j + 1,
                j + 1 + sep.len(),
            )[q] by {
                assert(d[j + q] == t[j + q + 1]);
            }
            assert(d.subrange(j, j + sep.len()) =~= t.subrange(j + 1, j + 1 + sep.len()));
        }
        assert forall|j: int| 0 <= j && (first_occurrence(t, sep) < 0 || j < first_occurrence(t, sep)) implies !occurs_at(
            t,
            sep,
            j,
        ) by {
            if j > 0 && occurs_at(t, sep, j) {
                assert(d.subrange(j - 1, j - 1 + sep.len()) == t.subrange(j, j + sep.len()));
                assert(occurs_at(d, sep, j - 1));
            }
        }
    } else if t.len() < sep.len() {
        assert forall|j: int| 0 <= j implies !occurs_at(t, sep, j) by {}
    }
}

/// The first position where `sep` occurs is `p` when it occurs there and nowhere before.
pub proof fn lemma_first_occurrence_is(t: Seq<char>, sep: Seq<char>, p: int)
    requires
        sep.len() > 0,
        p == -1 || occurs_at(t, sep, p),
        forall|j: int| 0 <= j && (p < 0 || j < p) ==> !#[trigger] occurs_at(t, sep, j),
    ensures
        first_occurrence(t, sep) == p,
{
    lemma_first_occurrence(t, sep);
    let f = first_occurrence(t, sep);
    if f >= 0 && p >= 0 {
        assert(!(f < p)) by {
            if f < p {
                assert(!occurs_at(t, sep, f));
            }
        }
    }
}

/// The pieces of `t` between the occurrences of `sep`, left to right (what `str::split`
/// gives for a non-empty separator); just `t` for an empty one.
pub open spec fn spec_split(t: Seq<char>, sep: Seq<char>) -> Seq<Seq<char>>
    decreases t.len(),
{
    if sep.len() == 0 {
        seq![t]
    } else {
        let p = first_occurrence(t, sep);
        if p < 0 {
            seq![t]
        } else {
            proof {
                lemma_first_occurrence(t, sep);
            }
            seq![t.take(p)] + spec_split(t.skip(p + sep.len()), sep)
        }
    }
}

/// Whether `sep` occurs in `s` at position `i`.
fn occurs_at_exec(s: &str, sep: &str, n: usize, m: usize, i: usize) -> (r: bool)
    requires
        n == s@.len(),
        m == sep@.len(),
        i <= n,
    ensures
        r == occurs_at(s@, sep@, i as int),
{
    if n - i < m {
        return false;
    }
    let mut k: usize = 0;
    while k < m
        invariant
            k <= m,
            m == sep@.len(),
            n == s@.len(),
            i + m <= n,
            forall|q: int| 0 <= q < k ==> s@[i + q] == sep@[q],
        decreases m - k,
    {
        if s.get_char(i + k) != sep.get_char(k) {
            proof {
                assert(s@.subrange(i as int, i + m)[k as int] != sep@[k as int]);
            }
            return false;
        }
        k = k + 1;
    }
    proof {
        assert(s@.subrange(i as int, i + m) =~= sep@);
    }
    true
}

/// The pieces of `s` between the occurrences of the non-empty separator `sep`, left to
/// right.
pub fn split_by(s: &str, sep: &str) -> (r: Vec<String>)
    requires
        sep@.len() > 0,
    ensures
        r@.map_values(|x: String| x@) == spec_split(s@, sep@),
{
    let n = s.unicode_len();
    let m = sep.unicode_len();
    let mut out: Vec<String> = Vec::new();
    let mut start: usize = 0;
    let mut i: usize = 0;
    proof {
        assert(s@.skip(0) =~= s@);
        assert(out@.map_values(|x: String| x@) =~= Seq::<Seq<char>>::empty());
    }
    while i < n
        invariant
            n == s@.len(),
            m == sep@.len(),
            m > 0,
            start <= i <= n,
            out@.map_values(|x: String| x@) + spec_split(s@.skip(start as int), sep@) == spec_split(s@, sep@),
            forall|j: int| start <= j < i ==> !#[trigger] occurs_at(s@, sep@, j),
        decreases n - i,
    {
        let ghost t = s@.skip(start as int);
        if occurs_at_exec(s, sep, n, m, i) {
            let piece = s.substring_char(start, i).to_string();
            proof {
                let p = i - start;
                assert(occurs_at(t, sep@, p)) by {
                    assert(t.subrange(p, p + m) =~= s@.subrange(i as int, i + m));
                }
                assert forall|j: int| 0 <= j && j < p implies !#[trigger] occurs_at(t, sep@, j) by {
                    assert(t.subrange(j, j + m) =~= s@.subrange(start + j, start + j + m));
                    assert(!occurs_at(s@, sep@, start + j));
                }
                lemma_first_occurrence_is(t, sep@, p as int);
                assert(t.take(p as int) =~= piece@);
                assert(t.skip(p + m) =~= s@.skip(i + m));
                assert(spec_split(t, sep@) == seq![t.take(p as int)] + spec_split(t.skip(p + m), sep@));
            }
            let ghost before = out@;
            out.push(piece);
            proof {
                assert(out@.map_values(|x: String| x@) =~= before.map_values(|x: String| x@).push(piece@));
                assert(out@.map_values(|x: String| x@) + spec_split(s@.skip(i + m), sep@) =~= before.map_values(
                    |x: String| x@,
                ) + (seq![piece@] + spec_split(s@.skip(i + m), sep@)));
            }
            start = i + m;
            i = i + m;
        } else {
            i = i + 1;
        }
    }
    let last = s.substring_char(start, n).to_string();
    proof {
        let t = s@.skip(start as int);
        assert forall|j: int| 0 <= j implies !#[trigger] occurs_at(t, sep@, j) by {
            if j + m <= t.len() {
                assert(t.subrange(j, j + m) =~= s@.subrange(start + j, start + j + m));
                assert(!occurs_at(s@, sep@, start + j));
            }
        }
        lemma_first_occurrence_is(t, sep@, -1);
        assert(last@ =~= t);
    }
    let ghost before = out@;
    out.push(last);
    proof {
        assert(out@.map_values(|x: String| x@) =~= before.map_values(|x: String| x@).push(last@));
    }
    out
}

} // verus!
