//! Character classes and small text utilities shared by the annotation
//! parser, the coercion cascade and the URL scanner.
//!
//! All classification is over ASCII: keys, section markers and numbers in the
//! annotation syntax are ASCII words, and case folding here touches ASCII
//! letters only.

use vstd::prelude::*;

verus! {

/// ASCII whitespace, the class tolerated around annotation tokens.
pub open spec fn is_ws(c: char) -> bool {
    c == ' ' || c == '\t' || c == '\r' || c == '\x0b' || c == '\x0c' || c == '\n'
}

/// A word character: ASCII letter, digit or underscore.
pub open spec fn is_word(c: char) -> bool {
    ('a' <= c && c <= 'z') || ('A' <= c && c <= 'Z') || ('0' <= c && c <= '9') || c == '_'
}

/// An ASCII decimal digit.
pub open spec fn is_digit(c: char) -> bool {
    '0' <= c && c <= '9'
}

/// An ASCII hexadecimal digit, either case.
pub open spec fn is_hex_digit(c: char) -> bool {
    is_digit(c) || ('a' <= c && c <= 'f') || ('A' <= c && c <= 'F')
}

/// The numeric value of a decimal digit.
pub open spec fn digit_val(c: char) -> int
    recommends
        is_digit(c),
{
    (c as u32) - ('0' as u32)
}

/// The numeric value of a hexadecimal digit.
pub open spec fn hex_val(c: char) -> int
    recommends
        is_hex_digit(c),
{
    if is_digit(c) {
        digit_val(c)
    } else if 'a' <= c && c <= 'f' {
        (c as u32) - ('a' as u32) + 10
    } else {
        (c as u32) - ('A' as u32) + 10
    }
}

/// ASCII lower-casing of one character; everything else passes through.
pub open spec fn lower_char(c: char) -> char {
    if 'A' <= c && c <= 'Z' {
        (((c as u32) + 32) as u8) as char
    } else {
        c
    }
}

/// ASCII upper-casing of one character; everything else passes through.
pub open spec fn upper_char(c: char) -> char {
    if 'a' <= c && c <= 'z' {
        (((c as u32) - 32) as u8) as char
    } else {
        c
    }
}

/// ASCII lower-casing of a whole sequence.
pub open spec fn lower_seq(s: Seq<char>) -> Seq<char> {
    Seq::new(s.len(), |i: int| lower_char(s[i]))
}

/// ASCII upper-casing of a whole sequence.
pub open spec fn upper_seq(s: Seq<char>) -> Seq<char> {
    Seq::new(s.len(), |i: int| upper_char(s[i]))
}

/// The position of the first occurrence of a character, or the length when
/// the character does not occur.
pub open spec fn find_char(s: Seq<char>, c: char) -> int
    decreases s.len(),
{
    if s.len() == 0 {
        0
    } else if s[0] == c {
        0
    } else {
        1 + find_char(s.drop_first(), c)
    }
}

/// Characterization of `find_char`: the position before which the character
/// is absent, and at which it stands unless the sequence is exhausted.
pub proof fn lemma_find_char_is(s: Seq<char>, c: char, i: int)
    requires
        0 <= i <= s.len(),
        forall|j: int| 0 <= j < i ==> s[j] != c,
        i == s.len() || s[i] == c,
    ensures
        find_char(s, c) == i,
    decreases i,
{
    if i == 0 {
    } else {
        lemma_find_char_is(s.drop_first(), c, i - 1);
    }
}

/// The sequence without its leading whitespace.
pub open spec fn ltrim(s: Seq<char>) -> Seq<char>
    decreases s.len(),
{
    if s.len() > 0 && is_ws(s[0]) {
        ltrim(s.drop_first())
    } else {
        s
    }
}

/// The sequence without its trailing whitespace.
pub open spec fn rtrim(s: Seq<char>) -> Seq<char>
    decreases s.len(),
{
    if s.len() > 0 && is_ws(s[s.len() - 1]) {
        rtrim(s.drop_last())
    } else {
        s
    }
}

/// The sequence without leading and trailing whitespace.
pub open spec fn trim(s: Seq<char>) -> Seq<char> {
    ltrim(rtrim(s))
}

/// `ltrim` drops exactly the whitespace prefix: if everything before `k` is
/// whitespace and position `k` (where it exists) is not, the trimmed sequence
/// is the suffix from `k`.
pub proof fn lemma_ltrim_skip(s: Seq<char>, k: int)
    requires
        0 <= k <= s.len(),
        forall|j: int| 0 <= j < k ==> is_ws(#[trigger] s[j]),
        k == s.len() || !is_ws(s[k]),
    ensures
        ltrim(s) == s.skip(k),
    decreases k,
{
    if k == 0 {
        assert(s.skip(0) == s);
    } else {
        assert(is_ws(s[0]));
        lemma_ltrim_skip(s.drop_first(), k - 1);
        assert(s.drop_first().skip(k - 1) == s.skip(k));
    }
}

/// `rtrim` drops exactly the whitespace suffix: if everything from `k` on is
/// whitespace and position `k - 1` (where it exists) is not, the trimmed
/// sequence is the prefix up to `k`.
pub proof fn lemma_rtrim_take(s: Seq<char>, k: int)
    requires
        0 <= k <= s.len(),
        forall|j: int| k <= j < s.len() ==> is_ws(#[trigger] s[j]),
        k == 0 || !is_ws(s[k - 1]),
    ensures
        rtrim(s) == s.take(k),
    decreases s.len() - k,
{
    if k == s.len() {
        assert(s.take(k) == s);
    } else {
        assert(is_ws(s[s.len() - 1]));
        lemma_rtrim_take(s.drop_last(), k);
        assert(s.drop_last().take(k) == s.take(k));
    }
}

/// Relies on `String::push`: appends exactly the given character.
#[verifier::external_body]
pub(crate) fn push_char(s: &mut String, c: char)
    ensures
        final(s)@ == old(s)@.push(c),
{
    s.push(c);
}

/// Copies a string slice into a vector of its characters.
pub fn to_chars(s: &str) -> (r: Vec<char>)
    ensures
        r@ == s@,
{
    let n = s.unicode_len();
    let mut r: Vec<char> = Vec::new();
    let mut i: usize = 0;
    while i < n
        invariant
            n == s@.len(),
            i <= n,
            r@ == s@.take(i as int),
        decreases n - i,
    {
        r.push(s.get_char(i));
        i = i + 1;
        proof {
            assert(s@.take(i as int) == s@.take(i - 1).push(s@[i - 1]));
        }
    }
    proof {
        assert(s@.take(n as int) == s@);
    }
    r
}

/// Builds a string from a sequence of characters.
pub fn chars_to_string(v: &[char]) -> (r: String)
    ensures
        r@ == v@,
{
    let mut r = String::new();
    let mut i: usize = 0;
    while i < v.len()
        invariant
            i <= v@.len(),
            r@ == v@.take(i as int),
        decreases v@.len() - i,
    {
        push_char(&mut r, v[i]);
        i = i + 1;
        proof {
            assert(v@.take(i as int) == v@.take(i - 1).push(v@[i - 1]));
        }
    }
    proof {
        assert(v@.take(v@.len() as int) == v@);
    }
    r
}

/// Compares two string slices character by character.
pub fn str_eq(a: &str, b: &str) -> (r: bool)
    ensures
        r == (a@ == b@),
{
    let na = a.unicode_len();
    let nb = b.unicode_len();
    if na != nb {
        proof {
            assert(a@ != b@) by {
                assert(a@.len() != b@.len());
            }
        }
        return false;
    }
    let mut i: usize = 0;
    while i < na
        invariant
            na == a@.len(),
            na == b@.len(),
            i <= na,
            forall|j: int| 0 <= j < i ==> a@[j] == b@[j],
        decreases na - i,
    {
        if a.get_char(i) != b.get_char(i) {
            return false;
        }
        i = i + 1;
    }
    proof {
        assert(a@ =~= b@);
    }
    true
}

/// Compares a character vector with a literal pattern.
pub fn chars_eq(v: &[char], lit: &[char]) -> (r: bool)
    ensures
        r == (v@ == lit@),
{
    if v.len() != lit.len() {
        proof {
            assert(v@ != lit@) by {
                assert(v@.len() != lit@.len());
            }
        }
        return false;
    }
    let mut i: usize = 0;
    while i < v.len()
        invariant
            v@.len() == lit@.len(),
            i <= v@.len(),
            forall|j: int| 0 <= j < i ==> v@[j] == lit@[j],
        decreases v@.len() - i,
    {
        if v[i] != lit[i] {
            return false;
        }
        i = i + 1;
    }
    proof {
        assert(v@ =~= lit@);
    }
    true
}

/// Classifies one character as ASCII whitespace.
pub fn ws_char(c: char) -> (r: bool)
    ensures
        r == is_ws(c),
{
    c == ' ' || c == '\t' || c == '\r' || c == '\x0b' || c == '\x0c' || c == '\n'
}

/// Classifies one character as a word character.
pub fn word_char(c: char) -> (r: bool)
    ensures
        r == is_word(c),
{
    ('a' <= c && c <= 'z') || ('A' <= c && c <= 'Z') || ('0' <= c && c <= '9') || c == '_'
}

/// ASCII lower-casing of one character, executable form.
pub fn lower_char_exec(c: char) -> (r: char)
    ensures
        r == lower_char(c),
{
    if 'A' <= c && c <= 'Z' {
        (((c as u32) + 32) as u8) as char
    } else {
        c
    }
}

/// ASCII upper-casing of one character, executable form.
pub fn upper_char_exec(c: char) -> (r: char)
    ensures
        r == upper_char(c),
{
    if 'a' <= c && c <= 'z' {
        (((c as u32) - 32) as u8) as char
    } else {
        c
    }
}

/// Trims ASCII whitespace from both ends of a character vector.
pub fn trim_chars(v: &[char]) -> (r: Vec<char>)
    ensures
        r@ == trim(v@),
{
    let n = v.len();
    let mut hi: usize = n;
    while hi > 0 && ws_char(v[hi - 1])
        invariant
            hi <= n,
            n == v@.len(),
            forall|j: int| hi <= j < n ==> is_ws(#[trigger] v@[j]),
        decreases hi,
    {
        hi = hi - 1;
    }
    proof {
        lemma_rtrim_take(v@, hi as int);
    }
    let mut lo: usize = 0;
    while lo < hi && ws_char(v[lo])
        invariant
            lo <= hi <= n,
            n == v@.len(),
            forall|j: int| 0 <= j < lo ==> is_ws(#[trigger] v@[j]),
        decreases hi - lo,
    {
        lo = lo + 1;
    }
    proof {
        lemma_ltrim_skip(v@.take(hi as int), lo as int);
    }
    let mut r: Vec<char> = Vec::new();
    let mut i: usize = lo;
    while i < hi
        invariant
            lo <= i <= hi <= n,
            n == v@.len(),
            r@ == v@.subrange(lo as int, i as int),
        decreases hi - i,
    {
        r.push(v[i]);
        i = i + 1;
        proof {
            assert(v@.subrange(lo as int, i as int) == v@.subrange(lo as int, i - 1).push(
                v@[i - 1],
            ));
        }
    }
    proof {
        assert(r@ == v@.take(hi as int).skip(lo as int));
    }
    r
}

/// ASCII lower-casing of a string, as a fresh string.
pub fn lower_str(s: &str) -> (r: String)
    ensures
        r@ == lower_seq(s@),
{
    let n = s.unicode_len();
    let mut r = String::new();
    let mut i: usize = 0;
    while i < n
        invariant
            n == s@.len(),
            i <= n,
            r@ == lower_seq(s@).take(i as int),
        decreases n - i,
    {
        push_char(&mut r, lower_char_exec(s.get_char(i)));
        i = i + 1;
        proof {
            assert(lower_seq(s@).take(i as int) == lower_seq(s@).take(i - 1).push(
                lower_seq(s@)[i - 1],
            ));
        }
    }
    proof {
        assert(lower_seq(s@).take(n as int) == lower_seq(s@));
    }
    r
}

} // verus!
