//! The cache blob codec: a versionless binary encoding of the cache, written
//! before compression and read after decompression.
//!
//! Every quantity is a little-endian 64-bit word: integers directly,
//! characters by code point, option tags as zero or one, lengths before
//! their items. Decoding an encoding yields the encoded value back, with
//! nothing left over — the round-trip lemmas beside each pair of functions.

use vstd::prelude::*;

use crate::chars::chars_to_string;
use vstd::slice::slice_subrange;

verus! {

/// The little-endian bytes of a 64-bit word.
pub open spec fn spec_enc_u64(v: u64) -> Seq<u8> {
    seq![
        (v & 0xFF) as u8,
        ((v >> 8) & 0xFF) as u8,
        ((v >> 16) & 0xFF) as u8,
        ((v >> 24) & 0xFF) as u8,
        ((v >> 32) & 0xFF) as u8,
        ((v >> 40) & 0xFF) as u8,
        ((v >> 48) & 0xFF) as u8,
        ((v >> 56) & 0xFF) as u8,
    ]
}

/// Reading a 64-bit word back from the front of a byte sequence.
pub open spec fn spec_dec_u64(b: Seq<u8>) -> Option<(u64, Seq<u8>)> {
    if b.len() < 8 {
        None
    } else {
        let v = (b[0] as u64) | ((b[1] as u64) << 8) | ((b[2] as u64) << 16) | ((b[3] as u64)
            << 24) | ((b[4] as u64) << 32) | ((b[5] as u64) << 40) | ((b[6] as u64) << 48) | ((
        b[7] as u64) << 56);
        Some((v, b.skip(8)))
    }
}

/// A word survives the trip through its bytes.
pub proof fn lemma_u64_round_trip(v: u64, rest: Seq<u8>)
    ensures
        spec_dec_u64(spec_enc_u64(v) + rest) == Some((v, rest)),
{
    let b = spec_enc_u64(v) + rest;
    assert(b.len() >= 8);
    assert(b[0] == (v & 0xFF) as u8);
    assert(b[1] == ((v >> 8) & 0xFF) as u8);
    assert(b[2] == ((v >> 16) & 0xFF) as u8);
    assert(b[3] == ((v >> 24) & 0xFF) as u8);
    assert(b[4] == ((v >> 32) & 0xFF) as u8);
    assert(b[5] == ((v >> 40) & 0xFF) as u8);
    assert(b[6] == ((v >> 48) & 0xFF) as u8);
    assert(b[7] == ((v >> 56) & 0xFF) as u8);
    assert((((v & 0xFF) as u8) as u64) | ((((v >> 8) & 0xFF) as u8) as u64) << 8 | ((((v >> 16)
        & 0xFF) as u8) as u64) << 16 | ((((v >> 24) & 0xFF) as u8) as u64) << 24 | ((((v >> 32)
        & 0xFF) as u8) as u64) << 32 | ((((v >> 40) & 0xFF) as u8) as u64) << 40 | ((((v >> 48)
        & 0xFF) as u8) as u64) << 48 | ((((v >> 56) & 0xFF) as u8) as u64) << 56 == v)
        by (bit_vector);
    assert(b.skip(8) =~= rest);
}

/// Appends the bytes of one word.
pub fn enc_u64(out: &mut Vec<u8>, v: u64)
    ensures
        final(out)@ == old(out)@ + spec_enc_u64(v),
{
    out.push((v & 0xFF) as u8);
    out.push(((v >> 8) & 0xFF) as u8);
    out.push(((v >> 16) & 0xFF) as u8);
    out.push(((v >> 24) & 0xFF) as u8);
    out.push(((v >> 32) & 0xFF) as u8);
    out.push(((v >> 40) & 0xFF) as u8);
    out.push(((v >> 48) & 0xFF) as u8);
    out.push(((v >> 56) & 0xFF) as u8);
    proof {
        assert(final(out)@ =~= old(out)@ + spec_enc_u64(v));
    }
}

/// Reads one word off the front.
pub fn dec_u64(b: &[u8]) -> (r: Option<(u64, &[u8])>)
    ensures
        match r {
            Some(p) => spec_dec_u64(b@) == Some((p.0, p.1@)),
            None => spec_dec_u64(b@) is None,
        },
{
    if b.len() < 8 {
        return None;
    }
    let v = (b[0] as u64) | ((b[1] as u64) << 8) | ((b[2] as u64) << 16) | ((b[3] as u64) << 24) | (
    (b[4] as u64) << 32) | ((b[5] as u64) << 40) | ((b[6] as u64) << 48) | ((b[7] as u64) << 56);
    let rest = slice_subrange(b, 8, b.len());
    Some((v, rest))
}

/// Relies on `char::from_u32`: a Unicode scalar value yields its character,
/// anything else yields nothing.
#[verifier::external_body]
fn char_from_u32(x: u32) -> (r: Option<char>)
    ensures
        r == (if vstd::utf8::is_scalar(x) {
            Some(x as char)
        } else {
            None::<char>
        }),
{
    char::from_u32(x)
}

/// A character encodes as its code point.
pub open spec fn spec_enc_char(c: char) -> Seq<u8> {
    spec_enc_u64(c as u64)
}

/// Reading a character back: the word must be a Unicode scalar value.
pub open spec fn spec_dec_char(b: Seq<u8>) -> Option<(char, Seq<u8>)> {
    match spec_dec_u64(b) {
        Some((v, r)) => if v <= 0xFFFF_FFFFu64 && vstd::utf8::is_scalar(v as u32) {
            Some(((v as u32) as char, r))
        } else {
            None
        },
        None => None,
    }
}

/// A character survives the trip.
pub proof fn lemma_char_round_trip(c: char, rest: Seq<u8>)
    ensures
        spec_dec_char(spec_enc_char(c) + rest) == Some((c, rest)),
{
    lemma_u64_round_trip(c as u64, rest);
    vstd::utf8::char_is_scalar(c);
    assert(c as u64 <= 0xFFFF_FFFFu64) by {
        assert(vstd::utf8::is_scalar(c as u32));
    }
    assert((c as u64) as u32 == c as u32);
    vstd::utf8::char_u32_cast(c, c as u32);
}

/// Appends one character.
fn enc_char(out: &mut Vec<u8>, c: char)
    ensures
        final(out)@ == old(out)@ + spec_enc_char(c),
{
    enc_u64(out, c as u64);
}

/// Reads one character off the front.
fn dec_char(b: &[u8]) -> (r: Option<(char, &[u8])>)
    ensures
        match r {
            Some(p) => spec_dec_char(b@) == Some((p.0, p.1@)),
            None => spec_dec_char(b@) is None,
        },
{
    match dec_u64(b) {
        Some((v, rest)) => {
            if v <= 0xFFFF_FFFF {
                match char_from_u32(v as u32) {
                    Some(c) => Some((c, rest)),
                    None => None,
                }
            } else {
                None
            }
        },
        None => None,
    }
}

/// A character list encodes front to back.
pub open spec fn spec_enc_chars(s: Seq<char>) -> Seq<u8>
    decreases s.len(),
{
    if s.len() == 0 {
        Seq::<u8>::empty()
    } else {
        spec_enc_char(s[0]) + spec_enc_chars(s.drop_first())
    }
}

/// Reading a counted character list back.
pub open spec fn spec_dec_chars(b: Seq<u8>, n: int) -> Option<(Seq<char>, Seq<u8>)>
    decreases n,
{
    if n <= 0 {
        Some((Seq::<char>::empty(), b))
    } else {
        match spec_dec_char(b) {
            Some((c, r)) => match spec_dec_chars(r, n - 1) {
                Some((s, r2)) => Some((seq![c] + s, r2)),
                None => None,
            },
            None => None,
        }
    }
}

/// A character list survives the trip.
pub proof fn lemma_chars_round_trip(s: Seq<char>, rest: Seq<u8>)
    ensures
        spec_dec_chars(spec_enc_chars(s) + rest, s.len() as int) == Some((s, rest)),
    decreases s.len(),
{
    if s.len() == 0 {
        assert(spec_enc_chars(s) + rest =~= rest);
        assert(s =~= Seq::<char>::empty());
    } else {
        lemma_chars_round_trip(s.drop_first(), rest);
        assert(spec_enc_chars(s) + rest =~= spec_enc_char(s[0]) + (spec_enc_chars(s.drop_first())
            + rest));
        lemma_char_round_trip(s[0], spec_enc_chars(s.drop_first()) + rest);
        assert(seq![s[0]] + s.drop_first() =~= s);
    }
}

/// Appends every character of a list.
fn enc_chars(out: &mut Vec<u8>, s: &[char])
    ensures
        final(out)@ == old(out)@ + spec_enc_chars(s@),
    decreases s@.len(),
{
    if s.len() > 0 {
        enc_char(out, s[0]);
        let tail = slice_subrange(s, 1, s.len());
        proof {
            assert(tail@ =~= s@.drop_first());
        }
        enc_chars(out, tail);
        proof {
            assert(final(out)@ =~= old(out)@ + spec_enc_chars(s@));
        }
    } else {
        proof {
            assert(old(out)@ + spec_enc_chars(s@) =~= old(out)@);
        }
    }
}

/// Reads a counted character list off the front.
fn dec_chars(b: &[u8], n: u64) -> (r: Option<(Vec<char>, &[u8])>)
    ensures
        match r {
            Some(p) => spec_dec_chars(b@, n as int) == Some((p.0@, p.1@)),
            None => spec_dec_chars(b@, n as int) is None,
        },
    decreases n,
{
    if n == 0 {
        let v: Vec<char> = Vec::new();
        proof {
            assert(v@ =~= Seq::<char>::empty());
        }
        return Some((v, b));
    }
    match dec_char(b) {
        Some((c, rest)) => match dec_chars(rest, n - 1) {
            Some((s, rest2)) => {
                let mut s = s;
                s.insert(0, c);
                proof {
                    assert(s@ =~= seq![c] + s@.drop_first());
                }
                Some((s, rest2))
            },
            None => None,
        },
        None => None,
    }
}

/// A string encodes as its length, then its characters.
pub open spec fn spec_enc_str(s: Seq<char>) -> Seq<u8> {
    spec_enc_u64(s.len() as u64) + spec_enc_chars(s)
}

/// Reading a string back.
pub open spec fn spec_dec_str(b: Seq<u8>) -> Option<(Seq<char>, Seq<u8>)> {
    match spec_dec_u64(b) {
        Some((n, r)) => spec_dec_chars(r, n as int),
        None => None,
    }
}

/// A string survives the trip, as long as its length fits a 64-bit word.
pub proof fn lemma_str_round_trip(s: Seq<char>, rest: Seq<u8>)
    requires
        s.len() <= 0xFFFF_FFFF_FFFF_FFFFu64,
    ensures
        spec_dec_str(spec_enc_str(s) + rest) == Some((s, rest)),
{
    assert(spec_enc_str(s) + rest =~= spec_enc_u64(s.len() as u64) + (spec_enc_chars(s) + rest));
    lemma_u64_round_trip(s.len() as u64, spec_enc_chars(s) + rest);
    lemma_chars_round_trip(s, rest);
}

/// Appends one string.
pub(crate) fn enc_str(out: &mut Vec<u8>, s: &str)
    ensures
        final(out)@ == old(out)@ + spec_enc_str(s@),
{
    let chars = crate::chars::to_chars(s);
    enc_u64(out, chars.len() as u64);
    enc_chars(out, chars.as_slice());
    proof {
        assert(final(out)@ =~= old(out)@ + spec_enc_str(s@));
    }
}

/// Reads one string off the front.
pub(crate) fn dec_str(b: &[u8]) -> (r: Option<(String, &[u8])>)
    ensures
        match r {
            Some(p) => spec_dec_str(b@) == Some((p.0@, p.1@)),
            None => spec_dec_str(b@) is None,
        },
{
    match dec_u64(b) {
        Some((n, rest)) => match dec_chars(rest, n) {
            Some((s, rest2)) => Some((chars_to_string(s.as_slice()), rest2)),
            None => None,
        },
        None => None,
    }
}

/// An optional string: a tag word, then the string when present.
pub open spec fn spec_enc_opt_str(o: Option<Seq<char>>) -> Seq<u8> {
    match o {
        None => spec_enc_u64(0),
        Some(s) => spec_enc_u64(1) + spec_enc_str(s),
    }
}

/// Reading an optional string back; a tag other than zero or one is
/// rejected.
pub open spec fn spec_dec_opt_str(b: Seq<u8>) -> Option<(Option<Seq<char>>, Seq<u8>)> {
    match spec_dec_u64(b) {
        Some((t, r)) => if t == 0 {
            Some((None, r))
        } else if t == 1 {
            match spec_dec_str(r) {
                Some((s, r2)) => Some((Some(s), r2)),
                None => None,
            }
        } else {
            None
        },
        None => None,
    }
}

/// An optional string survives the trip.
pub proof fn lemma_opt_str_round_trip(o: Option<Seq<char>>, rest: Seq<u8>)
    requires
        o is Some ==> o->0.len() <= 0xFFFF_FFFF_FFFF_FFFFu64,
    ensures
        spec_dec_opt_str(spec_enc_opt_str(o) + rest) == Some((o, rest)),
{
    match o {
        None => {
            lemma_u64_round_trip(0, rest);
        },
        Some(s) => {
            assert(spec_enc_opt_str(o) + rest =~= spec_enc_u64(1) + (spec_enc_str(s) + rest));
            lemma_u64_round_trip(1, spec_enc_str(s) + rest);
            lemma_str_round_trip(s, rest);
        },
    }
}

/// Appends one optional string.
fn enc_opt_str(out: &mut Vec<u8>, o: &Option<String>)
    ensures
        final(out)@ == old(out)@ + spec_enc_opt_str(o.deep_view()),
{
    match o {
        None => {
            enc_u64(out, 0);
        },
        Some(s) => {
            enc_u64(out, 1);
            enc_str(out, s.as_str());
            proof {
                assert(final(out)@ =~= old(out)@ + spec_enc_opt_str(o.deep_view()));
            }
        },
    }
}

/// Reads one optional string off the front.
fn dec_opt_str(b: &[u8]) -> (r: Option<(Option<String>, &[u8])>)
    ensures
        match r {
            Some(p) => spec_dec_opt_str(b@) == Some((p.0.deep_view(), p.1@)),
            None => spec_dec_opt_str(b@) is None,
        },
{
    match dec_u64(b) {
        Some((t, rest)) => {
            if t == 0 {
                Some((None, rest))
            } else if t == 1 {
                match dec_str(rest) {
                    Some((s, rest2)) => Some((Some(s), rest2)),
                    None => None,
                }
            } else {
                None
            }
        },
        None => None,
    }
}

/// A string list encodes as its length, then its strings.
pub open spec fn spec_enc_strs_items(ss: Seq<Seq<char>>) -> Seq<u8>
    decreases ss.len(),
{
    if ss.len() == 0 {
        Seq::<u8>::empty()
    } else {
        spec_enc_str(ss[0]) + spec_enc_strs_items(ss.drop_first())
    }
}

/// Reading a counted string list back.
pub open spec fn spec_dec_strs_items(b: Seq<u8>, n: int) -> Option<(Seq<Seq<char>>, Seq<u8>)>
    decreases n,
{
    if n <= 0 {
        Some((Seq::<Seq<char>>::empty(), b))
    } else {
        match spec_dec_str(b) {
            Some((s, r)) => match spec_dec_strs_items(r, n - 1) {
                Some((ss, r2)) => Some((seq![s] + ss, r2)),
                None => None,
            },
            None => None,
        }
    }
}

/// Whether every string of a list fits a 64-bit length word.
pub open spec fn strs_bounded(ss: Seq<Seq<char>>) -> bool {
    forall|i: int| 0 <= i < ss.len() ==> (#[trigger] ss[i]).len() <= 0xFFFF_FFFF_FFFF_FFFFu64
}

/// A string list survives the trip.
pub proof fn lemma_strs_items_round_trip(ss: Seq<Seq<char>>, rest: Seq<u8>)
    requires
        strs_bounded(ss),
    ensures
        spec_dec_strs_items(spec_enc_strs_items(ss) + rest, ss.len() as int) == Some((ss, rest)),
    decreases ss.len(),
{
    if ss.len() == 0 {
        assert(spec_enc_strs_items(ss) + rest =~= rest);
        assert(ss =~= Seq::<Seq<char>>::empty());
    } else {
        assert(strs_bounded(ss.drop_first())) by {
            assert(forall|i: int|
                0 <= i < ss.drop_first().len() ==> ss.drop_first()[i] == ss[i + 1]);
        }
        lemma_strs_items_round_trip(ss.drop_first(), rest);
        assert(spec_enc_strs_items(ss) + rest =~= spec_enc_str(ss[0]) + (spec_enc_strs_items(
            ss.drop_first(),
        ) + rest));
        lemma_str_round_trip(ss[0], spec_enc_strs_items(ss.drop_first()) + rest);
        assert(seq![ss[0]] + ss.drop_first() =~= ss);
    }
}

/// Appends every string of a list.
fn enc_strs_items(out: &mut Vec<u8>, ss: &[String])
    ensures
        final(out)@ == old(out)@ + spec_enc_strs_items(ss.deep_view()),
    decreases ss@.len(),
{
    if ss.len() > 0 {
        enc_str(out, ss[0].as_str());
        let tail = slice_subrange(ss, 1, ss.len());
        proof {
            assert(tail.deep_view() =~= ss.deep_view().drop_first());
            assert(ss@[0]@ == ss.deep_view()[0]);
        }
        enc_strs_items(out, tail);
        proof {
            assert(final(out)@ =~= old(out)@ + spec_enc_strs_items(ss.deep_view()));
        }
    } else {
        proof {
            assert(ss.deep_view().len() == 0);
            assert(old(out)@ + spec_enc_strs_items(ss.deep_view()) =~= old(out)@);
        }
    }
}

/// Reads a counted string list off the front.
fn dec_strs_items(b: &[u8], n: u64) -> (r: Option<(Vec<String>, &[u8])>)
    ensures
        match r {
            Some(p) => spec_dec_strs_items(b@, n as int) == Some((p.0.deep_view(), p.1@)),
            None => spec_dec_strs_items(b@, n as int) is None,
        },
    decreases n,
{
    if n == 0 {
        let v: Vec<String> = Vec::new();
        proof {
            assert(v.deep_view() =~= Seq::<Seq<char>>::empty());
        }
        return Some((v, b));
    }
    match dec_str(b) {
        Some((s, rest)) => match dec_strs_items(rest, n - 1) {
            Some((ss, rest2)) => {
                let mut ss = ss;
                let ghost tail_deep = ss.deep_view();
                ss.insert(0, s);
                proof {
                    assert(ss.deep_view() =~= seq![ss@[0]@] + tail_deep);
                }
                Some((ss, rest2))
            },
            None => None,
        },
        None => None,
    }
}

/// An optional string list: a tag word, then a counted list when present.
pub open spec fn spec_enc_opt_strs(o: Option<Seq<Seq<char>>>) -> Seq<u8> {
    match o {
        None => spec_enc_u64(0),
        Some(ss) => spec_enc_u64(1) + spec_enc_u64(ss.len() as u64) + spec_enc_strs_items(ss),
    }
}

/// Reading an optional string list back.
pub open spec fn spec_dec_opt_strs(b: Seq<u8>) -> Option<(Option<Seq<Seq<char>>>, Seq<u8>)> {
    match spec_dec_u64(b) {
        Some((t, r)) => if t == 0 {
            Some((None, r))
        } else if t == 1 {
            match spec_dec_u64(r) {
                Some((n, r2)) => match spec_dec_strs_items(r2, n as int) {
                    Some((ss, r3)) => Some((Some(ss), r3)),
                    None => None,
                },
                None => None,
            }
        } else {
            None
        },
        None => None,
    }
}

/// An optional string list survives the trip.
#[verifier::rlimit(100)]
pub proof fn lemma_opt_strs_round_trip(o: Option<Seq<Seq<char>>>, rest: Seq<u8>)
    requires
        o is Some ==> strs_bounded(o->0) && o->0.len() <= 0xFFFF_FFFF_FFFF_FFFFu64,
    ensures
        spec_dec_opt_strs(spec_enc_opt_strs(o) + rest) == Some((o, rest)),
{
    match o {
        None => {
            lemma_u64_round_trip(0, rest);
        },
        Some(ss) => {
            let tail1 = spec_enc_u64(ss.len() as u64) + spec_enc_strs_items(ss) + rest;
            assert(spec_enc_opt_strs(o) + rest =~= spec_enc_u64(1) + tail1);
            lemma_u64_round_trip(1, tail1);
            assert(tail1 =~= spec_enc_u64(ss.len() as u64) + (spec_enc_strs_items(ss) + rest));
            lemma_u64_round_trip(ss.len() as u64, spec_enc_strs_items(ss) + rest);
            lemma_strs_items_round_trip(ss, rest);
        },
    }
}

/// Appends one optional string list.
fn enc_opt_strs(out: &mut Vec<u8>, o: &Option<Vec<String>>)
    ensures
        final(out)@ == old(out)@ + spec_enc_opt_strs(o.deep_view()),
{
    match o {
        None => {
            enc_u64(out, 0);
        },
        Some(ss) => {
            enc_u64(out, 1);
            enc_u64(out, ss.len() as u64);
            enc_strs_items(out, ss.as_slice());
            proof {
                assert(final(out)@ =~= old(out)@ + spec_enc_opt_strs(o.deep_view()));
            }
        },
    }
}

/// Reads one optional string list off the front.
fn dec_opt_strs(b: &[u8]) -> (r: Option<(Option<Vec<String>>, &[u8])>)
    ensures
        match r {
            Some(p) => spec_dec_opt_strs(b@) == Some((p.0.deep_view(), p.1@)),
            None => spec_dec_opt_strs(b@) is None,
        },
{
    match dec_u64(b) {
        Some((t, rest)) => {
            if t == 0 {
                Some((None, rest))
            } else if t == 1 {
                match dec_u64(rest) {
                    Some((n, rest2)) => match dec_strs_items(rest2, n) {
                        Some((ss, rest3)) => Some((Some(ss), rest3)),
                        None => None,
                    },
                    None => None,
                }
            } else {
                None
            }
        },
        None => None,
    }
}

/// A 32-bit integer list encodes as words, one per value.
pub open spec fn spec_enc_u32s_items(vs: Seq<u32>) -> Seq<u8>
    decreases vs.len(),
{
    if vs.len() == 0 {
        Seq::<u8>::empty()
    } else {
        spec_enc_u64(vs[0] as u64) + spec_enc_u32s_items(vs.drop_first())
    }
}

/// Reading a counted 32-bit integer list back; an oversized word is
/// rejected.
pub open spec fn spec_dec_u32s_items(b: Seq<u8>, n: int) -> Option<(Seq<u32>, Seq<u8>)>
    decreases n,
{
    if n <= 0 {
        Some((Seq::<u32>::empty(), b))
    } else {
        match spec_dec_u64(b) {
            Some((v, r)) => if v <= 0xFFFF_FFFFu64 {
                match spec_dec_u32s_items(r, n - 1) {
                    Some((vs, r2)) => Some((seq![v as u32] + vs, r2)),
                    None => None,
                }
            } else {
                None
            },
            None => None,
        }
    }
}

/// A 32-bit integer list survives the trip.
pub proof fn lemma_u32s_items_round_trip(vs: Seq<u32>, rest: Seq<u8>)
    ensures
        spec_dec_u32s_items(spec_enc_u32s_items(vs) + rest, vs.len() as int) == Some((vs, rest)),
    decreases vs.len(),
{
    if vs.len() == 0 {
        assert(spec_enc_u32s_items(vs) + rest =~= rest);
        assert(vs =~= Seq::<u32>::empty());
    } else {
        lemma_u32s_items_round_trip(vs.drop_first(), rest);
        assert(spec_enc_u32s_items(vs) + rest =~= spec_enc_u64(vs[0] as u64) + (
        spec_enc_u32s_items(vs.drop_first()) + rest));
        lemma_u64_round_trip(vs[0] as u64, spec_enc_u32s_items(vs.drop_first()) + rest);
        assert((vs[0] as u64) as u32 == vs[0]);
        assert(seq![vs[0]] + vs.drop_first() =~= vs);
    }
}

/// Appends every value of a 32-bit integer list.
fn enc_u32s_items(out: &mut Vec<u8>, vs: &[u32])
    ensures
        final(out)@ == old(out)@ + spec_enc_u32s_items(vs@),
    decreases vs@.len(),
{
    if vs.len() > 0 {
        enc_u64(out, vs[0] as u64);
        let tail = slice_subrange(vs, 1, vs.len());
        proof {
            assert(tail@ =~= vs@.drop_first());
        }
        enc_u32s_items(out, tail);
        proof {
            assert(final(out)@ =~= old(out)@ + spec_enc_u32s_items(vs@));
        }
    } else {
        proof {
            assert(old(out)@ + spec_enc_u32s_items(vs@) =~= old(out)@);
        }
    }
}

/// Reads a counted 32-bit integer list off the front.
fn dec_u32s_items(b: &[u8], n: u64) -> (r: Option<(Vec<u32>, &[u8])>)
    ensures
        match r {
            Some(p) => spec_dec_u32s_items(b@, n as int) == Some((p.0@, p.1@)),
            None => spec_dec_u32s_items(b@, n as int) is None,
        },
    decreases n,
{
    if n == 0 {
        let v: Vec<u32> = Vec::new();
        proof {
            assert(v@ =~= Seq::<u32>::empty());
        }
        return Some((v, b));
    }
    match dec_u64(b) {
        Some((v, rest)) => {
            if v <= 0xFFFF_FFFF {
                match dec_u32s_items(rest, n - 1) {
                    Some((vs, rest2)) => {
                        let mut vs = vs;
                        vs.insert(0, v as u32);
                        proof {
                            assert(vs@ =~= seq![vs@[0]] + vs@.drop_first());
                        }
                        Some((vs, rest2))
                    },
                    None => None,
                }
            } else {
                None
            }
        },
        None => None,
    }
}

/// An optional 32-bit integer list: a tag word, then a counted list.
pub open spec fn spec_enc_opt_u32s(o: Option<Seq<u32>>) -> Seq<u8> {
    match o {
        None => spec_enc_u64(0),
        Some(vs) => spec_enc_u64(1) + spec_enc_u64(vs.len() as u64) + spec_enc_u32s_items(vs),
    }
}

/// Reading an optional 32-bit integer list back.
pub open spec fn spec_dec_opt_u32s(b: Seq<u8>) -> Option<(Option<Seq<u32>>, Seq<u8>)> {
    match spec_dec_u64(b) {
        Some((t, r)) => if t == 0 {
            Some((None, r))
        } else if t == 1 {
            match spec_dec_u64(r) {
                Some((n, r2)) => match spec_dec_u32s_items(r2, n as int) {
                    Some((vs, r3)) => Some((Some(vs), r3)),
                    None => None,
                },
                None => None,
            }
        } else {
            None
        },
        None => None,
    }
}

/// An optional 32-bit integer list survives the trip.
#[verifier::rlimit(100)]
pub proof fn lemma_opt_u32s_round_trip(o: Option<Seq<u32>>, rest: Seq<u8>)
    requires
        o is Some ==> o->0.len() <= 0xFFFF_FFFF_FFFF_FFFFu64,
    ensures
        spec_dec_opt_u32s(spec_enc_opt_u32s(o) + rest) == Some((o, rest)),
{
    match o {
        None => {
            lemma_u64_round_trip(0, rest);
        },
        Some(vs) => {
            let tail1 = spec_enc_u64(vs.len() as u64) + spec_enc_u32s_items(vs) + rest;
            assert(spec_enc_opt_u32s(o) + rest =~= spec_enc_u64(1) + tail1);
            lemma_u64_round_trip(1, tail1);
            assert(tail1 =~= spec_enc_u64(vs.len() as u64) + (spec_enc_u32s_items(vs) + rest));
            lemma_u64_round_trip(vs.len() as u64, spec_enc_u32s_items(vs) + rest);
            lemma_u32s_items_round_trip(vs, rest);
        },
    }
}

/// Appends one optional 32-bit integer list.
fn enc_opt_u32s(out: &mut Vec<u8>, o: &Option<Vec<u32>>)
    ensures
        final(out)@ == old(out)@ + spec_enc_opt_u32s(o.deep_view()),
{
    match o {
        None => {
            enc_u64(out, 0);
        },
        Some(vs) => {
            enc_u64(out, 1);
            enc_u64(out, vs.len() as u64);
            enc_u32s_items(out, vs.as_slice());
            proof {
                assert(o.deep_view() == Some(vs@));
                assert(final(out)@ =~= old(out)@ + spec_enc_opt_u32s(o.deep_view()));
            }
        },
    }
}

/// Reads one optional 32-bit integer list off the front.
fn dec_opt_u32s(b: &[u8]) -> (r: Option<(Option<Vec<u32>>, &[u8])>)
    ensures
        match r {
            Some(p) => spec_dec_opt_u32s(b@) == Some((p.0.deep_view(), p.1@)),
            None => spec_dec_opt_u32s(b@) is None,
        },
{
    match dec_u64(b) {
        Some((t, rest)) => {
            if t == 0 {
                Some((None, rest))
            } else if t == 1 {
                match dec_u64(rest) {
                    Some((n, rest2)) => match dec_u32s_items(rest2, n) {
                        Some((vs, rest3)) => Some((Some(vs), rest3)),
                        None => None,
                    },
                    None => None,
                }
            } else {
                None
            }
        },
        None => None,
    }
}

/// The word-length bound every encoded length must fit.
pub open spec fn len_ok(n: nat) -> bool {
    n <= 0xFFFF_FFFF_FFFF_FFFFu64
}

/// An optional string fits the length bound.
pub open spec fn opt_str_bounded(o: Option<Seq<char>>) -> bool {
    o is Some ==> len_ok(o->0.len())
}

/// An optional string list fits the length bounds.
pub open spec fn opt_strs_bounded(o: Option<Seq<Seq<char>>>) -> bool {
    o is Some ==> strs_bounded(o->0) && len_ok(o->0.len())
}

/// A details value fits the length bounds.
pub open spec fn details_bounded(d: crate::repo::DetailsView) -> bool {
    &&& opt_str_bounded(d.project)
    &&& opt_str_bounded(d.main)
    &&& opt_str_bounded(d.title)
    &&& opt_strs_bounded(d.font)
    &&& (d.color is Some ==> len_ok(d.color->0.len()))
    &&& opt_strs_bounded(d.keywords)
    &&& opt_strs_bounded(d.languages)
    &&& opt_strs_bounded(d.technology)
    &&& opt_str_bounded(d.children)
    &&& opt_str_bounded(d.status)
    &&& opt_str_bounded(d.description)
}

/// The first half of a details encoding: project through color.
pub open spec fn spec_enc_details_a(d: crate::repo::DetailsView) -> Seq<u8> {
    spec_enc_opt_str(d.project) + spec_enc_opt_str(d.main) + spec_enc_opt_str(d.title)
        + spec_enc_opt_strs(d.font) + spec_enc_opt_u32s(d.color)
}

/// The second half of a details encoding: keywords through description.
pub open spec fn spec_enc_details_b(d: crate::repo::DetailsView) -> Seq<u8> {
    spec_enc_opt_strs(d.keywords) + spec_enc_opt_strs(d.languages) + spec_enc_opt_strs(
        d.technology,
    ) + spec_enc_opt_str(d.children) + spec_enc_opt_str(d.status) + spec_enc_opt_str(d.description)
}

/// A details value encodes field by field, in declaration order.
pub open spec fn spec_enc_details(d: crate::repo::DetailsView) -> Seq<u8> {
    spec_enc_details_a(d) + spec_enc_details_b(d)
}

/// Reading the first half of a details value back.
pub open spec fn spec_dec_details_a(b: Seq<u8>) -> Option<
    ((Option<Seq<char>>, Option<Seq<char>>, Option<Seq<char>>, Option<Seq<Seq<char>>>, Option<
        Seq<u32>,
    >), Seq<u8>),
> {
    match spec_dec_opt_str(b) {
        Some((project, b1)) => match spec_dec_opt_str(b1) {
            Some((main, b2)) => match spec_dec_opt_str(b2) {
                Some((title, b3)) => match spec_dec_opt_strs(b3) {
                    Some((font, b4)) => match spec_dec_opt_u32s(b4) {
                        Some((color, b5)) => Some(((project, main, title, font, color), b5)),
                        None => None,
                    },
                    None => None,
                },
                None => None,
            },
            None => None,
        },
        None => None,
    }
}

/// Reading the second half of a details value back.
pub open spec fn spec_dec_details_b(b: Seq<u8>) -> Option<
    ((Option<Seq<Seq<char>>>, Option<Seq<Seq<char>>>, Option<Seq<Seq<char>>>, Option<Seq<char>>,
        Option<Seq<char>>, Option<Seq<char>>), Seq<u8>),
> {
    match spec_dec_opt_strs(b) {
        Some((keywords, b1)) => match spec_dec_opt_strs(b1) {
            Some((languages, b2)) => match spec_dec_opt_strs(b2) {
                Some((technology, b3)) => match spec_dec_opt_str(b3) {
                    Some((children, b4)) => match spec_dec_opt_str(b4) {
                        Some((status, b5)) => match spec_dec_opt_str(b5) {
                            Some((description, b6)) => Some(
                                ((keywords, languages, technology, children, status, description),
                                b6),
                            ),
                            None => None,
                        },
                        None => None,
                    },
                    None => None,
                },
                None => None,
            },
            None => None,
        },
        None => None,
    }
}

/// Reading a details value back, field by field.
pub open spec fn spec_dec_details(b: Seq<u8>) -> Option<(crate::repo::DetailsView, Seq<u8>)> {
    match spec_dec_details_a(b) {
        Some((a, r1)) => match spec_dec_details_b(r1) {
            Some((bb, r2)) => Some(
                (
                    crate::repo::DetailsView {
                        project: a.0,
                        main: a.1,
                        title: a.2,
                        font: a.3,
                        color: a.4,
                        keywords: bb.0,
                        languages: bb.1,
                        technology: bb.2,
                        children: bb.3,
                        status: bb.4,
                        description: bb.5,
                    },
                    r2,
                ),
            ),
            None => None,
        },
        None => None,
    }
}

/// The first half of a details value survives the trip.
proof fn lemma_details_a_round_trip(d: crate::repo::DetailsView, rest: Seq<u8>)
    requires
        details_bounded(d),
    ensures
        spec_dec_details_a(spec_enc_details_a(d) + rest) == Some(
            ((d.project, d.main, d.title, d.font, d.color), rest),
        ),
{
    let p1 = spec_enc_opt_str(d.project);
    let p2 = spec_enc_opt_str(d.main);
    let p3 = spec_enc_opt_str(d.title);
    let p4 = spec_enc_opt_strs(d.font);
    let p5 = spec_enc_opt_u32s(d.color);
    let t5 = rest;
    let t4 = p5 + t5;
    let t3 = p4 + t4;
    let t2 = p3 + t3;
    let t1 = p2 + t2;
    vstd::seq_lib::lemma_concat_associative(p1 + p2 + p3 + p4, p5, t5);
    vstd::seq_lib::lemma_concat_associative(p1 + p2 + p3, p4, t4);
    vstd::seq_lib::lemma_concat_associative(p1 + p2, p3, t3);
    vstd::seq_lib::lemma_concat_associative(p1, p2, t2);
    assert(spec_enc_details_a(d) + rest == p1 + t1);
    lemma_opt_str_round_trip(d.project, t1);
    lemma_opt_str_round_trip(d.main, t2);
    lemma_opt_str_round_trip(d.title, t3);
    lemma_opt_strs_round_trip(d.font, t4);
    lemma_opt_u32s_round_trip(d.color, t5);
}

/// The second half of a details value survives the trip.
proof fn lemma_details_b_round_trip(d: crate::repo::DetailsView, rest: Seq<u8>)
    requires
        details_bounded(d),
    ensures
        spec_dec_details_b(spec_enc_details_b(d) + rest) == Some(
            ((d.keywords, d.languages, d.technology, d.children, d.status, d.description), rest),
        ),
{
    let p1 = spec_enc_opt_strs(d.keywords);
    let p2 = spec_enc_opt_strs(d.languages);
    let p3 = spec_enc_opt_strs(d.technology);
    let p4 = spec_enc_opt_str(d.children);
    let p5 = spec_enc_opt_str(d.status);
    let p6 = spec_enc_opt_str(d.description);
    let t6 = rest;
    let t5 = p6 + t6;
    let t4 = p5 + t5;
    let t3 = p4 + t4;
    let t2 = p3 + t3;
    let t1 = p2 + t2;
    vstd::seq_lib::lemma_concat_associative(p1 + p2 + p3 + p4 + p5, p6, t6);
    vstd::seq_lib::lemma_concat_associative(p1 + p2 + p3 + p4, p5, t5);
    vstd::seq_lib::lemma_concat_associative(p1 + p2 + p3, p4, t4);
    vstd::seq_lib::lemma_concat_associative(p1 + p2, p3, t3);
    vstd::seq_lib::lemma_concat_associative(p1, p2, t2);
    assert(spec_enc_details_b(d) + rest == p1 + t1);
    lemma_opt_strs_round_trip(d.keywords, t1);
    lemma_opt_strs_round_trip(d.languages, t2);
    lemma_opt_strs_round_trip(d.technology, t3);
    lemma_opt_str_round_trip(d.children, t4);
    lemma_opt_str_round_trip(d.status, t5);
    lemma_opt_str_round_trip(d.description, t6);
}

/// A details value survives the trip, half by half.
pub proof fn lemma_details_round_trip(d: crate::repo::DetailsView, rest: Seq<u8>)
    requires
        details_bounded(d),
    ensures
        spec_dec_details(spec_enc_details(d) + rest) == Some((d, rest)),
{
    vstd::seq_lib::lemma_concat_associative(spec_enc_details_a(d), spec_enc_details_b(d), rest);
    assert(spec_enc_details(d) + rest == spec_enc_details_a(d) + (spec_enc_details_b(d) + rest));
    lemma_details_a_round_trip(d, spec_enc_details_b(d) + rest);
    lemma_details_b_round_trip(d, rest);
}

/// Appends the first half of a details value.
#[verifier::rlimit(100)]
fn enc_details_a(out: &mut Vec<u8>, d: &crate::repo::RepoDetails)
    ensures
        final(out)@ == old(out)@ + spec_enc_details_a(d@),
{
    enc_opt_str(out, &d.project);
    enc_opt_str(out, &d.main);
    enc_opt_str(out, &d.title);
    enc_opt_strs(out, &d.font);
    enc_opt_u32s(out, &d.color);
    proof {
        assert(final(out)@ =~= old(out)@ + spec_enc_details_a(d@));
    }
}

/// Appends the second half of a details value.
#[verifier::rlimit(100)]
fn enc_details_b(out: &mut Vec<u8>, d: &crate::repo::RepoDetails)
    ensures
        final(out)@ == old(out)@ + spec_enc_details_b(d@),
{
    enc_opt_strs(out, &d.keywords);
    enc_opt_strs(out, &d.languages);
    enc_opt_strs(out, &d.technology);
    enc_opt_str(out, &d.children);
    enc_opt_str(out, &d.status);
    enc_opt_str(out, &d.description);
    proof {
        assert(final(out)@ =~= old(out)@ + spec_enc_details_b(d@));
    }
}

/// Appends one details value.
fn enc_details(out: &mut Vec<u8>, d: &crate::repo::RepoDetails)
    ensures
        final(out)@ == old(out)@ + spec_enc_details(d@),
{
    enc_details_a(out, d);
    enc_details_b(out, d);
    proof {
        vstd::seq_lib::lemma_concat_associative(
            old(out)@,
            spec_enc_details_a(d@),
            spec_enc_details_b(d@),
        );
        assert(final(out)@ =~= old(out)@ + spec_enc_details(d@));
    }
}

/// Reads one details value off the front.
#[verifier::rlimit(100)]
fn dec_details(b: &[u8]) -> (r: Option<(crate::repo::RepoDetails, &[u8])>)
    ensures
        match r {
            Some(p) => spec_dec_details(b@) == Some((p.0@, p.1@)),
            None => spec_dec_details(b@) is None,
        },
{
    let (project, b1) = match dec_opt_str(b) {
        Some(p) => p,
        None => {
            return None;
        },
    };
    let (main, b2) = match dec_opt_str(b1) {
        Some(p) => p,
        None => {
            return None;
        },
    };
    let (title, b3) = match dec_opt_str(b2) {
        Some(p) => p,
        None => {
            return None;
        },
    };
    let (font, b4) = match dec_opt_strs(b3) {
        Some(p) => p,
        None => {
            return None;
        },
    };
    let (color, b5) = match dec_opt_u32s(b4) {
        Some(p) => p,
        None => {
            return None;
        },
    };
    let (keywords, b6) = match dec_opt_strs(b5) {
        Some(p) => p,
        None => {
            return None;
        },
    };
    let (languages, b7) = match dec_opt_strs(b6) {
        Some(p) => p,
        None => {
            return None;
        },
    };
    let (technology, b8) = match dec_opt_strs(b7) {
        Some(p) => p,
        None => {
            return None;
        },
    };
    let (children, b9) = match dec_opt_str(b8) {
        Some(p) => p,
        None => {
            return None;
        },
    };
    let (status, b10) = match dec_opt_str(b9) {
        Some(p) => p,
        None => {
            return None;
        },
    };
    let (description, b11) = match dec_opt_str(b10) {
        Some(p) => p,
        None => {
            return None;
        },
    };
    Some(
        (
            crate::repo::RepoDetails {
                project,
                main,
                title,
                font,
                color,
                keywords,
                languages,
                technology,
                children,
                status,
                description,
            },
            b11,
        ),
    )
}

/// A record fits the length bounds.
pub open spec fn repo_bounded(r: crate::repo::RepoView) -> bool {
    &&& len_ok(r.uid.len())
    &&& len_ok(r.id.len())
    &&& len_ok(r.url.len())
    &&& len_ok(r.name.len())
    &&& len_ok(r.owner.len())
    &&& len_ok(r.origin.len())
    &&& (r.details is Some ==> details_bounded(r.details->0))
}

/// A record encodes field by field, in declaration order.
pub open spec fn spec_enc_repo(r: crate::repo::RepoView) -> Seq<u8> {
    spec_enc_str(r.uid) + spec_enc_str(r.id) + spec_enc_str(r.url) + spec_enc_str(r.name)
        + spec_enc_str(r.owner) + spec_enc_str(r.origin) + spec_enc_u64(r.last_sync)
        + spec_enc_u64(r.last_update) + (match r.details {
        None => spec_enc_u64(0),
        Some(d) => spec_enc_u64(1) + spec_enc_details(d),
    })
}

/// Reading a record back, field by field.
pub open spec fn spec_dec_repo(b: Seq<u8>) -> Option<(crate::repo::RepoView, Seq<u8>)> {
    match spec_dec_str(b) {
        Some((uid, b1)) => match spec_dec_str(b1) {
            Some((id, b2)) => match spec_dec_str(b2) {
                Some((url, b3)) => match spec_dec_str(b3) {
                    Some((name, b4)) => match spec_dec_str(b4) {
                        Some((owner, b5)) => match spec_dec_str(b5) {
                            Some((origin, b6)) => match spec_dec_u64(b6) {
                                Some((last_sync, b7)) => match spec_dec_u64(b7) {
                                    Some((last_update, b8)) => match spec_dec_u64(b8) {
                                        Some((t, b9)) => if t == 0 {
                                            Some(
                                                (
                                                    crate::repo::RepoView {
                                                        uid,
                                                        id,
                                                        url,
                                                        name,
                                                        owner,
                                                        origin,
                                                        last_sync,
                                                        last_update,
                                                        details: None,
                                                    },
                                                    b9,
                                                ),
                                            )
                                        } else if t == 1 {
                                            match spec_dec_details(b9) {
                                                Some((d, b10)) => Some(
                                                    (
                                                        crate::repo::RepoView {
                                                            uid,
                                                            id,
                                                            url,
                                                            name,
                                                            owner,
                                                            origin,
                                                            last_sync,
                                                            last_update,
                                                            details: Some(d),
                                                        },
                                                        b10,
                                                    ),
                                                ),
                                                None => None,
                                            }
                                        } else {
                                            None
                                        },
                                        None => None,
                                    },
                                    None => None,
                                },
                                None => None,
                            },
                            None => None,
                        },
                        None => None,
                    },
                    None => None,
                },
                None => None,
            },
            None => None,
        },
        None => None,
    }
}

/// A record survives the trip.
#[verifier::rlimit(100)]
#[verifier::spinoff_prover]
pub proof fn lemma_repo_round_trip(r: crate::repo::RepoView, rest: Seq<u8>)
    requires
        repo_bounded(r),
    ensures
        spec_dec_repo(spec_enc_repo(r) + rest) == Some((r, rest)),
{
    let p1 = spec_enc_str(r.uid);
    let p2 = spec_enc_str(r.id);
    let p3 = spec_enc_str(r.url);
    let p4 = spec_enc_str(r.name);
    let p5 = spec_enc_str(r.owner);
    let p6 = spec_enc_str(r.origin);
    let p7 = spec_enc_u64(r.last_sync);
    let p8 = spec_enc_u64(r.last_update);
    let p9 = (match r.details {
        None => spec_enc_u64(0),
        Some(d) => spec_enc_u64(1) + spec_enc_details(d),
    });
    let t9 = rest;
    let t8 = p9 + t9;
    let t7 = p8 + t8;
    let t6 = p7 + t7;
    let t5 = p6 + t6;
    let t4 = p5 + t5;
    let t3 = p4 + t4;
    let t2 = p3 + t3;
    let t1 = p2 + t2;
    vstd::seq_lib::lemma_concat_associative(p1 + p2 + p3 + p4 + p5 + p6 + p7 + p8, p9, t9);
    vstd::seq_lib::lemma_concat_associative(p1 + p2 + p3 + p4 + p5 + p6 + p7, p8, t8);
    vstd::seq_lib::lemma_concat_associative(p1 + p2 + p3 + p4 + p5 + p6, p7, t7);
    vstd::seq_lib::lemma_concat_associative(p1 + p2 + p3 + p4 + p5, p6, t6);
    vstd::seq_lib::lemma_concat_associative(p1 + p2 + p3 + p4, p5, t5);
    vstd::seq_lib::lemma_concat_associative(p1 + p2 + p3, p4, t4);
    vstd::seq_lib::lemma_concat_associative(p1 + p2, p3, t3);
    vstd::seq_lib::lemma_concat_associative(p1, p2, t2);
    assert(spec_enc_repo(r) + rest == p1 + t1);
    lemma_str_round_trip(r.uid, t1);
    lemma_str_round_trip(r.id, t2);
    lemma_str_round_trip(r.url, t3);
    lemma_str_round_trip(r.name, t4);
    lemma_str_round_trip(r.owner, t5);
    lemma_str_round_trip(r.origin, t6);
    lemma_u64_round_trip(r.last_sync, t7);
    lemma_u64_round_trip(r.last_update, t8);
    match r.details {
        None => {
            lemma_u64_round_trip(0, t9);
        },
        Some(d) => {
            vstd::seq_lib::lemma_concat_associative(spec_enc_u64(1), spec_enc_details(d), t9);
            assert(t8 == spec_enc_u64(1) + (spec_enc_details(d) + t9));
            lemma_u64_round_trip(1, spec_enc_details(d) + t9);
            lemma_details_round_trip(d, t9);
        },
    }
}

/// Appends one record.
#[verifier::rlimit(100)]
pub(crate) fn enc_repo(out: &mut Vec<u8>, r: &crate::repo::Repo)
    ensures
        final(out)@ == old(out)@ + spec_enc_repo(r@),
{
    enc_str(out, r.uid.as_str());
    enc_str(out, r.id.as_str());
    enc_str(out, r.url.as_str());
    enc_str(out, r.name.as_str());
    enc_str(out, r.owner.as_str());
    enc_str(out, r.origin.as_str());
    enc_u64(out, r.last_sync);
    enc_u64(out, r.last_update);
    match &r.details {
        None => {
            enc_u64(out, 0);
        },
        Some(d) => {
            enc_u64(out, 1);
            enc_details(out, d);
        },
    }
    proof {
        assert(final(out)@ =~= old(out)@ + spec_enc_repo(r@));
    }
}

/// Reads one record off the front.
pub(crate) fn dec_repo(b: &[u8]) -> (r: Option<(crate::repo::Repo, &[u8])>)
    ensures
        match r {
            Some(p) => spec_dec_repo(b@) == Some((p.0@, p.1@)),
            None => spec_dec_repo(b@) is None,
        },
{
    let (uid, b1) = match dec_str(b) {
        Some(p) => p,
        None => {
            return None;
        },
    };
    let (id, b2) = match dec_str(b1) {
        Some(p) => p,
        None => {
            return None;
        },
    };
    let (url, b3) = match dec_str(b2) {
        Some(p) => p,
        None => {
            return None;
        },
    };
    let (name, b4) = match dec_str(b3) {
        Some(p) => p,
        None => {
            return None;
        },
    };
    let (owner, b5) = match dec_str(b4) {
        Some(p) => p,
        None => {
            return None;
        },
    };
    let (origin, b6) = match dec_str(b5) {
        Some(p) => p,
        None => {
            return None;
        },
    };
    let (last_sync, b7) = match dec_u64(b6) {
        Some(p) => p,
        None => {
            return None;
        },
    };
    let (last_update, b8) = match dec_u64(b7) {
        Some(p) => p,
        None => {
            return None;
        },
    };
    let (t, b9) = match dec_u64(b8) {
        Some(p) => p,
        None => {
            return None;
        },
    };
    if t == 0 {
        Some(
            (
                crate::repo::Repo {
                    uid,
                    id,
                    url,
                    name,
                    owner,
                    origin,
                    last_sync,
                    last_update,
                    details: None,
                },
                b9,
            ),
        )
    } else if t == 1 {
        match dec_details(b9) {
            Some((d, b10)) => Some(
                (
                    crate::repo::Repo {
                        uid,
                        id,
                        url,
                        name,
                        owner,
                        origin,
                        last_sync,
                        last_update,
                        details: Some(d),
                    },
                    b10,
                ),
            ),
            None => None,
        }
    } else {
        None
    }
}

/// Every record of a list fits the length bounds.
pub open spec fn repos_bounded(rs: Seq<crate::repo::RepoView>) -> bool {
    len_ok(rs.len()) && forall|i: int| 0 <= i < rs.len() ==> repo_bounded(#[trigger] rs[i])
}

/// A record list encodes front to back.
pub open spec fn spec_enc_repos_items(rs: Seq<crate::repo::RepoView>) -> Seq<u8>
    decreases rs.len(),
{
    if rs.len() == 0 {
        Seq::<u8>::empty()
    } else {
        spec_enc_repo(rs[0]) + spec_enc_repos_items(rs.drop_first())
    }
}

/// Reading a counted record list back.
pub open spec fn spec_dec_repos_items(b: Seq<u8>, n: int) -> Option<
    (Seq<crate::repo::RepoView>, Seq<u8>),
>
    decreases n,
{
    if n <= 0 {
        Some((Seq::<crate::repo::RepoView>::empty(), b))
    } else {
        match spec_dec_repo(b) {
            Some((r, rest)) => match spec_dec_repos_items(rest, n - 1) {
                Some((rs, rest2)) => Some((seq![r] + rs, rest2)),
                None => None,
            },
            None => None,
        }
    }
}

/// A record list survives the trip.
#[verifier::rlimit(100)]
#[verifier::spinoff_prover]
pub proof fn lemma_repos_items_round_trip(rs: Seq<crate::repo::RepoView>, rest: Seq<u8>)
    requires
        repos_bounded(rs),
    ensures
        spec_dec_repos_items(spec_enc_repos_items(rs) + rest, rs.len() as int) == Some((rs, rest)),
    decreases rs.len(),
{
    if rs.len() == 0 {
        assert(spec_enc_repos_items(rs) + rest =~= rest);
        assert(rs =~= Seq::<crate::repo::RepoView>::empty());
    } else {
        assert(repos_bounded(rs.drop_first())) by {
            assert(forall|i: int|
                0 <= i < rs.drop_first().len() ==> rs.drop_first()[i] == rs[i + 1]);
        }
        lemma_repos_items_round_trip(rs.drop_first(), rest);
        vstd::seq_lib::lemma_concat_associative(
            spec_enc_repo(rs[0]),
            spec_enc_repos_items(rs.drop_first()),
            rest,
        );
        assert(spec_enc_repos_items(rs) + rest == spec_enc_repo(rs[0]) + (spec_enc_repos_items(
            rs.drop_first(),
        ) + rest));
        lemma_repo_round_trip(rs[0], spec_enc_repos_items(rs.drop_first()) + rest);
        assert(seq![rs[0]] + rs.drop_first() =~= rs);
    }
}

/// A key/value pair encodes as two strings.
pub open spec fn spec_enc_pair(p: (Seq<char>, Seq<char>)) -> Seq<u8> {
    spec_enc_str(p.0) + spec_enc_str(p.1)
}

/// Every pair of a list fits the length bounds.
pub open spec fn pairs_bounded(ps: Seq<(Seq<char>, Seq<char>)>) -> bool {
    len_ok(ps.len()) && forall|i: int|
        0 <= i < ps.len() ==> len_ok((#[trigger] ps[i]).0.len()) && len_ok(ps[i].1.len())
}

/// A pair list encodes front to back.
pub open spec fn spec_enc_pairs_items(ps: Seq<(Seq<char>, Seq<char>)>) -> Seq<u8>
    decreases ps.len(),
{
    if ps.len() == 0 {
        Seq::<u8>::empty()
    } else {
        spec_enc_pair(ps[0]) + spec_enc_pairs_items(ps.drop_first())
    }
}

/// Reading a counted pair list back.
pub open spec fn spec_dec_pairs_items(b: Seq<u8>, n: int) -> Option<
    (Seq<(Seq<char>, Seq<char>)>, Seq<u8>),
>
    decreases n,
{
    if n <= 0 {
        Some((Seq::<(Seq<char>, Seq<char>)>::empty(), b))
    } else {
        match spec_dec_str(b) {
            Some((k, r1)) => match spec_dec_str(r1) {
                Some((v, r2)) => match spec_dec_pairs_items(r2, n - 1) {
                    Some((ps, r3)) => Some((seq![(k, v)] + ps, r3)),
                    None => None,
                },
                None => None,
            },
            None => None,
        }
    }
}

/// A pair list survives the trip.
pub proof fn lemma_pairs_items_round_trip(ps: Seq<(Seq<char>, Seq<char>)>, rest: Seq<u8>)
    requires
        pairs_bounded(ps),
    ensures
        spec_dec_pairs_items(spec_enc_pairs_items(ps) + rest, ps.len() as int) == Some((ps, rest)),
    decreases ps.len(),
{
    if ps.len() == 0 {
        assert(spec_enc_pairs_items(ps) + rest =~= rest);
        assert(ps =~= Seq::<(Seq<char>, Seq<char>)>::empty());
    } else {
        assert(pairs_bounded(ps.drop_first())) by {
            assert(forall|i: int|
                0 <= i < ps.drop_first().len() ==> ps.drop_first()[i] == ps[i + 1]);
        }
        lemma_pairs_items_round_trip(ps.drop_first(), rest);
        let t1 = spec_enc_str(ps[0].1) + (spec_enc_pairs_items(ps.drop_first()) + rest);
        assert(spec_enc_pairs_items(ps) + rest =~= spec_enc_str(ps[0].0) + t1);
        lemma_str_round_trip(ps[0].0, t1);
        lemma_str_round_trip(ps[0].1, spec_enc_pairs_items(ps.drop_first()) + rest);
        assert(seq![(ps[0].0, ps[0].1)] + ps.drop_first() =~= ps);
    }
}

} // verus!
