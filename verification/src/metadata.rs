//! The metadata extractor: a line-oriented parser that recovers a
//! string-keyed map from annotation comments embedded in free text.
//!
//! Each line may carry one annotation of the form `<!-- ... -->`, with
//! whitespace tolerated around the tokens and between the closing dashes.
//! The body is, in this order of precedence: a `key: value` pair (the key a
//! word of ASCII letters, digits and underscores, stored upper-cased, later
//! pairs overwriting earlier ones); a `NAME START` section opener; a
//! `NAME END` section closer; or a bare keyword, whose value becomes the
//! entire next raw line, first trigger winning. While a section is open,
//! plain lines are trimmed and accumulated space-joined; the closer stores
//! the accumulated text under the section's name if its name matches, and is
//! ignored otherwise. A second opener simply restarts accumulation: the last
//! section wins. After the pass, a `STATUS` value is stripped of surrounding
//! whitespace and decorative `*` and `` ` `` characters.

use vstd::prelude::*;

use crate::chars::chars_to_string;
use crate::chars::find_char;
use crate::chars::is_word;
use crate::chars::is_ws;
use crate::chars::lemma_find_char_is;
use crate::chars::to_chars;
use crate::chars::trim;
use crate::chars::trim_chars;
use crate::chars::upper_char_exec;
use crate::chars::upper_seq;
use crate::chars::str_eq;
use crate::chars::word_char;
use crate::chars::ws_char;
use crate::strmap::StrMap;
use vstd::slice::slice_subrange;

verus! {

/// A line without its one trailing carriage return, if it has one.
pub open spec fn strip_cr(l: Seq<char>) -> Seq<char> {
    if l.len() > 0 && l.last() == '\r' {
        l.drop_last()
    } else {
        l
    }
}

/// The lines of a text: split at `'\n'`, each line stripped of one trailing
/// `'\r'`; a trailing line terminator produces no final empty line.
pub open spec fn spec_lines(t: Seq<char>) -> Seq<Seq<char>>
    decreases t.len(),
{
    if t.len() == 0 {
        Seq::<Seq<char>>::empty()
    } else {
        let i = find_char(t, '\n');
        if 0 <= i && i < t.len() {
            seq![strip_cr(t.take(i))] + spec_lines(t.skip(i + 1))
        } else {
            seq![strip_cr(t)]
        }
    }
}

/// The first position at or after `i` holding a non-whitespace character, or
/// the length.
pub open spec fn skip_ws(l: Seq<char>, i: int) -> int
    decreases l.len() - i,
{
    if i < 0 {
        i
    } else if i < l.len() && is_ws(l[i]) {
        skip_ws(l, i + 1)
    } else {
        i
    }
}

/// Characterization of `skip_ws`.
pub proof fn lemma_skip_ws_is(l: Seq<char>, start: int, i: int)
    requires
        0 <= start <= i <= l.len(),
        forall|j: int| start <= j < i ==> is_ws(#[trigger] l[j]),
        i == l.len() || !is_ws(l[i]),
    ensures
        skip_ws(l, start) == i,
    decreases i - start,
{
    if start < i {
        lemma_skip_ws_is(l, start + 1, i);
    }
}

/// Whether the annotation closer begins at `j`: a dash, a dash and a closing
/// angle bracket, each pair separated by optional whitespace.
pub open spec fn marker_at(l: Seq<char>, j: int) -> bool {
    &&& 0 <= j < l.len()
    &&& l[j] == '-'
    &&& {
        let a = skip_ws(l, j + 1);
        &&& a < l.len()
        &&& l[a] == '-'
        &&& {
            let b = skip_ws(l, a + 1);
            &&& b < l.len()
            &&& l[b] == '>'
        }
    }
}

/// The first position at or after `i` where the closer begins, or the
/// length.
pub open spec fn find_marker(l: Seq<char>, i: int) -> int
    decreases l.len() - i,
{
    if i < 0 {
        i
    } else if i >= l.len() {
        l.len() as int
    } else if marker_at(l, i) {
        i
    } else {
        find_marker(l, i + 1)
    }
}

/// Characterization of `find_marker`.
pub proof fn lemma_find_marker_is(l: Seq<char>, start: int, i: int)
    requires
        0 <= start <= i <= l.len(),
        forall|j: int| start <= j < i ==> !marker_at(l, j),
        i == l.len() || marker_at(l, i),
    ensures
        find_marker(l, start) == i,
    decreases i - start,
{
    if start < i {
        lemma_find_marker_is(l, start + 1, i);
    }
}

/// The length of the longest word-character prefix.
pub open spec fn word_prefix(c: Seq<char>, i: int) -> int
    decreases c.len() - i,
{
    if i < 0 {
        i
    } else if i < c.len() && is_word(c[i]) {
        word_prefix(c, i + 1)
    } else {
        i
    }
}

/// Characterization of `word_prefix`.
pub proof fn lemma_word_prefix_is(c: Seq<char>, start: int, i: int)
    requires
        0 <= start <= i <= c.len(),
        forall|j: int| start <= j < i ==> is_word(#[trigger] c[j]),
        i == c.len() || !is_word(c[i]),
    ensures
        word_prefix(c, start) == i,
    decreases i - start,
{
    if start < i {
        lemma_word_prefix_is(c, start + 1, i);
    }
}

/// Every character is a word character.
pub open spec fn all_word(c: Seq<char>) -> bool {
    forall|j: int| 0 <= j < c.len() ==> is_word(#[trigger] c[j])
}

/// The section name declared by a body ending in the given marker word
/// (`START` or `END`, compared without case): the word before it, trimmed
/// and upper-cased; `None` when the body has no such shape.
pub open spec fn sec_name(c: Seq<char>, kw: Seq<char>) -> Option<Seq<char>> {
    if c.len() >= kw.len() && upper_seq(c.skip(c.len() - kw.len())) == kw {
        let w = trim(c.take(c.len() - kw.len()));
        if w.len() > 0 && all_word(w) {
            Some(upper_seq(w))
        } else {
            None
        }
    } else {
        None
    }
}

/// What one line is, to the extractor.
pub enum LineClass {
    /// A `key: value` annotation; the key is stored upper-cased.
    KeyVal(Seq<char>, Seq<char>),
    /// A `NAME START` annotation.
    Start(Seq<char>),
    /// A `NAME END` annotation.
    End(Seq<char>),
    /// A bare keyword annotation; the key is stored upper-cased.
    Word(Seq<char>),
    /// Anything else: plain text.
    Plain,
}

/// Classifies one line. An annotation is leading whitespace, `<!--`,
/// whitespace, a body, then the closer; the body (trimmed) is read as a
/// key/value pair, a section opener, a section closer, or a bare keyword,
/// in that order.
pub open spec fn spec_classify(l: Seq<char>) -> LineClass {
    let i0 = skip_ws(l, 0);
    if i0 + 4 <= l.len() && l[i0] == '<' && l[i0 + 1] == '!' && l[i0 + 2] == '-' && l[i0 + 3]
        == '-' {
        let cs = skip_ws(l, i0 + 4);
        let m = find_marker(l, cs);
        if m < l.len() {
            let c = trim(l.subrange(cs, m));
            let w = word_prefix(c, 0);
            if w < c.len() && c[w] == ':' {
                LineClass::KeyVal(upper_seq(c.take(w)), trim(c.skip(w + 1)))
            } else {
                match sec_name(c, seq!['S', 'T', 'A', 'R', 'T']) {
                    Some(name) => LineClass::Start(name),
                    None => match sec_name(c, seq!['E', 'N', 'D']) {
                        Some(name) => LineClass::End(name),
                        None => if c.len() > 0 && all_word(c) {
                            LineClass::Word(upper_seq(c))
                        } else {
                            LineClass::Plain
                        },
                    },
                }
            }
        } else {
            LineClass::Plain
        }
    } else {
        LineClass::Plain
    }
}

/// The extractor's running state: the map built so far, a keyword waiting
/// for its value line, and the open section with its accumulated text.
pub struct ExtractState {
    pub map: Map<Seq<char>, Seq<char>>,
    pub pending: Option<Seq<char>>,
    pub in_sec: bool,
    pub sec: Seq<char>,
    pub acc: Seq<char>,
}

/// The state before any line is read.
pub open spec fn init_state() -> ExtractState {
    ExtractState {
        map: Map::empty(),
        pending: None,
        in_sec: false,
        sec: Seq::empty(),
        acc: Seq::empty(),
    }
}

/// The accumulator without its trailing joiner space, when it has one.
pub open spec fn acc_pop(a: Seq<char>) -> Seq<char> {
    if a.len() > 0 {
        a.drop_last()
    } else {
        a
    }
}

/// One line's effect on the state. A waiting keyword first takes this whole
/// raw line as its value, first trigger winning; the line is then read as an
/// annotation or, inside a section, as text to accumulate.
pub open spec fn step_line(st: ExtractState, l: Seq<char>) -> ExtractState {
    let st1 = match st.pending {
        Some(kw) => ExtractState {
            map: if st.map.contains_key(kw) {
                st.map
            } else {
                st.map.insert(kw, l)
            },
            pending: None,
            ..st
        },
        None => st,
    };
    match spec_classify(l) {
        LineClass::Word(kw) => ExtractState { pending: Some(kw), ..st1 },
        LineClass::Start(name) => ExtractState {
            in_sec: true,
            sec: name,
            acc: Seq::empty(),
            ..st1
        },
        LineClass::End(name) => if st1.in_sec && name == st1.sec {
            ExtractState {
                map: st1.map.insert(st1.sec, acc_pop(st1.acc)),
                in_sec: false,
                acc: acc_pop(st1.acc),
                ..st1
            }
        } else {
            st1
        },
        LineClass::KeyVal(k, v) => ExtractState { map: st1.map.insert(k, v), ..st1 },
        LineClass::Plain => if st1.in_sec {
            let t = trim(l);
            if t.len() > 0 {
                ExtractState { acc: st1.acc + t + seq![' '], ..st1 }
            } else {
                st1
            }
        } else {
            st1
        },
    }
}

/// The state after reading a list of lines in order.
pub open spec fn run_lines(ls: Seq<Seq<char>>) -> ExtractState
    decreases ls.len(),
{
    if ls.len() == 0 {
        init_state()
    } else {
        step_line(run_lines(ls.drop_last()), ls.last())
    }
}

/// A decorative character stripped from a status value.
pub open spec fn is_deco(c: char) -> bool {
    c == '*' || c == '`'
}

/// The sequence without leading decorative characters.
pub open spec fn ltrim_deco(s: Seq<char>) -> Seq<char>
    decreases s.len(),
{
    if s.len() > 0 && is_deco(s[0]) {
        ltrim_deco(s.drop_first())
    } else {
        s
    }
}

/// The sequence without trailing decorative characters.
pub open spec fn rtrim_deco(s: Seq<char>) -> Seq<char>
    decreases s.len(),
{
    if s.len() > 0 && is_deco(s[s.len() - 1]) {
        rtrim_deco(s.drop_last())
    } else {
        s
    }
}

/// A status value cleaned up: whitespace trimmed, then decorative characters
/// stripped from both ends.
pub open spec fn clean_status(s: Seq<char>) -> Seq<char> {
    ltrim_deco(rtrim_deco(trim(s)))
}

/// The extractor's result on a whole text: the line pass, then the status
/// cleanup.
pub open spec fn spec_extract(text: Seq<char>) -> Map<Seq<char>, Seq<char>> {
    let m = run_lines(spec_lines(text)).map;
    if m.contains_key("STATUS"@) {
        m.insert("STATUS"@, clean_status(m["STATUS"@]))
    } else {
        m
    }
}

/// `ltrim_deco` drops exactly the decorative prefix.
proof fn lemma_ltrim_deco_skip(s: Seq<char>, k: int)
    requires
        0 <= k <= s.len(),
        forall|j: int| 0 <= j < k ==> is_deco(#[trigger] s[j]),
        k == s.len() || !is_deco(s[k]),
    ensures
        ltrim_deco(s) == s.skip(k),
    decreases k,
{
    if k == 0 {
        assert(s.skip(0) == s);
    } else {
        assert(is_deco(s[0]));
        lemma_ltrim_deco_skip(s.drop_first(), k - 1);
        assert(s.drop_first().skip(k - 1) == s.skip(k));
    }
}

/// `rtrim_deco` drops exactly the decorative suffix.
proof fn lemma_rtrim_deco_take(s: Seq<char>, k: int)
    requires
        0 <= k <= s.len(),
        forall|j: int| k <= j < s.len() ==> is_deco(#[trigger] s[j]),
        k == 0 || !is_deco(s[k - 1]),
    ensures
        rtrim_deco(s) == s.take(k),
    decreases s.len() - k,
{
    if k == s.len() {
        assert(s.take(k) == s);
    } else {
        assert(is_deco(s[s.len() - 1]));
        lemma_rtrim_deco_take(s.drop_last(), k);
        assert(s.drop_last().take(k) == s.take(k));
    }
}

/// Strips decorative characters from both ends of a character vector.
fn trim_deco_chars(v: &[char]) -> (r: Vec<char>)
    ensures
        r@ == ltrim_deco(rtrim_deco(v@)),
{
    let n = v.len();
    let mut hi: usize = n;
    while hi > 0 && (v[hi - 1] == '*' || v[hi - 1] == '`')
        invariant
            hi <= n,
            n == v@.len(),
            forall|j: int| hi <= j < n ==> is_deco(#[trigger] v@[j]),
        decreases hi,
    {
        hi = hi - 1;
    }
    proof {
        lemma_rtrim_deco_take(v@, hi as int);
    }
    let mut lo: usize = 0;
    while lo < hi && (v[lo] == '*' || v[lo] == '`')
        invariant
            lo <= hi <= n,
            n == v@.len(),
            forall|j: int| 0 <= j < lo ==> is_deco(#[trigger] v@[j]),
        decreases hi - lo,
    {
        lo = lo + 1;
    }
    proof {
        lemma_ltrim_deco_skip(v@.take(hi as int), lo as int);
    }
    let mut r: Vec<char> = Vec::new();
    let mut i: usize = lo;
    while i < hi
        invariant
            lo <= i <= hi <= n,
            n == v@.len(),
            r@ == v@.subrange(lo as int, i as int),
        decreases hi - i,
    {
        r.push(v[i]);
        i = i + 1;
        proof {
            assert(v@.subrange(lo as int, i as int) == v@.subrange(lo as int, i - 1).push(
                v@[i - 1],
            ));
        }
    }
    proof {
        assert(r@ == v@.take(hi as int).skip(lo as int));
    }
    r
}

/// Splits a text into its lines.
fn lines_of(text: &[char]) -> (r: Vec<Vec<char>>)
    ensures
        r.deep_view() == spec_lines(text@),
{
    let n = text.len();
    let mut r: Vec<Vec<char>> = Vec::new();
    let mut pos: usize = 0;
    proof {
        assert(text@.skip(0) =~= text@);
        assert(r.deep_view() + spec_lines(text@) =~~= spec_lines(text@));
    }
    let mut done = false;
    while !done
        invariant
            pos <= n,
            n == text@.len(),
            !done ==> r.deep_view() + spec_lines(text@.skip(pos as int)) == spec_lines(text@),
            !done && pos == n ==> r.deep_view() == spec_lines(text@),
            done ==> r.deep_view() == spec_lines(text@),
        decreases (if done {
            0int
        } else {
            n - pos + 1
        }),
    {
        let ghost r_pre = r.deep_view();
        let ghost rest = text@.skip(pos as int);
        if pos == n {
            done = true;
        } else {
            let mut c = pos;
            while c < n && text[c] != '\n'
                invariant
                    pos <= c <= n,
                    n == text@.len(),
                    forall|j: int| pos <= j < c ==> text@[j] != '\n',
                decreases n - c,
            {
                c = c + 1;
            }
            proof {
                assert forall|j: int| 0 <= j < c - pos implies rest[j] != '\n' by {
                    assert(rest[j] == text@[pos + j]);
                }
                if c < n {
                    assert(rest[c - pos] == text@[c as int]);
                }
                lemma_find_char_is(rest, '\n', c - pos);
                assert(rest.take(c - pos) =~= text@.subrange(pos as int, c as int));
            }
            let mut line: Vec<char> = Vec::new();
            let mut i: usize = pos;
            let mut hi = c;
            if c > pos && text[c - 1] == '\r' {
                hi = c - 1;
            }
            proof {
                if c > pos && text@[c - 1] == '\r' {
                    assert(strip_cr(rest.take(c - pos)) =~= text@.subrange(pos as int, c - 1));
                } else {
                    assert(strip_cr(rest.take(c - pos)) =~= text@.subrange(pos as int, c as int));
                }
            }
            while i < hi
                invariant
                    pos <= i <= hi <= n,
                    n == text@.len(),
                    line@ == text@.subrange(pos as int, i as int),
                decreases hi - i,
            {
                line.push(text[i]);
                i = i + 1;
                proof {
                    assert(text@.subrange(pos as int, i as int) == text@.subrange(
                        pos as int,
                        i - 1,
                    ).push(text@[i - 1]));
                }
            }
            r.push(line);
            proof {
                assert(r.deep_view() =~~= r_pre.push(strip_cr(rest.take(c - pos))));
            }
            if c < n {
                proof {
                    assert(text@.skip(c + 1) =~= rest.skip(c - pos + 1));
                    assert(rest.len() > 0);
                    assert(r.deep_view() + spec_lines(text@.skip(c + 1)) =~~= spec_lines(text@));
                }
                pos = c + 1;
                if pos == n {
                    proof {
                        assert(text@.skip(pos as int) =~= Seq::<char>::empty());
                        assert(r.deep_view() + spec_lines(text@.skip(pos as int)) =~~= r.deep_view());
                    }
                }
            } else {
                done = true;
                proof {
                    assert(rest.len() > 0);
                    assert(rest.take(c - pos) =~= rest);
                    assert(r.deep_view() =~~= spec_lines(text@));
                }
            }
        }
    }
    r
}

/// What one line is, in executable form; its view is the classification.
pub enum LineKind {
    KeyVal(String, String),
    Start(String),
    End(String),
    Word(String),
    Plain,
}

impl View for LineKind {
    type V = LineClass;

    open spec fn view(&self) -> LineClass {
        match self {
            LineKind::KeyVal(k, v) => LineClass::KeyVal(k@, v@),
            LineKind::Start(n) => LineClass::Start(n@),
            LineKind::End(n) => LineClass::End(n@),
            LineKind::Word(n) => LineClass::Word(n@),
            LineKind::Plain => LineClass::Plain,
        }
    }
}

/// Advances past whitespace, executable form.
fn skip_ws_exec(l: &[char], start: usize) -> (r: usize)
    requires
        start <= l@.len(),
    ensures
        r == skip_ws(l@, start as int),
        start <= r <= l@.len(),
        r == l@.len() || !is_ws(l@[r as int]),
    decreases l@.len() - start,
{
    let n = l.len();
    let mut i = start;
    while i < n && ws_char(l[i])
        invariant
            start <= i <= n,
            n == l@.len(),
            forall|j: int| start <= j < i ==> is_ws(#[trigger] l@[j]),
        decreases n - i,
    {
        i = i + 1;
    }
    proof {
        lemma_skip_ws_is(l@, start as int, i as int);
    }
    i
}

/// Tests the annotation closer at one position, executable form.
fn marker_at_exec(l: &[char], j: usize) -> (r: bool)
    requires
        j < l@.len(),
    ensures
        r == marker_at(l@, j as int),
{
    if l[j] != '-' {
        return false;
    }
    let a = skip_ws_exec(l, j + 1);
    if a >= l.len() || l[a] != '-' {
        return false;
    }
    let b = skip_ws_exec(l, a + 1);
    b < l.len() && l[b] == '>'
}

/// The longest word-character prefix, executable form.
fn word_prefix_exec(c: &[char]) -> (r: usize)
    ensures
        r == word_prefix(c@, 0),
        r <= c@.len(),
{
    let n = c.len();
    let mut i: usize = 0;
    while i < n && word_char(c[i])
        invariant
            i <= n,
            n == c@.len(),
            forall|j: int| 0 <= j < i ==> is_word(#[trigger] c@[j]),
        decreases n - i,
    {
        i = i + 1;
    }
    proof {
        lemma_word_prefix_is(c@, 0, i as int);
    }
    i
}

/// Whether every character is a word character, executable form.
fn all_word_exec(c: &[char]) -> (r: bool)
    ensures
        r == all_word(c@),
{
    let n = c.len();
    let mut i: usize = 0;
    while i < n
        invariant
            i <= n,
            n == c@.len(),
            forall|j: int| 0 <= j < i ==> is_word(#[trigger] c@[j]),
        decreases n - i,
    {
        if !word_char(c[i]) {
            return false;
        }
        i = i + 1;
    }
    true
}

/// ASCII upper-casing of a character vector.
fn upper_chars(v: &[char]) -> (r: Vec<char>)
    ensures
        r@ == upper_seq(v@),
{
    let n = v.len();
    let mut r: Vec<char> = Vec::new();
    let mut i: usize = 0;
    while i < n
        invariant
            i <= n,
            n == v@.len(),
            r@ == upper_seq(v@).take(i as int),
        decreases n - i,
    {
        r.push(upper_char_exec(v[i]));
        i = i + 1;
        proof {
            assert(upper_seq(v@).take(i as int) == upper_seq(v@).take(i - 1).push(
                upper_seq(v@)[i - 1],
            ));
        }
    }
    proof {
        assert(upper_seq(v@).take(n as int) == upper_seq(v@));
    }
    r
}

/// Reads a section declaration ending in the given marker word, executable
/// form.
fn sec_name_exec(c: &[char], kw: &[char]) -> (r: Option<String>)
    ensures
        match r {
            Some(s) => sec_name(c@, kw@) == Some(s@),
            None => sec_name(c@, kw@) is None,
        },
{
    let n = c.len();
    let k = kw.len();
    if n < k {
        return None;
    }
    let tail = upper_chars(slice_subrange(c, n - k, n));
    proof {
        assert(c@.subrange(n - k, n as int) =~= c@.skip(n - k));
    }
    if !crate::chars::chars_eq(tail.as_slice(), kw) {
        return None;
    }
    let w = trim_chars(slice_subrange(c, 0, n - k));
    proof {
        assert(c@.subrange(0, n - k) =~= c@.take(n - k));
    }
    if w.len() > 0 && all_word_exec(w.as_slice()) {
        Some(chars_to_string(upper_chars(w.as_slice()).as_slice()))
    } else {
        None
    }
}

/// Classifies one line, executable form.
fn classify_line(l: &[char]) -> (r: LineKind)
    ensures
        r@ == spec_classify(l@),
{
    let n = l.len();
    let i0 = skip_ws_exec(l, 0);
    if i0 >= n || n - i0 < 4 {
        return LineKind::Plain;
    }
    if !(l[i0] == '<' && l[i0 + 1] == '!' && l[i0 + 2] == '-' && l[i0 + 3] == '-') {
        return LineKind::Plain;
    }
    let cs = skip_ws_exec(l, i0 + 4);
    let mut m = cs;
    while m < n && !marker_at_exec(l, m)
        invariant
            cs <= m <= n,
            n == l@.len(),
            forall|j: int| cs <= j < m ==> !marker_at(l@, j),
        decreases n - m,
    {
        m = m + 1;
    }
    proof {
        lemma_find_marker_is(l@, cs as int, m as int);
    }
    if m >= n {
        return LineKind::Plain;
    }
    let content = trim_chars(slice_subrange(l, cs, m));
    let c = content.as_slice();
    let ghost cv = trim(l@.subrange(cs as int, m as int));
    let w = word_prefix_exec(c);
    if w < c.len() && c[w] == ':' {
        let key = chars_to_string(upper_chars(slice_subrange(c, 0, w)).as_slice());
        let val = chars_to_string(trim_chars(slice_subrange(c, w + 1, c.len())).as_slice());
        proof {
            assert(c@.subrange(0, w as int) =~= cv.take(w as int));
            assert(c@.subrange(w + 1, c@.len() as int) =~= cv.skip(w + 1));
        }
        return LineKind::KeyVal(key, val);
    }
    match sec_name_exec(c, &['S', 'T', 'A', 'R', 'T']) {
        Some(name) => {
            proof {
                assert((&['S', 'T', 'A', 'R', 'T'])@ =~= seq!['S', 'T', 'A', 'R', 'T']);
            }
            return LineKind::Start(name);
        },
        None => {
            proof {
                assert((&['S', 'T', 'A', 'R', 'T'])@ =~= seq!['S', 'T', 'A', 'R', 'T']);
            }
        },
    }
    match sec_name_exec(c, &['E', 'N', 'D']) {
        Some(name) => {
            proof {
                assert((&['E', 'N', 'D'])@ =~= seq!['E', 'N', 'D']);
            }
            return LineKind::End(name);
        },
        None => {
            proof {
                assert((&['E', 'N', 'D'])@ =~= seq!['E', 'N', 'D']);
            }
        },
    }
    if content.len() > 0 && all_word_exec(c) {
        return LineKind::Word(chars_to_string(upper_chars(c).as_slice()));
    }
    LineKind::Plain
}

/// Appends characters to the accumulator.
fn push_chars(acc: &mut Vec<char>, t: &[char])
    ensures
        final(acc)@ == old(acc)@ + t@,
{
    let n = t.len();
    let mut i: usize = 0;
    while i < n
        invariant
            i <= n,
            n == t@.len(),
            acc@ == old(acc)@ + t@.take(i as int),
        decreases n - i,
    {
        acc.push(t[i]);
        i = i + 1;
        proof {
            assert(old(acc)@ + t@.take(i as int) =~= (old(acc)@ + t@.take(i - 1)).push(t@[i - 1]));
        }
    }
    proof {
        assert(old(acc)@ + t@.take(n as int) =~= old(acc)@ + t@);
    }
}

/// Namespace for the extractor.
pub struct Metadata;

impl Metadata {
    /// Runs the extractor over a whole text and returns the recovered map.
    pub fn extract(text: &str) -> (r: StrMap)
        ensures
            r.wf(),
            r.as_map() == spec_extract(text@),
    {
        let chars = to_chars(text);
        let lines = lines_of(chars.as_slice());
        let ghost lv = lines.deep_view();
        let mut map = StrMap::new();
        let mut pending: Option<String> = None;
        let mut in_sec = false;
        let mut sec = String::new();
        let mut acc: Vec<char> = Vec::new();
        let mut i: usize = 0;
        proof {
            assert(lv.take(0) =~= Seq::<Seq<char>>::empty());
        }
        let n = lines.len();
        while i < n
            invariant
                i <= n,
                n == lines@.len(),
                lines.deep_view() == lv,
                lv == spec_lines(text@),
                map.wf(),
                map.as_map() == run_lines(lv.take(i as int)).map,
                pending.deep_view() == run_lines(lv.take(i as int)).pending,
                in_sec == run_lines(lv.take(i as int)).in_sec,
                in_sec ==> sec@ == run_lines(lv.take(i as int)).sec,
                acc@ == run_lines(lv.take(i as int)).acc,
            decreases n - i,
        {
            let ghost st = run_lines(lv.take(i as int));
            let line = &lines[i];
            proof {
                assert(lv.take(i + 1).drop_last() =~= lv.take(i as int));
                assert(lv.take(i + 1).last() == lv[i as int]);
                assert(lv[i as int] == lines@[i as int].deep_view());
                assert(lv[i as int] =~= line@);
            }
            let ghost st1 = (match st.pending {
                Some(kw) => ExtractState {
                    map: if st.map.contains_key(kw) {
                        st.map
                    } else {
                        st.map.insert(kw, line@)
                    },
                    pending: None,
                    ..st
                },
                None => st,
            });
            match &pending {
                Some(kw) => {
                    let kwc = kw.clone();
                    let lc = chars_to_string(line.as_slice());
                    map.insert_if_absent(kwc, lc);
                },
                None => {},
            }
            pending = None;
            proof {
                assert(map.as_map() == st1.map);
            }
            let k = classify_line(line.as_slice());
            match k {
                LineKind::Word(kw) => {
                    pending = Some(kw);
                },
                LineKind::Start(name) => {
                    sec = name;
                    acc = Vec::new();
                    in_sec = true;
                },
                LineKind::End(name) => {
                    if in_sec && str_eq(name.as_str(), sec.as_str()) {
                        if acc.len() > 0 {
                            let _ = acc.pop();
                        }
                        let sc = sec.clone();
                        let av = chars_to_string(acc.as_slice());
                        map.insert(sc, av);
                        in_sec = false;
                        proof {
                            assert(acc@ =~= acc_pop(st1.acc));
                        }
                    }
                },
                LineKind::KeyVal(kk, vv) => {
                    map.insert(kk, vv);
                },
                LineKind::Plain => {
                    if in_sec {
                        let t = trim_chars(line.as_slice());
                        if t.len() > 0 {
                            push_chars(&mut acc, t.as_slice());
                            acc.push(' ');
                            proof {
                                assert(acc@ =~= st1.acc + trim(line@) + seq![' ']);
                            }
                        }
                    }
                },
            }
            i = i + 1;
            proof {
                assert(run_lines(lv.take(i as int)) == step_line(st, lv[i - 1]));
            }
        }
        proof {
            assert(lv.take(n as int) =~= lv);
        }
        let has_status = map.contains_key("STATUS");
        proof {
            crate::strmap::lemma_pairs_map(map@);
        }
        if has_status {
            let sv = match map.get("STATUS") {
                Some(v) => v.clone(),
                None => String::new(),
            };
            let cleaned = trim_deco_chars(trim_chars(to_chars(sv.as_str()).as_slice()).as_slice());
            let key = chars_to_string(to_chars("STATUS").as_slice());
            map.insert(key, chars_to_string(cleaned.as_slice()));
        }
        map
    }
}

/// A character that can stand in a URL-like token: a word character or one
/// of the punctuation marks common in schemes, domains, paths and queries.
pub open spec fn is_url_char(c: char) -> bool {
    is_word(c) || c == '-' || c == '@' || c == ':' || c == '%' || c == '.' || c == '+' || c == '~'
        || c == '#' || c == '=' || c == '/' || c == '?' || c == '&'
}

/// A lower-case ASCII letter.
pub open spec fn is_lower_alpha(c: char) -> bool {
    'a' <= c && c <= 'z'
}

/// A character that can stand in a domain: a URL character other than the
/// path and query punctuation.
pub open spec fn is_domain_char(c: char) -> bool {
    is_url_char(c) && c != '/' && c != '?' && c != '&'
}

/// The length of the maximal run of lower-case letters starting at `i`.
pub open spec fn lower_run(t: Seq<char>, i: int) -> int
    decreases t.len() - i,
{
    if 0 <= i < t.len() && is_lower_alpha(t[i]) {
        1 + lower_run(t, i + 1)
    } else {
        0
    }
}

/// Characterization of `lower_run`.
pub proof fn lemma_lower_run_is(t: Seq<char>, start: int, e: int)
    requires
        0 <= start <= e <= t.len(),
        forall|j: int| start <= j < e ==> is_lower_alpha(#[trigger] t[j]),
        e == t.len() || !is_lower_alpha(t[e]),
    ensures
        lower_run(t, start) == e - start,
    decreases e - start,
{
    if start < e {
        lemma_lower_run_is(t, start + 1, e);
    }
}

/// A domain's ending stands at position `i` of the token: a dot with at
/// least two domain characters before it, followed by a run of two to six
/// lower-case letters that ends the token or hits a non-word character.
pub open spec fn url_dot_at(t: Seq<char>, i: int) -> bool {
    &&& 2 <= i < t.len()
    &&& t[i] == '.'
    &&& is_domain_char(t[i - 1])
    &&& is_domain_char(t[i - 2])
    &&& ({
        let run = lower_run(t, i + 1);
        &&& 2 <= run <= 6
        &&& (i + 1 + run == t.len() || !is_word(t[i + 1 + run]))
    })
}

/// Whether a token looks like a URL: somewhere a domain's ending stands —
/// a dot preceded by at least two domain characters and followed by a
/// two-to-six-letter lower-case ending at a word boundary.
pub open spec fn url_like(t: Seq<char>) -> bool {
    exists|i: int| #[trigger] url_dot_at(t, i)
}

/// The first position at or after `i` holding a URL character, or the
/// length.
pub open spec fn skip_non_url(l: Seq<char>, i: int) -> int
    decreases l.len() - i,
{
    if i < 0 {
        i
    } else if i < l.len() && !is_url_char(l[i]) {
        skip_non_url(l, i + 1)
    } else {
        i
    }
}

/// The first position at or after `i` holding a non-URL character, or the
/// length.
pub open spec fn skip_url(l: Seq<char>, i: int) -> int
    decreases l.len() - i,
{
    if i < 0 {
        i
    } else if i < l.len() && is_url_char(l[i]) {
        skip_url(l, i + 1)
    } else {
        i
    }
}

/// Characterization of `skip_non_url`.
pub proof fn lemma_skip_non_url_is(l: Seq<char>, start: int, i: int)
    requires
        0 <= start <= i <= l.len(),
        forall|j: int| start <= j < i ==> !is_url_char(#[trigger] l[j]),
        i == l.len() || is_url_char(l[i]),
    ensures
        skip_non_url(l, start) == i,
    decreases i - start,
{
    if start < i {
        lemma_skip_non_url_is(l, start + 1, i);
    }
}

/// Characterization of `skip_url`.
pub proof fn lemma_skip_url_is(l: Seq<char>, start: int, i: int)
    requires
        0 <= start <= i <= l.len(),
        forall|j: int| start <= j < i ==> is_url_char(#[trigger] l[j]),
        i == l.len() || !is_url_char(l[i]),
    ensures
        skip_url(l, start) == i,
    decreases i - start,
{
    if start < i {
        lemma_skip_url_is(l, start + 1, i);
    }
}

/// The URL-like tokens of a line from position `i` on: maximal runs of URL
/// characters, kept when they look like a URL.
pub open spec fn spec_urls_from(l: Seq<char>, i: int) -> Seq<Seq<char>>
    decreases l.len() - i,
{
    if i < 0 || i >= l.len() {
        Seq::<Seq<char>>::empty()
    } else {
        let s = skip_non_url(l, i);
        if !(i <= s < l.len()) {
            Seq::<Seq<char>>::empty()
        } else {
            let e = skip_url(l, s);
            if !(s < e <= l.len()) {
                Seq::<Seq<char>>::empty()
            } else {
                let t = l.subrange(s, e);
                (if url_like(t) {
                    seq![t]
                } else {
                    Seq::<Seq<char>>::empty()
                }) + spec_urls_from(l, e)
            }
        }
    }
}

/// All URL-like tokens of a list of lines, in order.
pub open spec fn spec_extract_urls(input: Seq<Seq<char>>) -> Seq<Seq<char>>
    decreases input.len(),
{
    if input.len() == 0 {
        Seq::<Seq<char>>::empty()
    } else {
        spec_extract_urls(input.drop_last()) + spec_urls_from(input.last(), 0)
    }
}

/// A domain character, executable form.
fn domain_char_exec(c: char) -> (r: bool)
    ensures
        r == is_domain_char(c),
{
    (crate::chars::word_char(c) || c == '-' || c == '@' || c == ':' || c == '%' || c == '.' || c
        == '+' || c == '~' || c == '#' || c == '=') && c != '/' && c != '?' && c != '&'
}

/// Whether a token looks like a URL, executable form.
fn url_like_exec(t: &[char]) -> (r: bool)
    ensures
        r == url_like(t@),
{
    let n = t.len();
    let mut i: usize = 2;
    while i < n
        invariant
            2 <= i,
            i <= n || n < 2,
            n == t@.len(),
            forall|j: int| 2 <= j < i ==> !url_dot_at(t@, j),
        decreases n - i,
    {
        if t[i] == '.' && domain_char_exec(t[i - 1]) && domain_char_exec(t[i - 2]) {
            let mut e = i + 1;
            while e < n && 'a' <= t[e] && t[e] <= 'z'
                invariant
                    i + 1 <= e <= n,
                    n == t@.len(),
                    forall|j: int| i + 1 <= j < e ==> is_lower_alpha(#[trigger] t@[j]),
                decreases n - e,
            {
                e = e + 1;
            }
            proof {
                lemma_lower_run_is(t@, i + 1, e as int);
            }
            let run = e - (i + 1);
            let boundary = e == n || !crate::chars::word_char(t[e]);
            if 2 <= run && run <= 6 && boundary {
                proof {
                    assert(url_dot_at(t@, i as int));
                }
                return true;
            }
            proof {
                assert(!url_dot_at(t@, i as int));
            }
        }
        i = i + 1;
    }
    proof {
        assert forall|j: int| !(#[trigger] url_dot_at(t@, j)) by {
            if url_dot_at(t@, j) {
                assert(2 <= j < t@.len());
                assert(j < i);
            }
        }
    }
    false
}

/// The URL-like tokens found in one line.
fn urls_of_line(l: &[char]) -> (r: Vec<String>)
    ensures
        r.deep_view() == spec_urls_from(l@, 0),
{
    let n = l.len();
    let mut r: Vec<String> = Vec::new();
    let mut pos: usize = 0;
    proof {
        assert(r.deep_view() + spec_urls_from(l@, 0) =~~= spec_urls_from(l@, 0));
    }
    let mut done = false;
    while !done
        invariant
            pos <= n,
            n == l@.len(),
            !done ==> r.deep_view() + spec_urls_from(l@, pos as int) == spec_urls_from(l@, 0),
            done ==> r.deep_view() == spec_urls_from(l@, 0),
        decreases (if done {
            0int
        } else {
            n - pos + 1
        }),
    {
        let ghost r_pre = r.deep_view();
        let mut s = pos;
        while s < n && !crate::chars::word_char(l[s]) && l[s] != '-' && l[s] != '@' && l[s] != ':'
            && l[s] != '%' && l[s] != '.' && l[s] != '+' && l[s] != '~' && l[s] != '#' && l[s]
            != '=' && l[s] != '/' && l[s] != '?' && l[s] != '&'
            invariant
                pos <= s <= n,
                n == l@.len(),
                forall|j: int| pos <= j < s ==> !is_url_char(#[trigger] l@[j]),
            decreases n - s,
        {
            s = s + 1;
        }
        proof {
            lemma_skip_non_url_is(l@, pos as int, s as int);
        }
        if s >= n {
            done = true;
            proof {
                assert(spec_urls_from(l@, pos as int) =~~= Seq::<Seq<char>>::empty());
                assert(r.deep_view() =~~= spec_urls_from(l@, 0));
            }
        } else {
            let mut e = s;
            while e < n && (crate::chars::word_char(l[e]) || l[e] == '-' || l[e] == '@' || l[e]
                == ':' || l[e] == '%' || l[e] == '.' || l[e] == '+' || l[e] == '~' || l[e] == '#'
                || l[e] == '=' || l[e] == '/' || l[e] == '?' || l[e] == '&')
                invariant
                    s <= e <= n,
                    n == l@.len(),
                    forall|j: int| s <= j < e ==> is_url_char(#[trigger] l@[j]),
                decreases n - e,
            {
                e = e + 1;
            }
            proof {
                lemma_skip_url_is(l@, s as int, e as int);
                assert(is_url_char(l@[s as int]));
                assert(e > s);
            }
            let tok = slice_subrange(l, s, e);
            if url_like_exec(tok) {
                r.push(chars_to_string(tok));
                proof {
                    assert(r.deep_view() =~~= r_pre.push(l@.subrange(s as int, e as int)));
                }
            }
            proof {
                assert(r.deep_view() + spec_urls_from(l@, e as int) =~~= spec_urls_from(l@, 0));
            }
            pos = e;
        }
    }
    r
}

/// Finds every URL-like token in a whole text, line by line. A token is a
/// maximal run of URL characters and is kept whole, so a path or query tail
/// stays attached and spaces never join a token.
pub fn urls_of_text(text: &str) -> (r: Vec<String>)
    ensures
        r.deep_view() == spec_extract_urls(spec_lines(text@)),
{
    let chars = to_chars(text);
    let lines = lines_of(chars.as_slice());
    let ghost lv = lines.deep_view();
    let mut r: Vec<String> = Vec::new();
    let mut i: usize = 0;
    let n = lines.len();
    proof {
        assert(lv.take(0) =~= Seq::<Seq<char>>::empty());
        assert(r.deep_view() =~~= spec_extract_urls(lv.take(0)));
    }
    while i < n
        invariant
            i <= n,
            n == lines@.len(),
            lines.deep_view() == lv,
            lv == spec_lines(text@),
            r.deep_view() == spec_extract_urls(lv.take(i as int)),
        decreases n - i,
    {
        let line_urls = urls_of_line(lines[i].as_slice());
        proof {
            assert(lines@[i as int].deep_view() =~= lines@[i as int]@);
            assert(lv[i as int] == lines@[i as int].deep_view());
        }
        let ghost r_pre = r@;
        let ghost r_pre_deep = r.deep_view();
        let mut j: usize = 0;
        let m = line_urls.len();
        while j < m
            invariant
                j <= m,
                m == line_urls@.len(),
                r@ == r_pre + line_urls@.take(j as int),
            decreases m - j,
        {
            let u = line_urls[j].clone();
            r.push(u);
            j = j + 1;
            proof {
                assert(r@ =~= r_pre + line_urls@.take(j as int));
            }
        }
        i = i + 1;
        proof {
            assert(line_urls@.take(m as int) =~= line_urls@);
            assert(r@ == r_pre + line_urls@);
            assert(r.deep_view() =~~= r_pre_deep + line_urls.deep_view());
            assert(lv.take(i as int).drop_last() =~= lv.take(i - 1));
            assert(lv.take(i as int).last() == lv[i - 1]);
            assert(r.deep_view() =~~= spec_extract_urls(lv.take(i as int)));
        }
    }
    proof {
        assert(lv.take(n as int) =~= lv);
    }
    r
}

/// Finds every URL-like token in the given lines, in order. A token is a
/// maximal run of URL characters and is kept whole, so a path or query tail
/// stays attached and spaces never join a token; it counts as a URL when it
/// holds a domain's ending (see `url_dot_at`).
pub fn extract_urls(input: &Vec<&str>) -> (r: Vec<String>)
    ensures
        r.deep_view() == spec_extract_urls(input.deep_view()),
{
    let mut r: Vec<String> = Vec::new();
    let mut i: usize = 0;
    let n = input.len();
    proof {
        assert(input.deep_view().take(0) =~= Seq::<Seq<char>>::empty());
        assert(r.deep_view() =~~= spec_extract_urls(input.deep_view().take(0)));
    }
    while i < n
        invariant
            i <= n,
            n == input@.len(),
            r.deep_view() == spec_extract_urls(input.deep_view().take(i as int)),
        decreases n - i,
    {
        let ghost dv = input.deep_view();
        let chars = to_chars(input[i]);
        let line_urls = urls_of_line(chars.as_slice());
        let ghost r_pre = r@;
        let ghost r_pre_deep = r.deep_view();
        let mut j: usize = 0;
        let m = line_urls.len();
        while j < m
            invariant
                j <= m,
                m == line_urls@.len(),
                r@ == r_pre + line_urls@.take(j as int),
            decreases m - j,
        {
            let u = line_urls[j].clone();
            r.push(u);
            j = j + 1;
            proof {
                assert(r@ =~= r_pre + line_urls@.take(j as int));
            }
        }
        i = i + 1;
        proof {
            assert(line_urls@.take(m as int) =~= line_urls@);
            assert(r@ == r_pre + line_urls@);
            assert(r.deep_view() =~~= r_pre_deep + line_urls.deep_view());
            assert(dv.take(i as int).drop_last() =~= dv.take(i - 1));
            assert(dv.take(i as int).last() == dv[i - 1]);
            assert(chars@ == dv[i - 1]);
            assert(r.deep_view() =~~= spec_extract_urls(dv.take(i as int)));
        }
    }
    proof {
        assert(input.deep_view().take(n as int) =~= input.deep_view());
    }
    r
}

} // verus!
