//! Repository records and the field coercion cascade.
//!
//! A `Repo` is the canonical entity: identity, timestamps and, optionally,
//! typed `RepoDetails` recovered from annotation text. `RepoDetails::set`
//! interprets one raw key/value pair through an ordered cascade: first as a
//! plain string, then as a comma-separated list of strings, then as a list of
//! unsigned 32-bit integers written in decimal or in hexadecimal.

use vstd::prelude::*;

use crate::chars::find_char;
use crate::chars::lemma_find_char_is;
use crate::chars::is_digit;
use crate::chars::is_hex_digit;
use crate::chars::digit_val;
use crate::chars::hex_val;
use crate::chars::lower_seq;
use crate::chars::lower_str;
use crate::chars::str_eq;
use crate::chars::to_chars;
use crate::chars::trim;
use crate::chars::trim_chars;
use crate::chars::chars_to_string;
use crate::epoch::EpochType;
use crate::strmap::StrMap;
use vstd::slice::slice_subrange;

verus! {

/// The comma-separated tokens of a raw value: each piece trimmed of
/// whitespace, empty pieces dropped.
pub open spec fn spec_tokens(v: Seq<char>) -> Seq<Seq<char>>
    decreases v.len(),
{
    let i = find_char(v, ',');
    if 0 <= i && i < v.len() {
        let t = trim(v.take(i));
        (if t.len() > 0 {
            seq![t]
        } else {
            Seq::<Seq<char>>::empty()
        }) + spec_tokens(v.skip(i + 1))
    } else {
        let t = trim(v);
        if t.len() > 0 {
            seq![t]
        } else {
            Seq::<Seq<char>>::empty()
        }
    }
}

/// A non-empty, all-decimal-digit token.
pub open spec fn dec_digits(t: Seq<char>) -> bool {
    t.len() > 0 && forall|i: int| 0 <= i < t.len() ==> is_digit(#[trigger] t[i])
}

/// The value of a decimal digit string.
pub open spec fn dec_value(t: Seq<char>) -> int
    decreases t.len(),
{
    if t.len() == 0 {
        0
    } else {
        dec_value(t.drop_last()) * 10 + digit_val(t.last())
    }
}

/// A non-empty, all-hexadecimal-digit token.
pub open spec fn hex_digits(t: Seq<char>) -> bool {
    t.len() > 0 && forall|i: int| 0 <= i < t.len() ==> is_hex_digit(#[trigger] t[i])
}

/// The value of a hexadecimal digit string.
pub open spec fn hex_value(t: Seq<char>) -> int
    decreases t.len(),
{
    if t.len() == 0 {
        0
    } else {
        hex_value(t.drop_last()) * 16 + hex_val(t.last())
    }
}

/// How one token is read as an unsigned 32-bit integer: base 10 when it is
/// all decimal digits and fits, else base 16 after an optional leading `#`;
/// a token that fits neither reading is rejected.
pub open spec fn spec_parse_u32(t: Seq<char>) -> Option<u32> {
    if dec_digits(t) && dec_value(t) <= 0xFFFF_FFFF {
        Some(dec_value(t) as u32)
    } else {
        let h = if t.len() > 0 && t[0] == '#' {
            t.drop_first()
        } else {
            t
        };
        if hex_digits(h) && hex_value(h) <= 0xFFFF_FFFF {
            Some(hex_value(h) as u32)
        } else {
            None
        }
    }
}

/// The integers read from a token list, in order; unreadable tokens are
/// dropped.
pub open spec fn spec_color_list(toks: Seq<Seq<char>>) -> Seq<u32>
    decreases toks.len(),
{
    if toks.len() == 0 {
        Seq::<u32>::empty()
    } else {
        spec_color_list(toks.drop_last()) + (match spec_parse_u32(toks.last()) {
            Some(v) => seq![v],
            None => Seq::<u32>::empty(),
        })
    }
}

/// The mathematical shape of a `RepoDetails` value.
pub struct DetailsView {
    pub project: Option<Seq<char>>,
    pub main: Option<Seq<char>>,
    pub title: Option<Seq<char>>,
    pub font: Option<Seq<Seq<char>>>,
    pub color: Option<Seq<u32>>,
    pub keywords: Option<Seq<Seq<char>>>,
    pub languages: Option<Seq<Seq<char>>>,
    pub technology: Option<Seq<Seq<char>>>,
    pub children: Option<Seq<char>>,
    pub status: Option<Seq<char>>,
    pub description: Option<Seq<char>>,
}

impl DetailsView {
    /// All fields absent.
    pub open spec fn empty() -> DetailsView {
        DetailsView {
            project: None,
            main: None,
            title: None,
            font: None,
            color: None,
            keywords: None,
            languages: None,
            technology: None,
            children: None,
            status: None,
            description: None,
        }
    }
}

/// What one cascade step does: the details after the step and whether any
/// field was set. The key is ASCII-lower-cased before dispatch.
pub open spec fn spec_details_set(d: DetailsView, key: Seq<char>, val: Seq<char>) -> (
    DetailsView,
    bool,
) {
    let nk = lower_seq(key);
    if nk == "project"@ {
        (DetailsView { project: Some(val), ..d }, true)
    } else if nk == "main"@ {
        (DetailsView { main: Some(val), ..d }, true)
    } else if nk == "title"@ {
        (DetailsView { title: Some(val), ..d }, true)
    } else if nk == "children"@ {
        (DetailsView { children: Some(val), ..d }, true)
    } else if nk == "status"@ {
        (DetailsView { status: Some(val), ..d }, true)
    } else if nk == "description"@ {
        (DetailsView { description: Some(val), ..d }, true)
    } else if nk == "font"@ {
        let toks = spec_tokens(val);
        if toks.len() > 0 {
            (DetailsView { font: Some(toks), ..d }, true)
        } else {
            (d, false)
        }
    } else if nk == "keywords"@ {
        let toks = spec_tokens(val);
        if toks.len() > 0 {
            (DetailsView { keywords: Some(toks), ..d }, true)
        } else {
            (d, false)
        }
    } else if nk == "languages"@ {
        let toks = spec_tokens(val);
        if toks.len() > 0 {
            (DetailsView { languages: Some(toks), ..d }, true)
        } else {
            (d, false)
        }
    } else if nk == "technology"@ {
        let toks = spec_tokens(val);
        if toks.len() > 0 {
            (DetailsView { technology: Some(toks), ..d }, true)
        } else {
            (d, false)
        }
    } else if nk == "color"@ {
        let ints = spec_color_list(spec_tokens(val));
        if ints.len() > 0 {
            (DetailsView { color: Some(ints), ..d }, true)
        } else {
            (d, false)
        }
    } else {
        (d, false)
    }
}

/// The details built by running the cascade over a pair list in order,
/// together with whether any pair set a field.
pub open spec fn spec_build_details(pairs: Seq<(Seq<char>, Seq<char>)>) -> (DetailsView, bool)
    decreases pairs.len(),
{
    if pairs.len() == 0 {
        (DetailsView::empty(), false)
    } else {
        let prev = spec_build_details(pairs.drop_last());
        let step = spec_details_set(prev.0, pairs.last().0, pairs.last().1);
        (step.0, prev.1 || step.1)
    }
}

/// Typed metadata recovered from a record's annotation text. Every field is
/// optional; absence is distinct from emptiness.
#[derive(Debug, PartialEq, Eq, Default)]
pub struct RepoDetails {
    /// The project this repository belongs to, when it belongs to one.
    pub project: Option<String>,
    /// Marks this repository as its project's main one; the value itself
    /// does not matter.
    pub main: Option<String>,
    pub title: Option<String>,
    pub font: Option<Vec<String>>,
    pub color: Option<Vec<u32>>,
    pub keywords: Option<Vec<String>>,
    pub languages: Option<Vec<String>>,
    pub technology: Option<Vec<String>>,
    /// Child repository links; read only on a project's main repository.
    pub children: Option<String>,
    pub status: Option<String>,
    pub description: Option<String>,
}

impl View for RepoDetails {
    type V = DetailsView;

    open spec fn view(&self) -> DetailsView {
        DetailsView {
            project: self.project.deep_view(),
            main: self.main.deep_view(),
            title: self.title.deep_view(),
            font: self.font.deep_view(),
            color: self.color.deep_view(),
            keywords: self.keywords.deep_view(),
            languages: self.languages.deep_view(),
            technology: self.technology.deep_view(),
            children: self.children.deep_view(),
            status: self.status.deep_view(),
            description: self.description.deep_view(),
        }
    }
}

/// Splits a raw value at commas, trims each piece and drops empty pieces.
fn split_tokens(v: &[char]) -> (r: Vec<String>)
    ensures
        r.deep_view() == spec_tokens(v@),
{
    let n = v.len();
    let mut r: Vec<String> = Vec::new();
    let mut pos: usize = 0;
    let mut done = false;
    proof {
        assert(v@.skip(0) =~= v@);
        assert(r.deep_view() + spec_tokens(v@) =~~= spec_tokens(v@));
    }
    while !done
        invariant
            pos <= n,
            n == v@.len(),
            !done ==> r.deep_view() + spec_tokens(v@.skip(pos as int)) == spec_tokens(v@),
            done ==> r.deep_view() == spec_tokens(v@),
        decreases (if done {
            0int
        } else {
            n - pos + 1
        }),
    {
        let ghost r_pre = r.deep_view();
        let ghost rest = v@.skip(pos as int);
        let mut c = pos;
        while c < n && v[c] != ','
            invariant
                pos <= c <= n,
                n == v@.len(),
                forall|j: int| pos <= j < c ==> v@[j] != ',',
            decreases n - c,
        {
            c = c + 1;
        }
        proof {
            assert forall|j: int| 0 <= j < c - pos implies rest[j] != ',' by {
                assert(rest[j] == v@[pos + j]);
            }
            if c < n {
                assert(rest[c - pos] == v@[c as int]);
            }
            lemma_find_char_is(rest, ',', c - pos);
        }
        let seg = slice_subrange(v, pos, c);
        let t = trim_chars(seg);
        proof {
            assert(rest.take(c - pos) =~= v@.subrange(pos as int, c as int));
        }
        if t.len() > 0 {
            let s = chars_to_string(t.as_slice());
            r.push(s);
            proof {
                assert(r.deep_view() =~~= r_pre.push(trim(rest.take(c - pos))));
            }
        }
        if c < n {
            proof {
                assert(v@.skip(c + 1) =~= rest.skip(c - pos + 1));
                assert(r.deep_view() + spec_tokens(v@.skip(c + 1)) =~~= spec_tokens(v@));
            }
            pos = c + 1;
        } else {
            done = true;
            proof {
                assert(spec_tokens(rest) == (if trim(rest).len() > 0 {
                    seq![trim(rest)]
                } else {
                    Seq::<Seq<char>>::empty()
                }));
                assert(rest.take(c - pos) =~= rest);
                assert(r.deep_view() =~~= spec_tokens(v@));
            }
        }
    }
    r
}

/// Reads a token as a decimal unsigned 32-bit integer.
fn parse_dec(t: &[char]) -> (r: Option<u32>)
    ensures
        r == (if dec_digits(t@) && dec_value(t@) <= 0xFFFF_FFFF {
            Some(dec_value(t@) as u32)
        } else {
            None::<u32>
        }),
{
    let n = t.len();
    if n == 0 {
        return None;
    }
    let mut acc: u64 = 0;
    let mut over = false;
    let mut i: usize = 0;
    while i < n
        invariant
            i <= n,
            n == t@.len(),
            forall|j: int| 0 <= j < i ==> is_digit(#[trigger] t@[j]),
            !over ==> acc == dec_value(t@.take(i as int)) && acc <= 0xFFFF_FFFFu64 * 10 + 9,
            over ==> dec_value(t@.take(i as int)) > 0xFFFF_FFFF,
        decreases n - i,
    {
        let c = t[i];
        if !('0' <= c && c <= '9') {
            proof {
                assert(!is_digit(t@[i as int]));
            }
            return None;
        }
        let d: u64 = (c as u32) as u64 - ('0' as u32) as u64;
        proof {
            assert(t@.take(i + 1).drop_last() =~= t@.take(i as int));
            assert(t@.take(i + 1).last() == t@[i as int]);
        }
        if over || acc > 0xFFFF_FFFF {
            over = true;
            proof {
                assert(dec_value(t@.take(i + 1)) > 0xFFFF_FFFF);
            }
        } else {
            acc = acc * 10 + d;
        }
        i = i + 1;
    }
    proof {
        assert(t@.take(n as int) =~= t@);
    }
    if over || acc > 0xFFFF_FFFF {
        None
    } else {
        Some(acc as u32)
    }
}

/// Reads a token as a hexadecimal unsigned 32-bit integer.
fn parse_hex(t: &[char]) -> (r: Option<u32>)
    ensures
        r == (if hex_digits(t@) && hex_value(t@) <= 0xFFFF_FFFF {
            Some(hex_value(t@) as u32)
        } else {
            None::<u32>
        }),
{
    let n = t.len();
    if n == 0 {
        return None;
    }
    let mut acc: u64 = 0;
    let mut over = false;
    let mut i: usize = 0;
    while i < n
        invariant
            i <= n,
            n == t@.len(),
            forall|j: int| 0 <= j < i ==> is_hex_digit(#[trigger] t@[j]),
            !over ==> acc == hex_value(t@.take(i as int)) && acc <= 0xFFFF_FFFFu64 * 16 + 15,
            over ==> hex_value(t@.take(i as int)) > 0xFFFF_FFFF,
        decreases n - i,
    {
        let c = t[i];
        let d: u64 = if '0' <= c && c <= '9' {
            (c as u32) as u64 - ('0' as u32) as u64
        } else if 'a' <= c && c <= 'f' {
            (c as u32) as u64 - ('a' as u32) as u64 + 10
        } else if 'A' <= c && c <= 'F' {
            (c as u32) as u64 - ('A' as u32) as u64 + 10
        } else {
            proof {
                assert(!is_hex_digit(t@[i as int]));
            }
            return None;
        };
        proof {
            assert(t@.take(i + 1).drop_last() =~= t@.take(i as int));
            assert(t@.take(i + 1).last() == t@[i as int]);
            assert(d == hex_val(t@[i as int]));
        }
        if over || acc > 0xFFFF_FFFF {
            over = true;
            proof {
                assert(hex_value(t@.take(i + 1)) > 0xFFFF_FFFF);
            }
        } else {
            acc = acc * 16 + d;
        }
        i = i + 1;
    }
    proof {
        assert(t@.take(n as int) =~= t@);
    }
    if over || acc > 0xFFFF_FFFF {
        None
    } else {
        Some(acc as u32)
    }
}

/// Reads one token as an unsigned 32-bit integer, decimal first, then
/// hexadecimal with an optional leading `#`.
fn parse_u32_token(t: &[char]) -> (r: Option<u32>)
    ensures
        r == spec_parse_u32(t@),
{
    match parse_dec(t) {
        Some(v) => Some(v),
        None => {
            let h: &[char] = if t.len() > 0 && t[0] == '#' {
                proof {
                    assert(t@.subrange(1, t@.len() as int) =~= t@.drop_first());
                }
                slice_subrange(t, 1, t.len())
            } else {
                t
            };
            parse_hex(h)
        },
    }
}

/// Reads a token list as integers, dropping unreadable tokens.
fn parse_color_list(toks: &Vec<String>) -> (r: Vec<u32>)
    ensures
        r@ == spec_color_list(toks.deep_view()),
{
    let mut r: Vec<u32> = Vec::new();
    let mut i: usize = 0;
    while i < toks.len()
        invariant
            i <= toks@.len(),
            r@ == spec_color_list(toks.deep_view().take(i as int)),
        decreases toks@.len() - i,
    {
        let chars = to_chars(toks[i].as_str());
        proof {
            assert(toks.deep_view().take(i + 1).drop_last() =~= toks.deep_view().take(i as int));
            assert(toks.deep_view().take(i + 1).last() == toks.deep_view()[i as int]);
            assert(chars@ == toks.deep_view()[i as int]);
        }
        match parse_u32_token(chars.as_slice()) {
            Some(v) => {
                r.push(v);
            },
            None => {},
        }
        i = i + 1;
    }
    proof {
        assert(toks.deep_view().take(toks.deep_view().len() as int) =~= toks.deep_view());
    }
    r
}

impl RepoDetails {

    /// A fresh, all-absent details value.
    fn default_details() -> (r: RepoDetails)
        ensures
            r@ == DetailsView::empty(),
    {
        RepoDetails {
            project: None,
            main: None,
            title: None,
            font: None,
            color: None,
            keywords: None,
            languages: None,
            technology: None,
            children: None,
            status: None,
            description: None,
        }
    }

    /// Runs the coercion cascade for one raw key/value pair; reports whether
    /// any field was set.
    pub fn set(&mut self, key: &str, val: &str) -> (r: bool)
        ensures
            final(self)@ == spec_details_set(old(self)@, key@, val@).0,
            r == spec_details_set(old(self)@, key@, val@).1,
    {
        let nkey = lower_str(key);
        let nk = nkey.as_str();
        proof {
            assert(nk@ == lower_seq(key@));
        }
        if str_eq(nk, "project") {
            self.project = Some(val.to_owned());
            true
        } else if str_eq(nk, "main") {
            self.main = Some(val.to_owned());
            true
        } else if str_eq(nk, "title") {
            self.title = Some(val.to_owned());
            true
        } else if str_eq(nk, "children") {
            self.children = Some(val.to_owned());
            true
        } else if str_eq(nk, "status") {
            self.status = Some(val.to_owned());
            true
        } else if str_eq(nk, "description") {
            self.description = Some(val.to_owned());
            true
        } else if str_eq(nk, "font") {
            let toks = split_tokens(to_chars(val).as_slice());
            if toks.len() > 0 {
                self.font = Some(toks);
                true
            } else {
                false
            }
        } else if str_eq(nk, "keywords") {
            let toks = split_tokens(to_chars(val).as_slice());
            if toks.len() > 0 {
                self.keywords = Some(toks);
                true
            } else {
                false
            }
        } else if str_eq(nk, "languages") {
            let toks = split_tokens(to_chars(val).as_slice());
            if toks.len() > 0 {
                self.languages = Some(toks);
                true
            } else {
                false
            }
        } else if str_eq(nk, "technology") {
            let toks = split_tokens(to_chars(val).as_slice());
            if toks.len() > 0 {
                self.technology = Some(toks);
                true
            } else {
                false
            }
        } else if str_eq(nk, "color") {
            let toks = split_tokens(to_chars(val).as_slice());
            let ints = parse_color_list(&toks);
            if ints.len() > 0 {
                proof {
                    assert(ints.deep_view() =~= ints@);
                }
                self.color = Some(ints);
                true
            } else {
                false
            }
        } else {
            false
        }
    }
}

/// Copies an optional string with its contents.
pub(crate) fn clone_opt_string(o: &Option<String>) -> (r: Option<String>)
    ensures
        r.deep_view() == o.deep_view(),
{
    match o {
        Some(s) => Some(s.clone()),
        None => None,
    }
}

/// Copies an optional string list with its contents.
pub(crate) fn clone_opt_string_vec(o: &Option<Vec<String>>) -> (r: Option<Vec<String>>)
    ensures
        r.deep_view() == o.deep_view(),
{
    match o {
        Some(v) => {
            let mut out: Vec<String> = Vec::new();
            let mut i: usize = 0;
            while i < v.len()
                invariant
                    i <= v@.len(),
                    out@.len() == i,
                    forall|j: int| 0 <= j < i ==> #[trigger] out@[j]@ == v@[j]@,
                decreases v@.len() - i,
            {
                out.push(v[i].clone());
                i = i + 1;
            }
            proof {
                assert(out.deep_view() =~= v.deep_view());
            }
            Some(out)
        },
        None => None,
    }
}

/// Copies an optional integer list with its contents.
fn clone_opt_u32_vec(o: &Option<Vec<u32>>) -> (r: Option<Vec<u32>>)
    ensures
        r.deep_view() == o.deep_view(),
{
    match o {
        Some(v) => {
            let mut out: Vec<u32> = Vec::new();
            let mut i: usize = 0;
            while i < v.len()
                invariant
                    i <= v@.len(),
                    out@ == v@.take(i as int),
                decreases v@.len() - i,
            {
                out.push(v[i]);
                i = i + 1;
                proof {
                    assert(v@.take(i as int) =~= v@.take(i - 1).push(v@[i - 1]));
                }
            }
            proof {
                assert(v@.take(v@.len() as int) =~= v@);
                assert(out.deep_view() =~= v.deep_view());
            }
            Some(out)
        },
        None => None,
    }
}

impl Clone for RepoDetails {
    /// Cloning keeps every field's contents.
    fn clone(&self) -> (r: Self)
        ensures
            r@ == self@,
    {
        RepoDetails {
            project: clone_opt_string(&self.project),
            main: clone_opt_string(&self.main),
            title: clone_opt_string(&self.title),
            font: clone_opt_string_vec(&self.font),
            color: clone_opt_u32_vec(&self.color),
            keywords: clone_opt_string_vec(&self.keywords),
            languages: clone_opt_string_vec(&self.languages),
            technology: clone_opt_string_vec(&self.technology),
            children: clone_opt_string(&self.children),
            status: clone_opt_string(&self.status),
            description: clone_opt_string(&self.description),
        }
    }
}

/// The mathematical shape of a `Repo` value.
pub struct RepoView {
    pub uid: Seq<char>,
    pub id: Seq<char>,
    pub url: Seq<char>,
    pub name: Seq<char>,
    pub owner: Seq<char>,
    pub origin: Seq<char>,
    pub last_sync: EpochType,
    pub last_update: EpochType,
    pub details: Option<DetailsView>,
}

/// A single repository record. Identity is the `uid`, which is
/// `origin + "/" + id`; equality goes by the `uid` alone, while ordering goes
/// by `(last_update, uid)`.
#[derive(Debug)]
pub struct Repo {
    pub uid: String,
    pub id: String,
    pub url: String,
    pub name: String,
    pub owner: String,
    pub origin: String,
    pub last_sync: EpochType,
    pub last_update: EpochType,
    pub details: Option<RepoDetails>,
}

impl View for Repo {
    type V = RepoView;

    open spec fn view(&self) -> RepoView {
        RepoView {
            uid: self.uid@,
            id: self.id@,
            url: self.url@,
            name: self.name@,
            owner: self.owner@,
            origin: self.origin@,
            last_sync: self.last_sync,
            last_update: self.last_update,
            details: match self.details {
                Some(d) => Some(d@),
                None => None,
            },
        }
    }
}

impl PartialEq for Repo {
    /// Records are equal when their identities are: the `uid` alone decides.
    fn eq(&self, other: &Self) -> (r: bool) {
        self.uid == other.uid
    }
}

impl vstd::std_specs::cmp::PartialEqSpecImpl for Repo {
    open spec fn obeys_eq_spec() -> bool {
        true
    }

    open spec fn eq_spec(&self, other: &Self) -> bool {
        self.uid@ == other.uid@
    }
}

impl Eq for Repo {

}

impl Clone for Repo {
    /// Cloning keeps every field's contents.
    fn clone(&self) -> (r: Self)
        ensures
            r@ == self@,
    {
        Repo {
            uid: self.uid.clone(),
            id: self.id.clone(),
            url: self.url.clone(),
            name: self.name.clone(),
            owner: self.owner.clone(),
            origin: self.origin.clone(),
            last_sync: self.last_sync,
            last_update: self.last_update,
            details: match &self.details {
                Some(d) => Some(d.clone()),
                None => None,
            },
        }
    }
}

impl Repo {
    /// Builds a record from its plain fields and raw metadata. The cascade
    /// runs over every metadata pair in order; details are attached only when
    /// at least one pair set a field. The `uid` is `origin + "/" + id`.
    pub fn new(
        id: String,
        url: String,
        name: String,
        owner: String,
        origin: String,
        last_sync: EpochType,
        last_update: EpochType,
        metadata: &StrMap,
    ) -> (r: Repo)
        ensures
            r@.uid == origin@ + "/"@ + id@,
            r@.id == id@,
            r@.url == url@,
            r@.name == name@,
            r@.owner == owner@,
            r@.origin == origin@,
            r@.last_sync == last_sync,
            r@.last_update == last_update,
            r@.details == (if spec_build_details(metadata@).1 {
                Some(spec_build_details(metadata@).0)
            } else {
                None::<DetailsView>
            }),
    {
        let mut details = RepoDetails::default_details();
        let mut update = false;
        let n = metadata.len();
        let mut i: usize = 0;
        while i < n
            invariant
                i <= n,
                n == metadata@.len(),
                details@ == spec_build_details(metadata@.take(i as int)).0,
                update == spec_build_details(metadata@.take(i as int)).1,
            decreases n - i,
        {
            let (key, val) = metadata.pair(i);
            proof {
                assert(metadata@.take(i + 1).drop_last() =~= metadata@.take(i as int));
                assert(metadata@.take(i + 1).last() == metadata@[i as int]);
            }
            if details.set(key.as_str(), val.as_str()) {
                update = true;
            }
            i = i + 1;
        }
        proof {
            assert(metadata@.take(n as int) =~= metadata@);
        }
        let mut uid = origin.clone();
        uid.append("/");
        uid.append(id.as_str());
        Repo {
            uid,
            id,
            url,
            name,
            owner,
            origin,
            last_sync,
            last_update,
            details: if update {
                Some(details)
            } else {
                None
            },
        }
    }
}

} // verus!
