//! An ordered, identity-unique collection of repository records.
//!
//! Records are kept sorted ascending by `(last_update, uid)`; identity is the
//! `uid` alone. Equality and ordering thus deliberately disagree: inserting a
//! record whose `uid` is already present leaves the collection unchanged,
//! whatever its other fields hold, and the resident record survives.

use vstd::prelude::*;

use crate::chars::str_eq;
use crate::repo::Repo;
use crate::repo::RepoView;

verus! {

/// Strict lexicographic order on character sequences, by code point.
pub open spec fn str_lt(a: Seq<char>, b: Seq<char>) -> bool
    decreases a.len(),
{
    if b.len() == 0 {
        false
    } else if a.len() == 0 {
        true
    } else if a[0] != b[0] {
        a[0] < b[0]
    } else {
        str_lt(a.drop_first(), b.drop_first())
    }
}

/// The record order: ascending `last_update`, ties broken by `uid`.
pub open spec fn repo_lt(a: RepoView, b: RepoView) -> bool {
    a.last_update < b.last_update || (a.last_update == b.last_update && str_lt(a.uid, b.uid))
}

/// Two sequences are ordered one way or the other, unless they are equal.
pub proof fn lemma_str_lt_connex(a: Seq<char>, b: Seq<char>)
    ensures
        str_lt(a, b) || str_lt(b, a) || a == b,
    decreases a.len(),
{
    if a.len() == 0 && b.len() == 0 {
        assert(a =~= b);
    } else if a.len() > 0 && b.len() > 0 && a[0] == b[0] {
        lemma_str_lt_connex(a.drop_first(), b.drop_first());
        if a.drop_first() == b.drop_first() {
            assert(a.drop_first().len() == b.drop_first().len());
            assert(a.drop_first().len() == a.len() - 1);
            assert(b.drop_first().len() == b.len() - 1);
            assert(a.len() == b.len());
            assert forall|j: int| 0 <= j < a.len() implies a[j] == b[j] by {
                if j > 0 {
                    assert(a[j] == a.drop_first()[j - 1]);
                    assert(b[j] == b.drop_first()[j - 1]);
                }
            }
            assert(a =~= b);
        }
    } else {
    }
}

/// The order is asymmetric.
pub proof fn lemma_str_lt_asym(a: Seq<char>, b: Seq<char>)
    ensures
        !(str_lt(a, b) && str_lt(b, a)),
    decreases a.len(),
{
    if a.len() > 0 && b.len() > 0 && a[0] == b[0] {
        lemma_str_lt_asym(a.drop_first(), b.drop_first());
    }
}

/// The order is transitive.
pub proof fn lemma_str_lt_trans(a: Seq<char>, b: Seq<char>, c: Seq<char>)
    ensures
        str_lt(a, b) && str_lt(b, c) ==> str_lt(a, c),
    decreases a.len(),
{
    if str_lt(a, b) && str_lt(b, c) {
        if a.len() > 0 && b.len() > 0 && c.len() > 0 && a[0] == b[0] && b[0] == c[0] {
            lemma_str_lt_trans(a.drop_first(), b.drop_first(), c.drop_first());
        }
    }
}

/// Record order inherits transitivity.
pub proof fn lemma_repo_lt_trans(a: RepoView, b: RepoView, c: RepoView)
    ensures
        repo_lt(a, b) && repo_lt(b, c) ==> repo_lt(a, c),
{
    lemma_str_lt_trans(a.uid, b.uid, c.uid);
}

/// Ascending order over the whole sequence, every pair of positions.
pub open spec fn repo_sorted(s: Seq<RepoView>) -> bool {
    forall|i: int, j: int| 0 <= i < j < s.len() ==> repo_lt(#[trigger] s[i], #[trigger] s[j])
}

/// Some record in the sequence carries this identity.
pub open spec fn has_uid(s: Seq<RepoView>, uid: Seq<char>) -> bool {
    exists|i: int| 0 <= i < s.len() && (#[trigger] s[i]).uid == uid
}

/// All identities in the sequence are distinct.
pub open spec fn unique_uids(s: Seq<RepoView>) -> bool {
    forall|i: int, j: int| 0 <= i < j < s.len() ==> (#[trigger] s[i]).uid != (#[trigger] s[j]).uid
}

/// The set of identities a sequence of records carries.
pub open spec fn uid_set(s: Seq<RepoView>) -> Set<Seq<char>> {
    Set::new(|u: Seq<char>| has_uid(s, u))
}

/// Placement of a fresh record at its ordered position.
pub open spec fn sorted_ins(s: Seq<RepoView>, r: RepoView) -> Seq<RepoView>
    decreases s.len(),
{
    if s.len() == 0 {
        seq![r]
    } else if repo_lt(r, s[0]) {
        seq![r] + s
    } else {
        seq![s[0]] + sorted_ins(s.drop_first(), r)
    }
}

/// Insertion into the collection: a record whose identity is already present
/// is dropped; otherwise it takes its ordered position.
pub open spec fn spec_set_insert(s: Seq<RepoView>, r: RepoView) -> Seq<RepoView> {
    if has_uid(s, r.uid) {
        s
    } else {
        sorted_ins(s, r)
    }
}

/// Merging: every record of `inc` is inserted into `base` in order, so
/// records already in `base` keep priority on identity collision.
pub open spec fn spec_set_merge(base: Seq<RepoView>, inc: Seq<RepoView>) -> Seq<RepoView>
    decreases inc.len(),
{
    if inc.len() == 0 {
        base
    } else {
        spec_set_insert(spec_set_merge(base, inc.drop_last()), inc.last())
    }
}

/// Ordered placement at a known position: when everything before `i` is
/// below the record and everything from `i` on is above it, placement is
/// `Seq::insert` at `i`.
pub proof fn lemma_sorted_ins_at(s: Seq<RepoView>, r: RepoView, i: int)
    requires
        repo_sorted(s),
        0 <= i <= s.len(),
        forall|j: int| 0 <= j < i ==> repo_lt(#[trigger] s[j], r),
        i == s.len() || repo_lt(r, s[i]),
    ensures
        sorted_ins(s, r) == s.insert(i, r),
    decreases s.len(),
{
    if s.len() == 0 {
        assert(sorted_ins(s, r) =~= s.insert(0, r));
    } else if repo_lt(r, s[0]) {
        if i > 0 {
            assert(repo_lt(s[0], r));
            lemma_str_lt_asym(r.uid, s[0].uid);
            assert(false);
        }
        assert(sorted_ins(s, r) =~= s.insert(0, r));
    } else {
        if i == 0 {
            assert(repo_lt(r, s[0]));
            assert(false);
        }
        assert(repo_sorted(s.drop_first())) by {
            assert(forall|p: int, q: int|
                0 <= p < q < s.drop_first().len() ==> s.drop_first()[p] == s[p + 1]
                    && s.drop_first()[q] == s[q + 1]);
        }
        assert(forall|j: int| 0 <= j < i - 1 ==> repo_lt(#[trigger] s.drop_first()[j], r)) by {
            assert(forall|j: int| 0 <= j < i - 1 ==> s.drop_first()[j] == s[j + 1]);
        }
        if i - 1 < s.drop_first().len() {
            assert(s.drop_first()[i - 1] == s[i]);
        }
        lemma_sorted_ins_at(s.drop_first(), r, i - 1);
        assert(sorted_ins(s, r) =~= s.insert(i, r)) by {
            assert(sorted_ins(s, r) == seq![s[0]] + s.drop_first().insert(i - 1, r));
        }
    }
}

/// What insertion yields: order and uniqueness are kept, the identity set
/// grows by the new identity, and the length grows exactly on a fresh one.
pub proof fn lemma_set_insert_props(s: Seq<RepoView>, r: RepoView)
    requires
        repo_sorted(s),
        unique_uids(s),
    ensures
        repo_sorted(spec_set_insert(s, r)),
        unique_uids(spec_set_insert(s, r)),
        forall|u: Seq<char>|
            has_uid(spec_set_insert(s, r), u) <==> has_uid(s, u) || u == r.uid,
        spec_set_insert(s, r).len() == s.len() + (if has_uid(s, r.uid) {
            0int
        } else {
            1int
        }),
        forall|x: RepoView|
            #[trigger] spec_set_insert(s, r).contains(x) <==> s.contains(x) || (!has_uid(s, r.uid)
                && x == r),
{
    if has_uid(s, r.uid) {
        assert forall|u: Seq<char>|
            has_uid(spec_set_insert(s, r), u) <==> has_uid(s, u) || u == r.uid by {
            if u == r.uid {
                assert(has_uid(s, u));
            }
        }
    } else {
        let i = insert_position(s, r);
        lemma_sorted_ins_at(s, r, i);
        let ins = s.insert(i, r);
        assert(repo_sorted(ins)) by {
            assert forall|p: int, q: int| 0 <= p < q < ins.len() implies repo_lt(
                #[trigger] ins[p],
                #[trigger] ins[q],
            ) by {
                if p < i && q == i {
                } else if p == i && q > i {
                    assert(ins[q] == s[q - 1]);
                    if q - 1 > i {
                        assert(repo_lt(s[i as int], s[q - 1]));
                        lemma_repo_lt_trans(r, s[i as int], s[q - 1]);
                    }
                } else if p < i && q > i {
                    assert(ins[p] == s[p] && ins[q] == s[q - 1]);
                    if q - 1 == p {
                        assert(repo_lt(s[p], r));
                        assert(false);
                    }
                } else if p > i && q > i {
                    assert(ins[p] == s[p - 1] && ins[q] == s[q - 1]);
                } else {
                    assert(ins[p] == s[p] && ins[q] == s[q]);
                }
            }
        }
        assert(unique_uids(ins)) by {
            assert forall|p: int, q: int| 0 <= p < q < ins.len() implies (#[trigger] ins[p]).uid
                != (#[trigger] ins[q]).uid by {
                if p == i {
                    assert(ins[q] == s[q - 1]);
                    assert(!has_uid(s, r.uid));
                    if ins[q].uid == r.uid {
                        assert((s[q - 1]).uid == r.uid);
                        assert(has_uid(s, r.uid));
                    }
                } else if q == i {
                    assert(ins[p] == s[p]);
                    if ins[p].uid == r.uid {
                        assert(has_uid(s, r.uid));
                    }
                } else {
                    let p2 = if p < i {
                        p
                    } else {
                        p - 1
                    };
                    let q2 = if q < i {
                        q
                    } else {
                        q - 1
                    };
                    assert(ins[p] == s[p2] && ins[q] == s[q2]);
                }
            }
        }
        assert forall|u: Seq<char>|
            has_uid(ins, u) <==> has_uid(s, u) || u == r.uid by {
            if has_uid(ins, u) {
                let p = choose|p: int| 0 <= p < ins.len() && (#[trigger] ins[p]).uid == u;
                if p != i {
                    let p2 = if p < i {
                        p
                    } else {
                        p - 1
                    };
                    assert(ins[p] == s[p2]);
                    assert((s[p2]).uid == u);
                }
            }
            if has_uid(s, u) {
                let p = choose|p: int| 0 <= p < s.len() && (#[trigger] s[p]).uid == u;
                let p2 = if p < i {
                    p
                } else {
                    p + 1
                };
                assert(ins[p2] == s[p]);
                assert((ins[p2]).uid == u);
            }
            if u == r.uid {
                assert(ins[i].uid == u);
            }
        }
        assert forall|x: RepoView|
            #[trigger] ins.contains(x) <==> s.contains(x) || x == r by {
            if ins.contains(x) {
                let p = choose|p: int| 0 <= p < ins.len() && ins[p] == x;
                if p != i {
                    let p2 = if p < i {
                        p
                    } else {
                        p - 1
                    };
                    assert(s[p2] == x);
                    assert(s.contains(x));
                }
            }
            if s.contains(x) {
                let p = choose|p: int| 0 <= p < s.len() && s[p] == x;
                let p2 = if p < i {
                    p
                } else {
                    p + 1
                };
                assert(ins[p2] == x);
                assert(ins.contains(x));
            }
            if x == r {
                assert(ins[i] == x);
                assert(ins.contains(x));
            }
        }
    }
}

/// In a sorted sequence that lacks the record's identity, an ordered
/// position for it exists; this returns one.
proof fn insert_position(s: Seq<RepoView>, r: RepoView) -> (i: int)
    requires
        repo_sorted(s),
        !has_uid(s, r.uid),
    ensures
        0 <= i <= s.len(),
        forall|j: int| 0 <= j < i ==> repo_lt(#[trigger] s[j], r),
        i == s.len() || repo_lt(r, s[i]),
    decreases s.len(),
{
    if s.len() == 0 {
        0
    } else {
        lemma_str_lt_connex(r.uid, s[0].uid);
        assert(s[0].uid != r.uid);
        if repo_lt(r, s[0]) {
            0
        } else {
            assert(repo_lt(s[0], r));
            let tail = s.drop_first();
            assert(repo_sorted(tail)) by {
                assert(forall|p: int, q: int|
                    0 <= p < q < tail.len() ==> tail[p] == s[p + 1] && tail[q] == s[q + 1]);
            }
            assert(!has_uid(tail, r.uid)) by {
                if has_uid(tail, r.uid) {
                    let p = choose|p: int| 0 <= p < tail.len() && (#[trigger] tail[p]).uid == r.uid;
                    assert(tail[p] == s[p + 1]);
                    assert(has_uid(s, r.uid));
                }
            }
            let i0 = insert_position(tail, r);
            assert(forall|j: int| 0 <= j < i0 + 1 ==> repo_lt(#[trigger] s[j], r)) by {
                assert(forall|j: int| 1 <= j < i0 + 1 ==> s[j] == tail[j - 1]);
            }
            if i0 < tail.len() {
                assert(s[i0 + 1] == tail[i0]);
            }
            i0 + 1
        }
    }
}

/// An ordered, identity-unique set of repository records.
#[derive(Debug, PartialEq, Eq)]
pub struct RepoSet {
    repos: Vec<Repo>,
}

impl View for RepoSet {
    type V = Seq<RepoView>;

    closed spec fn view(&self) -> Seq<RepoView> {
        Seq::new(self.repos@.len(), |i: int| self.repos@[i]@)
    }
}

impl RepoSet {
    /// Sorted ascending with pairwise-distinct identities.
    pub open spec fn wf(&self) -> bool {
        repo_sorted(self@) && unique_uids(self@)
    }

    /// An empty collection.
    pub fn new() -> (r: RepoSet)
        ensures
            r@ == Seq::<RepoView>::empty(),
            r.wf(),
    {
        let r = RepoSet { repos: Vec::new() };
        proof {
            assert(r@ =~= Seq::<RepoView>::empty());
        }
        r
    }

    /// The number of records held.
    pub fn len(&self) -> (r: usize)
        ensures
            r == self@.len(),
    {
        self.repos.len()
    }

    /// Whether the collection holds no record.
    pub fn is_empty(&self) -> (r: bool)
        ensures
            r == (self@.len() == 0),
    {
        self.repos.len() == 0
    }

    /// The record at a position.
    pub fn get(&self, i: usize) -> (r: &Repo)
        requires
            i < self@.len(),
        ensures
            r@ == self@[i as int],
    {
        &self.repos[i]
    }

    /// Whether some record carries this identity.
    pub fn contains_uid(&self, uid: &str) -> (r: bool)
        ensures
            r == has_uid(self@, uid@),
    {
        let mut i: usize = 0;
        while i < self.repos.len()
            invariant
                i <= self@.len(),
                self@.len() == self.repos@.len(),
                forall|j: int| 0 <= j < i ==> (#[trigger] self@[j]).uid != uid@,
            decreases self@.len() - i,
        {
            if str_eq(self.repos[i].uid.as_str(), uid) {
                proof {
                    assert((self@[i as int]).uid == uid@);
                }
                return true;
            }
            i = i + 1;
        }
        false
    }

    /// Inserts a record: one whose identity is already present is dropped,
    /// any other takes its ordered position.
    pub fn insert(&mut self, r: Repo)
        requires
            old(self).wf(),
        ensures
            final(self).wf(),
            final(self)@ == spec_set_insert(old(self)@, r@),
    {
        proof {
            lemma_set_insert_props(self@, r@);
        }
        if self.contains_uid(r.uid.as_str()) {
            return ;
        }
        let ghost pre = self@;
        let mut i: usize = 0;
        while i < self.repos.len() && Self::lt_exec(&self.repos[i], &r)
            invariant
                i <= self@.len(),
                self@ == pre,
                self@.len() == self.repos@.len(),
                forall|j: int| 0 <= j < i ==> repo_lt(#[trigger] self@[j], r@),
            decreases self@.len() - i,
        {
            i = i + 1;
        }
        proof {
            if i < pre.len() {
                assert(!repo_lt(pre[i as int], r@));
                lemma_str_lt_connex(r@.uid, pre[i as int].uid);
                assert(pre[i as int].uid != r@.uid);
                assert(repo_lt(r@, pre[i as int]));
            }
            lemma_sorted_ins_at(pre, r@, i as int);
        }
        self.repos.insert(i, r);
        proof {
            assert(self@ =~= pre.insert(i as int, r@));
        }
    }

    /// Removes and returns the greatest record, when one exists.
    pub fn pop_last(&mut self) -> (r: Option<Repo>)
        requires
            old(self).wf(),
        ensures
            final(self).wf(),
            old(self)@.len() == 0 ==> r is None && final(self)@ == old(self)@,
            old(self)@.len() > 0 ==> r is Some && r->0@ == old(self)@.last() && final(self)@
                == old(self)@.drop_last(),
    {
        let ghost pre = self@;
        if self.repos.len() == 0 {
            return None;
        }
        let x = self.repos.pop();
        proof {
            assert(self@ =~= pre.drop_last());
            assert(forall|p: int| 0 <= p < self@.len() ==> self@[p] == pre[p]);
        }
        x
    }

    /// A copy with the same records.
    pub fn duplicate(&self) -> (r: RepoSet)
        ensures
            r@ == self@,
    {
        let mut repos: Vec<Repo> = Vec::new();
        let mut i: usize = 0;
        while i < self.repos.len()
            invariant
                i <= self.repos@.len(),
                repos@.len() == i,
                forall|j: int| 0 <= j < i ==> (#[trigger] repos@[j])@ == self@[j],
            decreases self.repos@.len() - i,
        {
            repos.push(self.repos[i].clone());
            i = i + 1;
        }
        let r = RepoSet { repos };
        proof {
            assert(r@ =~= self@);
        }
        r
    }
}

impl RepoSet {
    /// Executable record order test.
    fn lt_exec(a: &Repo, b: &Repo) -> (r: bool)
        ensures
            r == repo_lt(a@, b@),
    {
        if a.last_update < b.last_update {
            true
        } else if a.last_update == b.last_update {
            Self::str_lt_exec(a.uid.as_str(), b.uid.as_str())
        } else {
            false
        }
    }

    /// Executable lexicographic order test on strings.
    fn str_lt_exec(a: &str, b: &str) -> (r: bool)
        ensures
            r == str_lt(a@, b@),
    {
        let na = a.unicode_len();
        let nb = b.unicode_len();
        let mut i: usize = 0;
        while i < na && i < nb
            invariant
                na == a@.len(),
                nb == b@.len(),
                i <= na,
                i <= nb,
                forall|j: int| 0 <= j < i ==> a@[j] == b@[j],
            decreases na - i,
        {
            let ca = a.get_char(i);
            let cb = b.get_char(i);
            if ca != cb {
                proof {
                    lemma_str_lt_skip(a@, b@, i as int);
                }
                return ca < cb;
            }
            i = i + 1;
        }
        proof {
            lemma_str_lt_skip(a@, b@, i as int);
        }
        na < nb
    }
}

impl Clone for RepoSet {
    /// Cloning keeps the records exactly.
    fn clone(&self) -> (r: Self)
        ensures
            r@ == self@,
    {
        self.duplicate()
    }
}

/// Dropping an equal prefix does not change the order of two sequences.
pub proof fn lemma_str_lt_skip(a: Seq<char>, b: Seq<char>, i: int)
    requires
        0 <= i <= a.len(),
        i <= b.len(),
        forall|j: int| 0 <= j < i ==> a[j] == b[j],
    ensures
        str_lt(a, b) == str_lt(a.skip(i), b.skip(i)),
    decreases i,
{
    if i > 0 {
        assert(a.len() > 0 && b.len() > 0 && a[0] == b[0]);
        assert(forall|j: int| 0 <= j < i - 1 ==> a.drop_first()[j] == b.drop_first()[j]);
        lemma_str_lt_skip(a.drop_first(), b.drop_first(), i - 1);
        assert(a.drop_first().skip(i - 1) =~= a.skip(i));
        assert(b.drop_first().skip(i - 1) =~= b.skip(i));
    } else {
        assert(a.skip(0) =~= a);
        assert(b.skip(0) =~= b);
    }
}

} // verus!
