//! A string-keyed map of strings, stored as an association list with unique
//! keys. It carries the raw metadata recovered from annotation text and the
//! language-to-color dictionary held by the cache.

use vstd::prelude::*;

use crate::chars::str_eq;

verus! {

/// The mathematical map described by an association list: later pairs win,
/// though with unique keys no pair ever shadows another.
pub open spec fn pairs_map(s: Seq<(Seq<char>, Seq<char>)>) -> Map<Seq<char>, Seq<char>>
    decreases s.len(),
{
    if s.len() == 0 {
        Map::empty()
    } else {
        pairs_map(s.drop_last()).insert(s.last().0, s.last().1)
    }
}

/// Key uniqueness over an association list.
pub open spec fn unique_keys(s: Seq<(Seq<char>, Seq<char>)>) -> bool {
    forall|i: int, j: int| 0 <= i < j < s.len() ==> (#[trigger] s[i]).0 != (#[trigger] s[j]).0
}

/// A key occurs in the association list.
pub open spec fn pairs_have_key(s: Seq<(Seq<char>, Seq<char>)>, k: Seq<char>) -> bool {
    exists|i: int| 0 <= i < s.len() && (#[trigger] s[i]).0 == k
}

/// The map of an association list holds exactly the listed keys, and under a
/// key the listed value, whenever keys are unique.
pub proof fn lemma_pairs_map(s: Seq<(Seq<char>, Seq<char>)>)
    ensures
        forall|k: Seq<char>| #[trigger] pairs_map(s).contains_key(k) <==> pairs_have_key(s, k),
        forall|i: int|
            0 <= i < s.len() && unique_keys(s) ==> pairs_map(s)[(#[trigger] s[i]).0] == s[i].1,
    decreases s.len(),
{
    if s.len() > 0 {
        lemma_pairs_map(s.drop_last());
        assert forall|k: Seq<char>| #[trigger] pairs_map(s).contains_key(k) implies pairs_have_key(
            s,
            k,
        ) by {
            if k == s.last().0 {
                assert((s[s.len() - 1]).0 == k);
            } else {
                assert(pairs_map(s.drop_last()).contains_key(k));
                assert(pairs_have_key(s.drop_last(), k));
                let i = choose|i: int|
                    0 <= i < s.drop_last().len() && (#[trigger] s.drop_last()[i]).0 == k;
                assert(s.drop_last()[i] == s[i]);
                assert((s[i]).0 == k);
            }
        }
        assert forall|k: Seq<char>| pairs_have_key(s, k) implies #[trigger] pairs_map(
            s,
        ).contains_key(k) by {
            let i = choose|i: int| 0 <= i < s.len() && (#[trigger] s[i]).0 == k;
            if i < s.len() - 1 {
                assert((s.drop_last()[i]).0 == k);
                assert(pairs_have_key(s.drop_last(), k));
                assert(pairs_map(s.drop_last()).contains_key(k));
            } else {
                assert(k == s.last().0);
            }
        }
        assert forall|i: int| 0 <= i < s.len() && unique_keys(s) implies pairs_map(s)[(
        #[trigger] s[i]).0] == s[i].1 by {
            assert(unique_keys(s.drop_last()));
            if i < s.len() - 1 {
                assert((s[i]).0 != (s[s.len() - 1]).0);
                assert(s.drop_last()[i] == s[i]);
            }
        }
    }
}

/// The position of the first pair with this key, or the length.
pub open spec fn key_idx(s: Seq<(Seq<char>, Seq<char>)>, k: Seq<char>) -> int
    decreases s.len(),
{
    if s.len() == 0 {
        0
    } else if s[0].0 == k {
        0
    } else {
        1 + key_idx(s.drop_first(), k)
    }
}

/// Characterization of `key_idx`.
pub proof fn lemma_key_idx_is(s: Seq<(Seq<char>, Seq<char>)>, k: Seq<char>, i: int)
    requires
        0 <= i <= s.len(),
        forall|j: int| 0 <= j < i ==> (#[trigger] s[j]).0 != k,
        i == s.len() || s[i].0 == k,
    ensures
        key_idx(s, k) == i,
    decreases i,
{
    if i > 0 {
        lemma_key_idx_is(s.drop_first(), k, i - 1);
    }
}

/// Keyed insertion at the pair-list level: an existing key's pair is
/// rewritten in place, a fresh key's pair is appended.
pub open spec fn pairs_insert(
    s: Seq<(Seq<char>, Seq<char>)>,
    k: Seq<char>,
    v: Seq<char>,
) -> Seq<(Seq<char>, Seq<char>)> {
    if pairs_have_key(s, k) {
        s.update(key_idx(s, k), (k, v))
    } else {
        s.push((k, v))
    }
}

/// Overwriting the pair at a position whose key is unchanged rewrites that
/// key's value in the denoted map.
proof fn lemma_pairs_map_update(s: Seq<(Seq<char>, Seq<char>)>, i: int, k: Seq<char>, v: Seq<char>)
    requires
        unique_keys(s),
        0 <= i < s.len(),
        s[i].0 == k,
    ensures
        pairs_map(s.update(i, (k, v))) =~= pairs_map(s).insert(k, v),
    decreases s.len(),
{
    let upd = s.update(i, (k, v));
    if i == s.len() - 1 {
        assert(upd.drop_last() =~= s.drop_last());
        assert(pairs_map(upd) =~= pairs_map(s.drop_last()).insert(k, v));
        assert(pairs_map(s).insert(k, v) =~= pairs_map(s.drop_last()).insert(k, s[i].1).insert(
            k,
            v,
        ));
    } else {
        assert(unique_keys(s.drop_last()));
        assert(s.drop_last()[i].0 == k);
        lemma_pairs_map_update(s.drop_last(), i, k, v);
        assert(upd.drop_last() =~= s.drop_last().update(i, (k, v)));
        assert(upd.last() == s.last());
        assert(s.last().0 != k);
        assert(pairs_map(upd) =~= pairs_map(s.drop_last()).insert(k, v).insert(
            s.last().0,
            s.last().1,
        ));
    }
}

/// A string-to-string dictionary with case-sensitive keys.
#[derive(Debug, PartialEq, Eq)]
pub struct StrMap {
    items: Vec<(String, String)>,
}

impl View for StrMap {
    type V = Seq<(Seq<char>, Seq<char>)>;

    closed spec fn view(&self) -> Seq<(Seq<char>, Seq<char>)> {
        Seq::new(self.items@.len(), |i: int| (self.items@[i].0@, self.items@[i].1@))
    }
}

impl StrMap {
    /// The keys listed are pairwise distinct.
    pub open spec fn wf(&self) -> bool {
        unique_keys(self@)
    }

    /// The map this dictionary denotes.
    pub open spec fn as_map(&self) -> Map<Seq<char>, Seq<char>> {
        pairs_map(self@)
    }

    /// An empty dictionary.
    pub fn new() -> (r: StrMap)
        ensures
            r@ == Seq::<(Seq<char>, Seq<char>)>::empty(),
            r.wf(),
    {
        StrMap { items: Vec::new() }
    }

    /// The number of entries.
    pub fn len(&self) -> (r: usize)
        ensures
            r == self@.len(),
    {
        self.items.len()
    }

    /// Whether the dictionary holds no entry.
    pub fn is_empty(&self) -> (r: bool)
        ensures
            r == (self@.len() == 0),
    {
        self.items.len() == 0
    }

    /// The pair at a position, for iteration.
    pub fn pair(&self, i: usize) -> (r: (&String, &String))
        requires
            i < self@.len(),
        ensures
            r.0@ == self@[i as int].0,
            r.1@ == self@[i as int].1,
    {
        (&self.items[i].0, &self.items[i].1)
    }

    /// The position of the first pair with this key, if the key is present.
    fn position_first(&self, k: &str) -> (r: Option<usize>)
        ensures
            match r {
                Some(i) => i < self@.len() && self@[i as int].0 == k@ && key_idx(self@, k@)
                    == i as int,
                None => !pairs_have_key(self@, k@),
            },
    {
        let mut i: usize = 0;
        while i < self.items.len()
            invariant
                i <= self@.len(),
                self@.len() == self.items@.len(),
                forall|j: int| 0 <= j < i ==> (#[trigger] self@[j]).0 != k@,
            decreases self@.len() - i,
        {
            if str_eq(self.items[i].0.as_str(), k) {
                proof {
                    assert(self@[i as int].0 == k@);
                    lemma_key_idx_is(self@, k@, i as int);
                }
                return Some(i);
            }
            i = i + 1;
        }
        None
    }

    /// Whether a key is present.
    pub fn contains_key(&self, k: &str) -> (r: bool)
        ensures
            r == pairs_have_key(self@, k@),
    {
        match self.position_first(k) {
            Some(_) => true,
            None => false,
        }
    }

    /// The value under a key, if the key is present.
    pub fn get(&self, k: &str) -> (r: Option<&String>)
        requires
            self.wf(),
        ensures
            match r {
                Some(v) => self.as_map().contains_key(k@) && v@ == self.as_map()[k@],
                None => !self.as_map().contains_key(k@),
            },
    {
        proof {
            lemma_pairs_map(self@);
        }
        match self.position_first(k) {
            Some(i) => Some(&self.items[i].1),
            None => None,
        }
    }

    /// Inserts a pair; an existing entry under the same key is overwritten.
    pub fn insert(&mut self, k: String, v: String)
        requires
            old(self).wf(),
        ensures
            final(self).wf(),
            final(self).as_map() == old(self).as_map().insert(k@, v@),
            final(self)@ == pairs_insert(old(self)@, k@, v@),
            final(self)@.len() == if pairs_have_key(old(self)@, k@) {
                old(self)@.len()
            } else {
                old(self)@.len() + 1
            },
    {
        proof {
            lemma_pairs_map(self@);
        }
        let ghost pre = self@;
        match self.position_first(k.as_str()) {
            Some(i) => {
                let ghost kv = (k@, v@);
                let _ = self.items.set(i, (k, v));
                proof {
                    assert(self@ =~= pre.update(i as int, kv));
                    lemma_pairs_map_update(pre, i as int, k@, v@);
                    assert(unique_keys(self@)) by {
                        assert(forall|j: int|
                            0 <= j < self@.len() && j != i ==> (#[trigger] self@[j]).0 == pre[j].0);
                        assert(self@[i as int].0 == pre[i as int].0);
                    }
                    assert(pairs_have_key(pre, k@)) by {
                        assert(pre[i as int].0 == k@);
                    }
                    assert(key_idx(pre, k@) == i as int);
                }
            },
            None => {
                self.items.push((k, v));
                proof {
                    assert(self@.drop_last() =~= pre);
                    assert(unique_keys(self@)) by {
                        assert(forall|j: int|
                            0 <= j < pre.len() ==> (#[trigger] self@[j]).0 == pre[j].0);
                    }
                }
            },
        }
    }

    /// Inserts a pair only when the key is absent; an existing entry wins.
    pub fn insert_if_absent(&mut self, k: String, v: String)
        requires
            old(self).wf(),
        ensures
            final(self).wf(),
            final(self).as_map() == if old(self).as_map().contains_key(k@) {
                old(self).as_map()
            } else {
                old(self).as_map().insert(k@, v@)
            },
            final(self)@ == if pairs_have_key(old(self)@, k@) {
                old(self)@
            } else {
                old(self)@.push((k@, v@))
            },
    {
        proof {
            lemma_pairs_map(self@);
        }
        let ghost pre = self@;
        match self.position_first(k.as_str()) {
            Some(_) => {},
            None => {
                self.items.push((k, v));
                proof {
                    assert(self@.drop_last() =~= pre);
                    assert(unique_keys(self@)) by {
                        assert(forall|j: int|
                            0 <= j < pre.len() ==> (#[trigger] self@[j]).0 == pre[j].0);
                    }
                }
            },
        }
    }

    /// A copy with the same entries.
    pub fn duplicate(&self) -> (r: StrMap)
        ensures
            r@ == self@,
    {
        let mut items: Vec<(String, String)> = Vec::new();
        let mut i: usize = 0;
        while i < self.items.len()
            invariant
                i <= self.items@.len(),
                items@.len() == i,
                forall|j: int|
                    0 <= j < i ==> (#[trigger] items@[j]).0@ == self@[j].0 && items@[j].1@
                        == self@[j].1,
            decreases self.items@.len() - i,
        {
            let k = self.items[i].0.clone();
            let v = self.items[i].1.clone();
            items.push((k, v));
            i = i + 1;
        }
        let r = StrMap { items };
        proof {
            assert(r@ =~= self@);
        }
        r
    }
}

impl Clone for StrMap {
    /// Cloning keeps the entries exactly.
    fn clone(&self) -> (r: Self)
        ensures
            r@ == self@,
    {
        self.duplicate()
    }
}

} // verus!
