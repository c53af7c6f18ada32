//! TTL-stamped cache wrappers and their merge-on-update semantics.
//!
//! A `Cachable` pairs a payload with a freshness stamp. Updating a record-set
//! payload merges the incoming records under cached-entry priority and
//! refreshes the stamp to the clock; updating a dictionary payload merges the
//! same way but deliberately leaves the stamp alone — a fixed asymmetry of
//! the cache's contract.

use vstd::prelude::*;

use crate::epoch::Epoch;
use crate::epoch::EpochType;
use crate::repo_set::spec_set_merge;
use crate::repo_set::RepoSet;
use crate::strmap::StrMap;

verus! {

/// A payload with TTL metadata: how many days it stays fresh, and when it was
/// last brought up to date.
#[derive(Debug, PartialEq, Eq)]
pub struct Cachable<T> {
    pub data: T,
    pub days_to_update: u32,
    pub last_update: EpochType,
}

impl<T> Cachable<T> {
    /// Staleness at a given clock reading: the stamp lies in the past and its
    /// age exceeds `days_to_update * 86400 * 100` milliseconds. The trailing
    /// factor is 100, not the 1000 a millisecond epoch would suggest; the
    /// constant is deliberate and locked in by the tests.
    pub open spec fn spec_outdated(&self, now: EpochType) -> bool {
        &&& self.last_update < now
        &&& now - self.last_update > self.days_to_update * 86400 * 100
    }

    /// Staleness against an explicit clock reading.
    pub fn is_outdated_at(&self, now: EpochType) -> (r: bool)
        ensures
            r == self.spec_outdated(now),
    {
        let millis: u64 = (self.days_to_update as u64) * 24 * 60 * 60 * 100;
        self.last_update < now && now - self.last_update > millis
    }

    /// Staleness against the clock itself: whatever the clock read, the
    /// answer is the staleness test at that reading.
    pub fn is_outdated(&self) -> (r: bool)
        ensures
            exists|now: EpochType| r == self.spec_outdated(now),
    {
        let now = Epoch::get_local();
        let r = self.is_outdated_at(now);
        proof {
            assert(r == self.spec_outdated(now));
        }
        r
    }
}

/// Merge-on-update: how freshly fetched data is reconciled with what the
/// cache already holds. Each payload kind states its own reconciliation in
/// `update_ok`, and what it asks of its inputs in `update_req`.
pub trait Update<T> {
    /// What the update asks of the wrapper and the incoming data.
    spec fn update_req(pre: &Self, other: &T) -> bool;

    /// The relation between the wrapper before the update, the incoming
    /// data, and the wrapper after it.
    spec fn update_ok(pre: &Self, other: &T, post: &Self) -> bool;

    /// Reconciles incoming data into the wrapper.
    fn update(&mut self, other: &T)
        requires
            Self::update_req(old(self), other),
        ensures
            Self::update_ok(old(self), other, final(self)),
    ;
}

impl Update<RepoSet> for Cachable<RepoSet> {
    /// The cached records must hold their invariant.
    open spec fn update_req(pre: &Self, other: &RepoSet) -> bool {
        pre.data.wf()
    }

    /// Records already cached win on identity collision; the TTL is kept; the
    /// stamp is refreshed to the clock, of which nothing more is known.
    open spec fn update_ok(pre: &Self, other: &RepoSet, post: &Self) -> bool {
        &&& post.data@ == spec_set_merge(pre.data@, other@)
        &&& post.data.wf()
        &&& post.days_to_update == pre.days_to_update
    }

    fn update(&mut self, other: &RepoSet) {
        let mut merged = self.data.duplicate();
        let ghost base = self.data@;
        let ghost inc = other@;
        proof {
            assert(inc.take(0) =~= Seq::<crate::repo::RepoView>::empty());
        }
        let n = other.len();
        let mut i: usize = 0;
        while i < n
            invariant
                i <= n,
                n == inc.len(),
                other@ == inc,
                merged@ == spec_set_merge(base, inc.take(i as int)),
                merged.wf(),
            decreases n - i,
        {
            proof {
                assert(inc.take(i + 1).drop_last() =~= inc.take(i as int));
                assert(inc.take(i + 1).last() == inc[i as int]);
            }
            merged.insert(other.get(i).clone());
            i = i + 1;
        }
        proof {
            assert(inc.take(n as int) =~= inc);
        }
        self.data = merged;
        self.last_update = Epoch::get_local();
    }
}

impl Update<StrMap> for Cachable<StrMap> {
    /// Both dictionaries must hold their key-uniqueness invariant.
    open spec fn update_req(pre: &Self, other: &StrMap) -> bool {
        pre.data.wf() && other.wf()
    }

    /// Entries already cached win on key collision; the TTL is kept; the
    /// stamp is deliberately not refreshed, unlike the record-set case.
    open spec fn update_ok(pre: &Self, other: &StrMap, post: &Self) -> bool {
        &&& post.data.as_map() == crate::strmap::pairs_map(other@).union_prefer_right(
            pre.data.as_map(),
        )
        &&& post.data.wf()
        &&& post.days_to_update == pre.days_to_update
        &&& post.last_update == pre.last_update
    }

    fn update(&mut self, other: &StrMap) {
        let mut merged = self.data.duplicate();
        let ghost base = self.data.as_map();
        proof {
            assert(other@.take(0) =~= Seq::<(Seq<char>, Seq<char>)>::empty());
            assert(merged.as_map() =~= crate::strmap::pairs_map(other@.take(0)).union_prefer_right(
                base,
            ));
        }
        let n = other.len();
        let mut i: usize = 0;
        while i < n
            invariant
                i <= n,
                n == other@.len(),
                other.wf(),
                merged.wf(),
                merged.as_map() == crate::strmap::pairs_map(other@.take(i as int))
                    .union_prefer_right(base),
            decreases n - i,
        {
            let (k, v) = other.pair(i);
            let ghost pre_map = merged.as_map();
            let ghost tk = other@.take(i as int);
            let ghost pk = other@[i as int].0;
            let ghost pv = other@[i as int].1;
            let kk = k.clone();
            let vv = v.clone();
            merged.insert_if_absent(kk, vv);
            proof {
                assert(other@.take(i + 1).drop_last() =~= tk);
                assert(other@.take(i + 1).last() == other@[i as int]);
                assert(crate::strmap::pairs_map(other@.take(i + 1)) == crate::strmap::pairs_map(
                    tk,
                ).insert(pk, pv));
                assert(tk.len() == i as int);
                assert(!crate::strmap::pairs_have_key(tk, pk)) by {
                    if crate::strmap::pairs_have_key(tk, pk) {
                        let p = choose|p: int| 0 <= p < tk.len() && (#[trigger] tk[p]).0 == pk;
                        assert(tk[p] == other@[p]);
                        assert((other@[p]).0 == (other@[i as int]).0);
                        assert((other@[p]).0 != (other@[i as int]).0);
                    }
                }
                crate::strmap::lemma_pairs_map(tk);
                assert(!crate::strmap::pairs_map(tk).contains_key(pk));
                assert(pre_map.contains_key(pk) == base.contains_key(pk));
                if base.contains_key(pk) {
                    assert(merged.as_map() == pre_map);
                } else {
                    assert(merged.as_map() == pre_map.insert(pk, pv));
                }
                assert(merged.as_map() =~= crate::strmap::pairs_map(other@.take(i + 1))
                    .union_prefer_right(base));
            }
            i = i + 1;
        }
        proof {
            assert(other@.take(n as int) =~= other@);
        }
        self.data = merged;
    }
}

/// The persisted cache: the record set and the language-color dictionary,
/// each under its own TTL stamp.
#[derive(Debug, PartialEq, Eq)]
pub struct Cache {
    pub repos: Cachable<RepoSet>,
    pub colors: Cachable<StrMap>,
}

impl Cache {
    /// A well-formed cache: both payloads hold their invariants.
    pub open spec fn wf(&self) -> bool {
        self.repos.data.wf() && self.colors.data.wf()
    }

    /// Builds a cache from optional parts; a missing part is empty with a
    /// zeroed stamp.
    pub fn new(repos: Option<Cachable<RepoSet>>, colors: Option<Cachable<StrMap>>) -> (r: Cache)
        ensures
            match repos {
                Some(c) => r.repos == c,
                None => r.repos.data@ == Seq::<crate::repo::RepoView>::empty()
                    && r.repos.days_to_update == 0 && r.repos.last_update == 0,
            },
            match colors {
                Some(c) => r.colors == c,
                None => r.colors.data@ == Seq::<(Seq<char>, Seq<char>)>::empty()
                    && r.colors.days_to_update == 0 && r.colors.last_update == 0,
            },
    {
        Cache {
            repos: match repos {
                Some(c) => c,
                None => Cachable { data: RepoSet::new(), days_to_update: 0, last_update: 0 },
            },
            colors: match colors {
                Some(c) => c,
                None => Cachable { data: StrMap::new(), days_to_update: 0, last_update: 0 },
            },
        }
    }

    /// Whether the record payload is empty; the dictionary does not count.
    pub fn is_empty(&self) -> (r: bool)
        ensures
            r == (self.repos.data@.len() == 0),
    {
        self.repos.data.is_empty()
    }

    /// Reconciles freshly fetched records into the cache: cached records win
    /// on identity collision and the record stamp is refreshed.
    pub fn update(&mut self, repos: &RepoSet)
        requires
            old(self).repos.data.wf(),
        ensures
            final(self).repos.data@ == spec_set_merge(old(self).repos.data@, repos@),
            final(self).repos.data.wf(),
            final(self).repos.days_to_update == old(self).repos.days_to_update,
            final(self).colors == old(self).colors,
    {
        self.repos.update(repos);
    }
}

/// The cache consumed by aggregation. Built part by part it starts with
/// zeroed TTLs, like any bare `Cachable`; only the default value carries the
/// TTLs the scraper ships with, fourteen days for records and sixty for
/// colors.
#[derive(Debug, PartialEq, Eq)]
pub struct RepoScrapeCache {
    pub repos: Cachable<RepoSet>,
    pub colors: Cachable<StrMap>,
}

impl RepoScrapeCache {
    /// Builds a cache from optional parts; a missing part is empty with a
    /// zeroed TTL and stamp.
    pub fn new(repos: Option<Cachable<RepoSet>>, colors: Option<Cachable<StrMap>>) -> (r:
        RepoScrapeCache)
        ensures
            match repos {
                Some(c) => r.repos == c,
                None => r.repos.data@ == Seq::<crate::repo::RepoView>::empty()
                    && r.repos.days_to_update == 0 && r.repos.last_update == 0,
            },
            match colors {
                Some(c) => r.colors == c,
                None => r.colors.data@ == Seq::<(Seq<char>, Seq<char>)>::empty()
                    && r.colors.days_to_update == 0 && r.colors.last_update == 0,
            },
    {
        RepoScrapeCache {
            repos: match repos {
                Some(c) => c,
                None => Cachable { data: RepoSet::new(), days_to_update: 0, last_update: 0 },
            },
            colors: match colors {
                Some(c) => c,
                None => Cachable { data: StrMap::new(), days_to_update: 0, last_update: 0 },
            },
        }
    }

    /// Whether the record payload is empty; the dictionary does not count.
    pub fn is_empty(&self) -> (r: bool)
        ensures
            r == (self.repos.data@.len() == 0),
    {
        self.repos.data.is_empty()
    }
}

impl Default for RepoScrapeCache {
    /// The empty cache with the shipped TTLs: fourteen days for records,
    /// sixty for colors.
    fn default() -> (r: Self)
        ensures
            r.repos.data@ == Seq::<crate::repo::RepoView>::empty(),
            r.repos.days_to_update == 14,
            r.repos.last_update == 0,
            r.colors.data@ == Seq::<(Seq<char>, Seq<char>)>::empty(),
            r.colors.days_to_update == 60,
            r.colors.last_update == 0,
    {
        RepoScrapeCache {
            repos: Cachable { data: RepoSet::new(), days_to_update: 14, last_update: 0 },
            colors: Cachable { data: StrMap::new(), days_to_update: 60, last_update: 0 },
        }
    }
}

} // verus!
