//! The persisted blob: the serialized cache, zlib-compressed.
//!
//! Serialization is the codec of this crate; compression is flate2's zlib,
//! relied on only for being lossless. Decoding takes the opposite path,
//! re-inserting records and pairs so the collection invariants always hold
//! of what comes back; the round-trip law says a cache survives the whole
//! trip unchanged.

use std::io::Read;
use std::io::Write;

use vstd::prelude::*;

use crate::cache::Cachable;
use crate::cache::Cache;
use crate::codec::dec_repo;
use crate::codec::dec_u64;
use crate::codec::enc_repo;
use crate::codec::enc_u64;
use crate::codec::pairs_bounded;
use crate::codec::repos_bounded;
use crate::codec::spec_dec_repos_items;
use crate::codec::spec_dec_u64;
use crate::codec::spec_enc_repos_items;
use crate::codec::spec_enc_u64;
use crate::codec::spec_enc_pair;
use crate::codec::spec_enc_pairs_items;
use crate::codec::spec_dec_pairs_items;
use crate::repo::Repo;
use crate::repo::RepoView;
use crate::repo_set::has_uid;
use crate::repo_set::repo_sorted;
use crate::repo_set::spec_set_merge;
use crate::repo_set::unique_uids;
use crate::repo_set::RepoSet;
use crate::strmap::pairs_have_key;
use crate::strmap::pairs_insert;
use crate::strmap::unique_keys;
use crate::strmap::StrMap;

verus! {

/// Why encoding could fail. Compression into memory never does, so no
/// variant is ever produced; the type stands for the interface's sake.
#[derive(Clone, Copy, Debug, PartialEq, Eq, Structural)]
pub enum EncodeError {
    Compression,
}

/// Why decoding can fail: the bytes are not a zlib stream, or the inflated
/// bytes are not an encoding.
#[derive(Clone, Copy, Debug, PartialEq, Eq, Structural)]
pub enum DecodeError {
    Decompression,
    Malformed,
}

/// What zlib inflation yields on given bytes: the inflated bytes, or nothing
/// when the stream is invalid. Inflation is a pure function of the bytes.
pub uninterp spec fn inflate_of(b: Seq<u8>) -> Option<Seq<u8>>;

/// Relies on flate2's `ZlibEncoder`: zlib compression is lossless, so
/// inflating its output yields exactly the input bytes; and compressing into
/// an in-memory `Vec` cannot fail, since the only errors its interface can
/// surface come from the underlying writer and `Vec`'s writer is infallible.
#[verifier::external_body]
fn zlib_compress(data: &Vec<u8>) -> (r: Vec<u8>)
    ensures
        inflate_of(r@) == Some(data@),
{
    let mut encoder = flate2::write::ZlibEncoder::new(Vec::new(), flate2::Compression::best());
    encoder.write_all(data.as_slice()).expect("writing into a Vec cannot fail");
    encoder.finish().expect("finishing into a Vec cannot fail")
}

/// Relies on flate2's `ZlibDecoder`: inflation is a pure function of the
/// bytes, failing exactly on streams no compression produced.
#[verifier::external_body]
fn zlib_decompress(data: &[u8]) -> (r: Result<Vec<u8>, ()>)
    ensures
        match r {
            Ok(v) => inflate_of(data@) == Some(v@),
            Err(_) => inflate_of(data@) is None,
        },
{
    let mut decoder = flate2::bufread::ZlibDecoder::new(data);
    let mut buf = Vec::new();
    match decoder.read_to_end(&mut buf) {
        Ok(_) => Ok(buf),
        Err(_) => Err(()),
    }
}

/// A record collection encodes as its length, then its records in order.
pub open spec fn spec_enc_repo_set(sv: Seq<RepoView>) -> Seq<u8> {
    spec_enc_u64(sv.len() as u64) + spec_enc_repos_items(sv)
}

/// Reading a record collection back: the records are read in order, then
/// re-inserted one by one, so the result always holds the collection
/// invariant.
pub open spec fn spec_dec_repo_set(b: Seq<u8>) -> Option<(Seq<RepoView>, Seq<u8>)> {
    match spec_dec_u64(b) {
        Some((n, r)) => match spec_dec_repos_items(r, n as int) {
            Some((rs, r2)) => Some((spec_set_merge(Seq::empty(), rs), r2)),
            None => None,
        },
        None => None,
    }
}

/// Inserting a record greater than everything present appends it.
proof fn lemma_set_insert_append(s: Seq<RepoView>, r: RepoView)
    requires
        repo_sorted(s),
        unique_uids(s),
        !has_uid(s, r.uid),
        forall|j: int| 0 <= j < s.len() ==> crate::repo_set::repo_lt(#[trigger] s[j], r),
    ensures
        crate::repo_set::spec_set_insert(s, r) == s.push(r),
{
    crate::repo_set::lemma_sorted_ins_at(s, r, s.len() as int);
    assert(s.insert(s.len() as int, r) =~= s.push(r));
}

/// Re-inserting an ordered, identity-unique record sequence reproduces it.
proof fn lemma_set_merge_identity(s: Seq<RepoView>)
    requires
        repo_sorted(s),
        unique_uids(s),
    ensures
        spec_set_merge(Seq::empty(), s) == s,
    decreases s.len(),
{
    if s.len() > 0 {
        let front = s.drop_last();
        assert(repo_sorted(front) && unique_uids(front)) by {
            assert(forall|p: int, q: int|
                0 <= p < q < front.len() ==> front[p] == s[p] && front[q] == s[q]);
        }
        lemma_set_merge_identity(front);
        assert(!has_uid(front, s.last().uid)) by {
            if has_uid(front, s.last().uid) {
                let p = choose|p: int|
                    0 <= p < front.len() && (#[trigger] front[p]).uid == s.last().uid;
                assert(s[p].uid == s[s.len() - 1].uid);
            }
        }
        assert(forall|j: int|
            0 <= j < front.len() ==> crate::repo_set::repo_lt(#[trigger] front[j], s.last())) by {
            assert(forall|j: int| 0 <= j < front.len() ==> front[j] == s[j]);
        }
        lemma_set_insert_append(front, s.last());
        assert(front.push(s.last()) =~= s);
    }
}

/// Appends the records of a collection, from a position on.
fn enc_repos_from(out: &mut Vec<u8>, s: &RepoSet, i: usize)
    requires
        i <= s@.len(),
    ensures
        final(out)@ == old(out)@ + spec_enc_repos_items(s@.skip(i as int)),
    decreases s@.len() - i,
{
    if i < s.len() {
        enc_repo(out, s.get(i));
        enc_repos_from(out, s, i + 1);
        proof {
            assert(s@.skip(i as int)[0] == s@[i as int]);
            assert(s@.skip(i as int).drop_first() =~= s@.skip(i + 1));
            assert(final(out)@ =~= old(out)@ + spec_enc_repos_items(s@.skip(i as int)));
        }
    } else {
        proof {
            assert(s@.skip(i as int).len() == 0);
            assert(old(out)@ + spec_enc_repos_items(s@.skip(i as int)) =~= old(out)@);
        }
    }
}

/// Appends one record collection.
fn enc_repo_set(out: &mut Vec<u8>, s: &RepoSet)
    ensures
        final(out)@ == old(out)@ + spec_enc_repo_set(s@),
{
    enc_u64(out, s.len() as u64);
    proof {
        assert(s@.skip(0) =~= s@);
    }
    enc_repos_from(out, s, 0);
    proof {
        assert(final(out)@ =~= old(out)@ + spec_enc_repo_set(s@));
    }
}

/// Reads a counted record list off the front.
fn dec_repos_items_exec(b: &[u8], n: u64) -> (r: Option<(Vec<Repo>, &[u8])>)
    ensures
        match r {
            Some(p) => spec_dec_repos_items(b@, n as int) == Some(
                (crate::expand::repo_views(p.0@), p.1@),
            ),
            None => spec_dec_repos_items(b@, n as int) is None,
        },
    decreases n,
{
    if n == 0 {
        let v: Vec<Repo> = Vec::new();
        proof {
            assert(crate::expand::repo_views(v@) =~= Seq::<RepoView>::empty());
        }
        return Some((v, b));
    }
    match dec_repo(b) {
        Some((rp, rest)) => match dec_repos_items_exec(rest, n - 1) {
            Some((rs, rest2)) => {
                let mut rs = rs;
                let ghost tail_views = crate::expand::repo_views(rs@);
                rs.insert(0, rp);
                proof {
                    assert(crate::expand::repo_views(rs@) =~= seq![rs@[0]@] + tail_views);
                }
                Some((rs, rest2))
            },
            None => None,
        },
        None => None,
    }
}

/// Reads one record collection off the front, re-inserting its records.
fn dec_repo_set(b: &[u8]) -> (r: Option<(RepoSet, &[u8])>)
    ensures
        match r {
            Some(p) => spec_dec_repo_set(b@) == Some((p.0@, p.1@)) && p.0.wf(),
            None => spec_dec_repo_set(b@) is None,
        },
{
    let (n, rest) = match dec_u64(b) {
        Some(p) => p,
        None => {
            return None;
        },
    };
    let (items, rest2) = match dec_repos_items_exec(rest, n) {
        Some(p) => p,
        None => {
            return None;
        },
    };
    let ghost parsed = crate::expand::repo_views(items@);
    let mut set = RepoSet::new();
    let mut i: usize = 0;
    let m = items.len();
    proof {
        assert(parsed.take(0) =~= Seq::<RepoView>::empty());
    }
    while i < m
        invariant
            i <= m,
            m == items@.len(),
            parsed == crate::expand::repo_views(items@),
            set.wf(),
            set@ == spec_set_merge(Seq::empty(), parsed.take(i as int)),
        decreases m - i,
    {
        proof {
            assert(parsed.take(i + 1).drop_last() =~= parsed.take(i as int));
            assert(parsed.take(i + 1).last() == parsed[i as int]);
        }
        set.insert(items[i].clone());
        i = i + 1;
    }
    proof {
        assert(parsed.take(m as int) =~= parsed);
    }
    Some((set, rest2))
}

/// A record collection survives the trip: re-inserting an ordered,
/// identity-unique sequence reproduces it.
pub proof fn lemma_repo_set_round_trip(sv: Seq<RepoView>, rest: Seq<u8>)
    requires
        repo_sorted(sv),
        unique_uids(sv),
        repos_bounded(sv),
    ensures
        spec_dec_repo_set(spec_enc_repo_set(sv) + rest) == Some((sv, rest)),
{
    vstd::seq_lib::lemma_concat_associative(
        spec_enc_u64(sv.len() as u64),
        spec_enc_repos_items(sv),
        rest,
    );
    assert(spec_enc_repo_set(sv) + rest == spec_enc_u64(sv.len() as u64) + (spec_enc_repos_items(
        sv,
    ) + rest));
    crate::codec::lemma_u64_round_trip(sv.len() as u64, spec_enc_repos_items(sv) + rest);
    crate::codec::lemma_repos_items_round_trip(sv, rest);
    lemma_set_merge_identity(sv);
}

/// A dictionary encodes as its length, then its pairs in order.
pub open spec fn spec_enc_strmap(ps: Seq<(Seq<char>, Seq<char>)>) -> Seq<u8> {
    spec_enc_u64(ps.len() as u64) + spec_enc_pairs_items(ps)
}

/// Keyed re-insertion of a pair list, in order.
pub open spec fn pairs_fold(ps: Seq<(Seq<char>, Seq<char>)>) -> Seq<(Seq<char>, Seq<char>)>
    decreases ps.len(),
{
    if ps.len() == 0 {
        Seq::<(Seq<char>, Seq<char>)>::empty()
    } else {
        pairs_insert(pairs_fold(ps.drop_last()), ps.last().0, ps.last().1)
    }
}

/// Reading a dictionary back: the pairs are read in order, then re-inserted
/// one by one, so the result always has unique keys.
pub open spec fn spec_dec_strmap(b: Seq<u8>) -> Option<(Seq<(Seq<char>, Seq<char>)>, Seq<u8>)> {
    match spec_dec_u64(b) {
        Some((n, r)) => match spec_dec_pairs_items(r, n as int) {
            Some((ps, r2)) => Some((pairs_fold(ps), r2)),
            None => None,
        },
        None => None,
    }
}

/// Re-inserting a key-unique pair list reproduces it.
proof fn lemma_pairs_fold_identity(ps: Seq<(Seq<char>, Seq<char>)>)
    requires
        unique_keys(ps),
    ensures
        pairs_fold(ps) == ps,
    decreases ps.len(),
{
    if ps.len() > 0 {
        let front = ps.drop_last();
        assert(unique_keys(front)) by {
            assert(forall|p: int, q: int|
                0 <= p < q < front.len() ==> front[p] == ps[p] && front[q] == ps[q]);
        }
        lemma_pairs_fold_identity(front);
        assert(!pairs_have_key(front, ps.last().0)) by {
            if pairs_have_key(front, ps.last().0) {
                let p = choose|p: int|
                    0 <= p < front.len() && (#[trigger] front[p]).0 == ps.last().0;
                assert(ps[p].0 == ps[ps.len() - 1].0);
            }
        }
        assert(front.push((ps.last().0, ps.last().1)) =~= ps);
    }
}

/// Appends the pairs of a dictionary, from a position on.
fn enc_pairs_from(out: &mut Vec<u8>, m: &StrMap, i: usize)
    requires
        i <= m@.len(),
    ensures
        final(out)@ == old(out)@ + spec_enc_pairs_items(m@.skip(i as int)),
    decreases m@.len() - i,
{
    if i < m.len() {
        let (k, v) = m.pair(i);
        let ghost pre = out@;
        crate::codec::enc_str(out, k.as_str());
        crate::codec::enc_str(out, v.as_str());
        proof {
            assert(out@ =~= pre + spec_enc_pair(m@[i as int]));
        }
        enc_pairs_from(out, m, i + 1);
        proof {
            assert(m@.skip(i as int)[0] == m@[i as int]);
            assert(m@.skip(i as int).drop_first() =~= m@.skip(i + 1));
            assert(final(out)@ =~= old(out)@ + spec_enc_pairs_items(m@.skip(i as int)));
        }
    } else {
        proof {
            assert(m@.skip(i as int).len() == 0);
            assert(old(out)@ + spec_enc_pairs_items(m@.skip(i as int)) =~= old(out)@);
        }
    }
}

/// Appends one dictionary.
fn enc_strmap(out: &mut Vec<u8>, m: &StrMap)
    ensures
        final(out)@ == old(out)@ + spec_enc_strmap(m@),
{
    enc_u64(out, m.len() as u64);
    proof {
        assert(m@.skip(0) =~= m@);
    }
    enc_pairs_from(out, m, 0);
    proof {
        assert(final(out)@ =~= old(out)@ + spec_enc_strmap(m@));
    }
}

/// Reads a counted pair list off the front.
fn dec_pairs_items_exec(b: &[u8], n: u64) -> (r: Option<(Vec<(String, String)>, &[u8])>)
    ensures
        match r {
            Some(p) => spec_dec_pairs_items(b@, n as int) == Some(
                (Seq::new(p.0@.len(), |i: int| (p.0@[i].0@, p.0@[i].1@)), p.1@),
            ),
            None => spec_dec_pairs_items(b@, n as int) is None,
        },
    decreases n,
{
    if n == 0 {
        let v: Vec<(String, String)> = Vec::new();
        proof {
            assert(Seq::new(v@.len(), |i: int| (v@[i].0@, v@[i].1@)) =~= Seq::<
                (Seq<char>, Seq<char>),
            >::empty());
        }
        return Some((v, b));
    }
    let (k, rest) = match crate::codec::dec_str(b) {
        Some(p) => p,
        None => {
            return None;
        },
    };
    let (v, rest2) = match crate::codec::dec_str(rest) {
        Some(p) => p,
        None => {
            return None;
        },
    };
    match dec_pairs_items_exec(rest2, n - 1) {
        Some((ps, rest3)) => {
            let mut ps = ps;
            let ghost tail_views = Seq::new(ps@.len(), |i: int| (ps@[i].0@, ps@[i].1@));
            ps.insert(0, (k, v));
            proof {
                assert(Seq::new(ps@.len(), |i: int| (ps@[i].0@, ps@[i].1@)) =~= seq![
                    (ps@[0].0@, ps@[0].1@),
                ] + tail_views);
            }
            Some((ps, rest3))
        },
        None => None,
    }
}

/// Reads one dictionary off the front, re-inserting its pairs.
fn dec_strmap(b: &[u8]) -> (r: Option<(StrMap, &[u8])>)
    ensures
        match r {
            Some(p) => spec_dec_strmap(b@) == Some((p.0@, p.1@)) && p.0.wf(),
            None => spec_dec_strmap(b@) is None,
        },
{
    let (n, rest) = match dec_u64(b) {
        Some(p) => p,
        None => {
            return None;
        },
    };
    let (items, rest2) = match dec_pairs_items_exec(rest, n) {
        Some(p) => p,
        None => {
            return None;
        },
    };
    let ghost parsed = Seq::new(items@.len(), |i: int| (items@[i].0@, items@[i].1@));
    let mut map = StrMap::new();
    let mut i: usize = 0;
    let m = items.len();
    proof {
        assert(parsed.take(0) =~= Seq::<(Seq<char>, Seq<char>)>::empty());
    }
    while i < m
        invariant
            i <= m,
            m == items@.len(),
            parsed == Seq::new(items@.len(), |j: int| (items@[j].0@, items@[j].1@)),
            map.wf(),
            map@ == pairs_fold(parsed.take(i as int)),
        decreases m - i,
    {
        proof {
            assert(parsed.take(i + 1).drop_last() =~= parsed.take(i as int));
            assert(parsed.take(i + 1).last() == parsed[i as int]);
        }
        let k = items[i].0.clone();
        let v = items[i].1.clone();
        map.insert(k, v);
        i = i + 1;
    }
    proof {
        assert(parsed.take(m as int) =~= parsed);
    }
    Some((map, rest2))
}

/// A dictionary survives the trip.
pub proof fn lemma_strmap_round_trip(ps: Seq<(Seq<char>, Seq<char>)>, rest: Seq<u8>)
    requires
        unique_keys(ps),
        pairs_bounded(ps),
    ensures
        spec_dec_strmap(spec_enc_strmap(ps) + rest) == Some((ps, rest)),
{
    vstd::seq_lib::lemma_concat_associative(
        spec_enc_u64(ps.len() as u64),
        spec_enc_pairs_items(ps),
        rest,
    );
    assert(spec_enc_strmap(ps) + rest == spec_enc_u64(ps.len() as u64) + (spec_enc_pairs_items(ps)
        + rest));
    crate::codec::lemma_u64_round_trip(ps.len() as u64, spec_enc_pairs_items(ps) + rest);
    crate::codec::lemma_pairs_items_round_trip(ps, rest);
    lemma_pairs_fold_identity(ps);
}

/// A stamped payload encodes as the payload, the TTL and the stamp.
pub open spec fn spec_enc_cachable_repos(data: Seq<RepoView>, days: u32, stamp: u64) -> Seq<u8> {
    spec_enc_repo_set(data) + spec_enc_u64(days as u64) + spec_enc_u64(stamp)
}

/// Reading a stamped record payload back.
pub open spec fn spec_dec_cachable_repos(b: Seq<u8>) -> Option<((Seq<RepoView>, u32, u64), Seq<u8>)> {
    match spec_dec_repo_set(b) {
        Some((data, r1)) => match spec_dec_u64(r1) {
            Some((days, r2)) => if days <= 0xFFFF_FFFFu64 {
                match spec_dec_u64(r2) {
                    Some((stamp, r3)) => Some(((data, days as u32, stamp), r3)),
                    None => None,
                }
            } else {
                None
            },
            None => None,
        },
        None => None,
    }
}

/// A stamped dictionary payload encodes the same way.
pub open spec fn spec_enc_cachable_colors(
    data: Seq<(Seq<char>, Seq<char>)>,
    days: u32,
    stamp: u64,
) -> Seq<u8> {
    spec_enc_strmap(data) + spec_enc_u64(days as u64) + spec_enc_u64(stamp)
}

/// Reading a stamped dictionary payload back.
pub open spec fn spec_dec_cachable_colors(b: Seq<u8>) -> Option<
    ((Seq<(Seq<char>, Seq<char>)>, u32, u64), Seq<u8>),
> {
    match spec_dec_strmap(b) {
        Some((data, r1)) => match spec_dec_u64(r1) {
            Some((days, r2)) => if days <= 0xFFFF_FFFFu64 {
                match spec_dec_u64(r2) {
                    Some((stamp, r3)) => Some(((data, days as u32, stamp), r3)),
                    None => None,
                }
            } else {
                None
            },
            None => None,
        },
        None => None,
    }
}

/// A stamped record payload survives the trip.
proof fn lemma_cachable_repos_round_trip(data: Seq<RepoView>, days: u32, stamp: u64, rest: Seq<u8>)
    requires
        repo_sorted(data),
        unique_uids(data),
        repos_bounded(data),
    ensures
        spec_dec_cachable_repos(spec_enc_cachable_repos(data, days, stamp) + rest) == Some(
            ((data, days, stamp), rest),
        ),
{
    let p1 = spec_enc_repo_set(data);
    let p2 = spec_enc_u64(days as u64);
    let p3 = spec_enc_u64(stamp);
    let t2 = p3 + rest;
    let t1 = p2 + t2;
    vstd::seq_lib::lemma_concat_associative(p1 + p2, p3, rest);
    vstd::seq_lib::lemma_concat_associative(p1, p2, t2);
    assert(spec_enc_cachable_repos(data, days, stamp) + rest == p1 + t1);
    lemma_repo_set_round_trip(data, t1);
    crate::codec::lemma_u64_round_trip(days as u64, t2);
    crate::codec::lemma_u64_round_trip(stamp, rest);
    assert((days as u64) as u32 == days);
}

/// A stamped dictionary payload survives the trip.
proof fn lemma_cachable_colors_round_trip(
    data: Seq<(Seq<char>, Seq<char>)>,
    days: u32,
    stamp: u64,
    rest: Seq<u8>,
)
    requires
        unique_keys(data),
        pairs_bounded(data),
    ensures
        spec_dec_cachable_colors(spec_enc_cachable_colors(data, days, stamp) + rest) == Some(
            ((data, days, stamp), rest),
        ),
{
    let p1 = spec_enc_strmap(data);
    let p2 = spec_enc_u64(days as u64);
    let p3 = spec_enc_u64(stamp);
    let t2 = p3 + rest;
    let t1 = p2 + t2;
    vstd::seq_lib::lemma_concat_associative(p1 + p2, p3, rest);
    vstd::seq_lib::lemma_concat_associative(p1, p2, t2);
    assert(spec_enc_cachable_colors(data, days, stamp) + rest == p1 + t1);
    lemma_strmap_round_trip(data, t1);
    crate::codec::lemma_u64_round_trip(days as u64, t2);
    crate::codec::lemma_u64_round_trip(stamp, rest);
    assert((days as u64) as u32 == days);
}

/// The whole cache encodes as its two stamped payloads.
pub open spec fn spec_enc_cache(c: &Cache) -> Seq<u8> {
    spec_enc_cachable_repos(c.repos.data@, c.repos.days_to_update, c.repos.last_update)
        + spec_enc_cachable_colors(c.colors.data@, c.colors.days_to_update, c.colors.last_update)
}

/// The parts a decoded cache is made of.
pub open spec fn spec_dec_cache(b: Seq<u8>) -> Option<
    (((Seq<RepoView>, u32, u64), (Seq<(Seq<char>, Seq<char>)>, u32, u64)), Seq<u8>),
> {
    match spec_dec_cachable_repos(b) {
        Some((rp, r1)) => match spec_dec_cachable_colors(r1) {
            Some((cp, r2)) => Some(((rp, cp), r2)),
            None => None,
        },
        None => None,
    }
}

/// The cache's parts, as the decoder would deliver them.
pub open spec fn cache_parts(c: &Cache) -> (
    (Seq<RepoView>, u32, u64),
    (Seq<(Seq<char>, Seq<char>)>, u32, u64),
) {
    (
        (c.repos.data@, c.repos.days_to_update, c.repos.last_update),
        (c.colors.data@, c.colors.days_to_update, c.colors.last_update),
    )
}

/// The length bounds a cache must meet to be encodable; every cache built
/// from in-memory values meets them.
pub open spec fn cache_bounded(c: &Cache) -> bool {
    repos_bounded(c.repos.data@) && pairs_bounded(c.colors.data@)
}

/// Round-trip law: decoding an encoded cache yields the cache back, whole,
/// with nothing left over. Together with the contracts of `Cache::encode`
/// and `Cache::decode`, decoding what `encode` produced returns a cache
/// equal to the one encoded.
pub proof fn lemma_cache_round_trip(c: &Cache, rest: Seq<u8>)
    requires
        c.wf(),
        cache_bounded(c),
    ensures
        spec_dec_cache(spec_enc_cache(c) + rest) == Some((cache_parts(c), rest)),
{
    let p1 = spec_enc_cachable_repos(c.repos.data@, c.repos.days_to_update, c.repos.last_update);
    let p2 = spec_enc_cachable_colors(
        c.colors.data@,
        c.colors.days_to_update,
        c.colors.last_update,
    );
    vstd::seq_lib::lemma_concat_associative(p1, p2, rest);
    assert(spec_enc_cache(c) + rest == p1 + (p2 + rest));
    lemma_cachable_repos_round_trip(
        c.repos.data@,
        c.repos.days_to_update,
        c.repos.last_update,
        p2 + rest,
    );
    lemma_cachable_colors_round_trip(
        c.colors.data@,
        c.colors.days_to_update,
        c.colors.last_update,
        rest,
    );
}

/// Appends one stamped record payload.
fn enc_cachable_repos(out: &mut Vec<u8>, c: &Cachable<RepoSet>)
    ensures
        final(out)@ == old(out)@ + spec_enc_cachable_repos(c.data@, c.days_to_update, c.last_update),
{
    enc_repo_set(out, &c.data);
    enc_u64(out, c.days_to_update as u64);
    enc_u64(out, c.last_update);
    proof {
        assert(final(out)@ =~= old(out)@ + spec_enc_cachable_repos(
            c.data@,
            c.days_to_update,
            c.last_update,
        ));
    }
}

/// Appends one stamped dictionary payload.
fn enc_cachable_colors(out: &mut Vec<u8>, c: &Cachable<StrMap>)
    ensures
        final(out)@ == old(out)@ + spec_enc_cachable_colors(
            c.data@,
            c.days_to_update,
            c.last_update,
        ),
{
    enc_strmap(out, &c.data);
    enc_u64(out, c.days_to_update as u64);
    enc_u64(out, c.last_update);
    proof {
        assert(final(out)@ =~= old(out)@ + spec_enc_cachable_colors(
            c.data@,
            c.days_to_update,
            c.last_update,
        ));
    }
}

/// Reads one stamped record payload off the front.
fn dec_cachable_repos(b: &[u8]) -> (r: Option<(Cachable<RepoSet>, &[u8])>)
    ensures
        match r {
            Some(p) => spec_dec_cachable_repos(b@) == Some(
                ((p.0.data@, p.0.days_to_update, p.0.last_update), p.1@),
            ) && p.0.data.wf(),
            None => spec_dec_cachable_repos(b@) is None,
        },
{
    let (data, r1) = match dec_repo_set(b) {
        Some(p) => p,
        None => {
            return None;
        },
    };
    let (days, r2) = match dec_u64(r1) {
        Some(p) => p,
        None => {
            return None;
        },
    };
    if days > 0xFFFF_FFFF {
        return None;
    }
    let (stamp, r3) = match dec_u64(r2) {
        Some(p) => p,
        None => {
            return None;
        },
    };
    Some((Cachable { data, days_to_update: days as u32, last_update: stamp }, r3))
}

/// Reads one stamped dictionary payload off the front.
fn dec_cachable_colors(b: &[u8]) -> (r: Option<(Cachable<StrMap>, &[u8])>)
    ensures
        match r {
            Some(p) => spec_dec_cachable_colors(b@) == Some(
                ((p.0.data@, p.0.days_to_update, p.0.last_update), p.1@),
            ) && p.0.data.wf(),
            None => spec_dec_cachable_colors(b@) is None,
        },
{
    let (data, r1) = match dec_strmap(b) {
        Some(p) => p,
        None => {
            return None;
        },
    };
    let (days, r2) = match dec_u64(r1) {
        Some(p) => p,
        None => {
            return None;
        },
    };
    if days > 0xFFFF_FFFF {
        return None;
    }
    let (stamp, r3) = match dec_u64(r2) {
        Some(p) => p,
        None => {
            return None;
        },
    };
    Some((Cachable { data, days_to_update: days as u32, last_update: stamp }, r3))
}

impl Cache {
    /// Serializes and compresses the cache into the blob bytes: always
    /// succeeds, and the blob inflates back to exactly the cache's encoding.
    pub fn encode(&self) -> (r: Result<Vec<u8>, EncodeError>)
        ensures
            r is Ok,
            inflate_of(r->Ok_0@) == Some(spec_enc_cache(self)),
    {
        let mut bytes: Vec<u8> = Vec::new();
        enc_cachable_repos(&mut bytes, &self.repos);
        enc_cachable_colors(&mut bytes, &self.colors);
        proof {
            assert(bytes@ =~= spec_enc_cache(self));
        }
        Ok(zlib_compress(&bytes))
    }

    /// Decompresses and reads a cache back from blob bytes. Decoding
    /// succeeds exactly on a valid zlib stream whose inflation is one whole
    /// cache encoding, and then returns precisely the decoded parts.
    pub fn decode(bytes: &[u8]) -> (r: Result<Cache, DecodeError>)
        ensures
            r is Ok <==> (inflate_of(bytes@) is Some && spec_dec_cache(inflate_of(bytes@)->0)
                is Some && ({
                let d = spec_dec_cache(inflate_of(bytes@)->0)->0;
                d.1.len() == 0
            })),
            r is Ok ==> ({
                let d = spec_dec_cache(inflate_of(bytes@)->0)->0;
                cache_parts(&r->Ok_0) == d.0 && r->Ok_0.wf()
            }),
            r is Err ==> r->Err_0 == (if inflate_of(bytes@) is None {
                DecodeError::Decompression
            } else {
                DecodeError::Malformed
            }),
    {
        let inflated = match zlib_decompress(bytes) {
            Ok(v) => v,
            Err(_) => {
                return Err(DecodeError::Decompression);
            },
        };
        let (repos, r1) = match dec_cachable_repos(inflated.as_slice()) {
            Some(p) => p,
            None => {
                return Err(DecodeError::Malformed);
            },
        };
        let (colors, r2) = match dec_cachable_colors(r1) {
            Some(p) => p,
            None => {
                return Err(DecodeError::Malformed);
            },
        };
        if r2.len() != 0 {
            return Err(DecodeError::Malformed);
        }
        Ok(Cache { repos, colors })
    }
}

/// The serialized record collection alone, compressed: the lean blob for a
/// bare record store.
#[derive(Debug, PartialEq)]
pub struct BinCache {
    pub repos: RepoSet,
}

impl BinCache {
    /// Wraps a record collection for storage.
    pub fn new(repos: RepoSet) -> (r: BinCache)
        ensures
            r.repos == repos,
    {
        BinCache { repos }
    }

    /// Serializes and compresses the record collection: always succeeds, and
    /// the blob inflates back to exactly the collection's encoding.
    pub fn dump(&self) -> (r: Result<Vec<u8>, EncodeError>)
        ensures
            r is Ok,
            inflate_of(r->Ok_0@) == Some(spec_enc_repo_set(self.repos@)),
    {
        let mut bytes: Vec<u8> = Vec::new();
        enc_repo_set(&mut bytes, &self.repos);
        proof {
            assert(bytes@ =~= spec_enc_repo_set(self.repos@));
        }
        Ok(zlib_compress(&bytes))
    }

    /// Decompresses and reads a record collection back. Loading succeeds
    /// exactly on a valid zlib stream whose inflation is one whole
    /// collection encoding.
    pub fn load(compressed_bytes: &[u8]) -> (r: Result<BinCache, DecodeError>)
        ensures
            r is Ok <==> (inflate_of(compressed_bytes@) is Some && spec_dec_repo_set(
                inflate_of(compressed_bytes@)->0,
            ) is Some && ({
                let d = spec_dec_repo_set(inflate_of(compressed_bytes@)->0)->0;
                d.1.len() == 0
            })),
            r is Ok ==> ({
                let d = spec_dec_repo_set(inflate_of(compressed_bytes@)->0)->0;
                r->Ok_0.repos@ == d.0 && r->Ok_0.repos.wf()
            }),
            r is Err ==> r->Err_0 == (if inflate_of(compressed_bytes@) is None {
                DecodeError::Decompression
            } else {
                DecodeError::Malformed
            }),
    {
        let inflated = match zlib_decompress(compressed_bytes) {
            Ok(v) => v,
            Err(_) => {
                return Err(DecodeError::Decompression);
            },
        };
        let (repos, rest) = match dec_repo_set(inflated.as_slice()) {
            Some(p) => p,
            None => {
                return Err(DecodeError::Malformed);
            },
        };
        if rest.len() != 0 {
            return Err(DecodeError::Malformed);
        }
        Ok(BinCache { repos })
    }
}


} // verus!
