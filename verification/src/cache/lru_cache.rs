//! LRU cache backend for DNS records.

use vstd::prelude::*;
use super::{unix_now, CacheKey, CachedDnsRecord};
use lru::LruCache;

verus! {

#[verifier::external_type_specification]
#[verifier::external_body]
#[verifier::reject_recursive_types(K)]
#[verifier::reject_recursive_types(V)]
#[verifier::reject_recursive_types(S)]
pub struct ExLruCache<K, V, S>(lru::LruCache<K, V, S>);

#[verifier::external_type_specification]
#[verifier::external_body]
pub struct ExDefaultHasher(lru::DefaultHasher);

/// What a key stands for: a domain's text and a query type's number.
pub type KeyView = (Seq<char>, u16);

/// The entries of an LRU cache, most recently used first.
pub uninterp spec fn lru_entries(c: LruCache<CacheKey, CachedDnsRecord>) -> Seq<(KeyView, CachedDnsRecord)>;

/// The greatest number of entries an LRU cache holds.
pub uninterp spec fn lru_capacity(c: LruCache<CacheKey, CachedDnsRecord>) -> nat;

/// The record stored under `k`, if any.
pub open spec fn find_key(s: Seq<(KeyView, CachedDnsRecord)>, k: KeyView) -> Option<CachedDnsRecord>
    decreases s.len(),
{
    if s.len() == 0 {
        None
    } else if s[0].0 == k {
        Some(s[0].1)
    } else {
        find_key(s.drop_first(), k)
    }
}

/// `s` without its first entry under `k` (the same `s` if there is none).
pub open spec fn drop_key(s: Seq<(KeyView, CachedDnsRecord)>, k: KeyView) -> Seq<(KeyView, CachedDnsRecord)>
    decreases s.len(),
{
    if s.len() == 0 {
        s
    } else if s[0].0 == k {
        s.drop_first()
    } else {
        seq![s[0]] + drop_key(s.drop_first(), k)
    }
}

/// No two entries share a key.
pub open spec fn distinct_keys(s: Seq<(KeyView, CachedDnsRecord)>) -> bool {
    forall|i: int, j: int| 0 <= i < j < s.len() ==> s[i].0 != s[j].0
}

/// The entries after `k` was looked up: a hit moves to the front.
pub open spec fn after_get(s: Seq<(KeyView, CachedDnsRecord)>, k: KeyView) -> Seq<(KeyView, CachedDnsRecord)> {
    match find_key(s, k) {
        Some(v) => seq![(k, v)] + drop_key(s, k),
        None => s,
    }
}

/// The entries after `v` was put under `k` with room for `cap` entries: the
/// entry goes to the front, replacing the one under `k` if any, and otherwise
/// evicting the least recently used entry when the cache is full.
pub open spec fn after_put(s: Seq<(KeyView, CachedDnsRecord)>, k: KeyView, v: CachedDnsRecord, cap: nat) -> Seq<
    (KeyView, CachedDnsRecord),
> {
    seq![(k, v)] + if find_key(s, k) is Some {
        drop_key(s, k)
    } else if s.len() >= cap {
        s.drop_last()
    } else {
        s
    }
}

/// Calls `LruCache::new`: an empty cache that holds at most `cap` entries.
#[verifier::external_body]
fn lru_new(cap: usize) -> (c: LruCache<CacheKey, CachedDnsRecord>)
    requires
        cap > 0,
    ensures
        lru_entries(c) == Seq::<(KeyView, CachedDnsRecord)>::empty(),
        lru_capacity(c) == cap,
{
    LruCache::new(std::num::NonZeroUsize::new(cap).unwrap())
}

/// Calls `LruCache::get`: the record under `key`, if any, which becomes the most
/// recently used entry.
#[verifier::external_body]
fn lru_get(c: &mut LruCache<CacheKey, CachedDnsRecord>, key: &CacheKey) -> (r: Option<CachedDnsRecord>)
    ensures
        r == find_key(lru_entries(*old(c)), key.key_view()),
        lru_entries(*final(c)) == after_get(lru_entries(*old(c)), key.key_view()),
        lru_capacity(*final(c)) == lru_capacity(*old(c)),
{
    c.get(key).cloned()
}

/// Calls `LruCache::put`: `v` becomes the most recently used entry under `key`;
/// the entry it replaces, or else the least recently used one when the cache is
/// full, leaves.
#[verifier::external_body]
fn lru_put(c: &mut LruCache<CacheKey, CachedDnsRecord>, key: CacheKey, v: CachedDnsRecord)
    ensures
        lru_entries(*final(c)) == after_put(lru_entries(*old(c)), key.key_view(), v, lru_capacity(*old(c))),
        lru_capacity(*final(c)) == lru_capacity(*old(c)),
{
    c.put(key, v);
}

/// Calls `LruCache::pop`: removes the entry under `key` and hands back its record.
#[verifier::external_body]
fn lru_pop(c: &mut LruCache<CacheKey, CachedDnsRecord>, key: &CacheKey) -> (r: Option<CachedDnsRecord>)
    ensures
        r == find_key(lru_entries(*old(c)), key.key_view()),
        lru_entries(*final(c)) == drop_key(lru_entries(*old(c)), key.key_view()),
        lru_capacity(*final(c)) == lru_capacity(*old(c)),
{
    c.pop(key)
}

/// Calls `LruCache::len`: the number of entries.
#[verifier::external_body]
fn lru_len(c: &LruCache<CacheKey, CachedDnsRecord>) -> (n: usize)
    ensures
        n == lru_entries(*c).len(),
{
    c.len()
}

/// Calls `LruCache::clear`: removes every entry.
#[verifier::external_body]
fn lru_clear(c: &mut LruCache<CacheKey, CachedDnsRecord>)
    ensures
        lru_entries(*final(c)) == Seq::<(KeyView, CachedDnsRecord)>::empty(),
        lru_capacity(*final(c)) == lru_capacity(*old(c)),
{
    c.clear();
}

/// Calls `LruCache::iter`: every entry, most recently used first, its key cloned.
#[verifier::external_body]
fn lru_snapshot(c: &LruCache<CacheKey, CachedDnsRecord>) -> (v: Vec<(CacheKey, CachedDnsRecord)>)
    ensures
        v@.len() == lru_entries(*c).len(),
        forall|i: int|
            0 <= i < v@.len() ==> (#[trigger] v@[i]).0.key_view() == lru_entries(*c)[i].0 && v@[i].1
                == lru_entries(*c)[i].1,
{
    c.iter().map(|(k, r)| (k.clone(), *r)).collect()
}


/// Whether `s` has an entry under `k`.
pub open spec fn has_key(s: Seq<(KeyView, CachedDnsRecord)>, k: KeyView) -> bool {
    exists|i: int| 0 <= i < s.len() && s[i].0 == k
}

/// What looking up a key finds.
pub proof fn lemma_find_key(s: Seq<(KeyView, CachedDnsRecord)>, k: KeyView)
    ensures
        find_key(s, k) is Some <==> has_key(s, k),
        find_key(s, k) matches Some(v) ==> exists|i: int| 0 <= i < s.len() && s[i] == (k, v),
        distinct_keys(s) ==> forall|i: int| 0 <= i < s.len() && s[i].0 == k ==> find_key(s, k) == Some(s[i].1),
    decreases s.len(),
{
    if s.len() > 0 {
        lemma_find_key(s.drop_first(), k);
        if s[0].0 != k {
            if has_key(s, k) {
                let i = choose|i: int| 0 <= i < s.len() && s[i].0 == k;
                assert(s.drop_first()[i - 1].0 == k);
            }
            if has_key(s.drop_first(), k) {
                let i = choose|i: int| 0 <= i < s.drop_first().len() && s.drop_first()[i].0 == k;
                assert(s[i + 1].0 == k);
            }
            if find_key(s, k) is Some {
                let v = find_key(s, k)->0;
                let i = choose|i: int| 0 <= i < s.drop_first().len() && s.drop_first()[i] == (k, v);
                assert(s[i + 1] == (k, v));
            }
        }
    }
}

/// Dropping a key that has an entry removes exactly one entry.
proof fn lemma_drop_key_len(s: Seq<(KeyView, CachedDnsRecord)>, k: KeyView)
    ensures
        find_key(s, k) is Some ==> drop_key(s, k).len() == s.len() - 1,
    decreases s.len(),
{
    if s.len() > 0 {
        lemma_drop_key_len(s.drop_first(), k);
    }
}

/// What dropping a key leaves: every other entry, in order.
pub proof fn lemma_drop_key(s: Seq<(KeyView, CachedDnsRecord)>, k: KeyView)
    requires
        distinct_keys(s),
    ensures
        distinct_keys(drop_key(s, k)),
        !has_key(drop_key(s, k), k),
        has_key(s, k) ==> drop_key(s, k).len() == s.len() - 1,
        !has_key(s, k) ==> drop_key(s, k) == s,
        forall|e: (KeyView, CachedDnsRecord)| e.0 != k ==> (drop_key(s, k).contains(e) <==> s.contains(e)),
    decreases s.len(),
{
    if s.len() > 0 {
        let rest = s.drop_first();
        assert(distinct_keys(rest));
        lemma_drop_key(rest, k);
        if s[0].0 == k {
            assert forall|i: int| 0 <= i < rest.len() implies rest[i].0 != k by {
                assert(s[i + 1].0 != s[0].0);
            }
            assert forall|e: (KeyView, CachedDnsRecord)| e.0 != k implies (rest.contains(e) <==> s.contains(e)) by {
                if s.contains(e) {
                    let i = choose|i: int| 0 <= i < s.len() && s[i] == e;
                    assert(rest[i - 1] == e);
                }
                if rest.contains(e) {
                    let i = choose|i: int| 0 <= i < rest.len() && rest[i] == e;
                    assert(s[i + 1] == e);
                }
            }
        } else {
            let d = drop_key(s, k);
            let dr = drop_key(rest, k);
            assert(d == seq![s[0]] + dr);
            assert forall|e: (KeyView, CachedDnsRecord)| e.0 != k implies (d.contains(e) <==> s.contains(e)) by {
                if s.contains(e) {
                    let i = choose|i: int| 0 <= i < s.len() && s[i] == e;
                    if i == 0 {
                        assert(d[0] == e);
                    } else {
                        assert(rest[i - 1] == e);
                        assert(rest.contains(e));
                        assert(dr.contains(e));
                        let j = choose|j: int| 0 <= j < dr.len() && dr[j] == e;
                        assert(d[j + 1] == e);
                    }
                }
                if d.contains(e) {
                    let i = choose|i: int| 0 <= i < d.len() && d[i] == e;
                    if i == 0 {
                        assert(s[0] == e);
                    } else {
                        assert(dr[i - 1] == e);
                        assert(rest.contains(e));
                        let j = choose|j: int| 0 <= j < rest.len() && rest[j] == e;
                        assert(s[j + 1] == e);
                    }
                }
            }
            assert forall|i: int, j: int| 0 <= i < j < d.len() implies d[i].0 != d[j].0 by {
                if i == 0 {
                    assert(dr.contains(d[j]));
                    assert(rest.contains(d[j]));
                    let m = choose|m: int| 0 <= m < rest.len() && rest[m] == d[j];
                    assert(s[m + 1] == d[j]);
                } else {
                    assert(d[i] == dr[i - 1] && d[j] == dr[j - 1]);
                }
            }
            if has_key(d, k) {
                let i = choose|i: int| 0 <= i < d.len() && d[i].0 == k;
                if i > 0 {
                    assert(dr[i - 1].0 == k);
                }
            }
            if has_key(s, k) {
                let i = choose|i: int| 0 <= i < s.len() && s[i].0 == k;
                assert(rest[i - 1].0 == k);
            } else {
                if has_key(rest, k) {
                    let i = choose|i: int| 0 <= i < rest.len() && rest[i].0 == k;
                    assert(s[i + 1].0 == k);
                }
                assert(d =~= s);
            }
        }
    }
}


/// The entries that have not expired at `now`, in order.
pub open spec fn fresh_entries(s: Seq<(KeyView, CachedDnsRecord)>, now: int) -> Seq<(KeyView, CachedDnsRecord)>
    decreases s.len(),
{
    if s.len() == 0 {
        s
    } else if s[0].1.expired_at(now) {
        fresh_entries(s.drop_first(), now)
    } else {
        seq![s[0]] + fresh_entries(s.drop_first(), now)
    }
}

/// The entries whose keys are not in `ks`, in order.
pub open spec fn without_keys(s: Seq<(KeyView, CachedDnsRecord)>, ks: Set<KeyView>) -> Seq<(KeyView, CachedDnsRecord)>
    decreases s.len(),
{
    if s.len() == 0 {
        s
    } else if ks.contains(s[0].0) {
        without_keys(s.drop_first(), ks)
    } else {
        seq![s[0]] + without_keys(s.drop_first(), ks)
    }
}

/// Keeping the entries whose keys are not in an empty set keeps them all.
proof fn lemma_without_no_keys(s: Seq<(KeyView, CachedDnsRecord)>)
    ensures
        without_keys(s, Set::empty()) == s,
    decreases s.len(),
{
    if s.len() > 0 {
        lemma_without_no_keys(s.drop_first());
        assert(seq![s[0]] + s.drop_first() =~= s);
    }
}

/// A key that no entry has can join the excluded ones to no effect.
proof fn lemma_without_absent_key(s: Seq<(KeyView, CachedDnsRecord)>, ks: Set<KeyView>, k: KeyView)
    requires
        !has_key(s, k),
    ensures
        without_keys(s, ks.insert(k)) == without_keys(s, ks),
    decreases s.len(),
{
    if s.len() > 0 {
        assert(s[0].0 != k);
        if has_key(s.drop_first(), k) {
            let i = choose|i: int| 0 <= i < s.drop_first().len() && s.drop_first()[i].0 == k;
            assert(s[i + 1].0 == k);
        }
        lemma_without_absent_key(s.drop_first(), ks, k);
    }
}

/// Dropping one more key from what remains is excluding it too.
proof fn lemma_drop_from_without(s: Seq<(KeyView, CachedDnsRecord)>, ks: Set<KeyView>, k: KeyView)
    requires
        distinct_keys(s),
    ensures
        drop_key(without_keys(s, ks), k) == without_keys(s, ks.insert(k)),
    decreases s.len(),
{
    if s.len() > 0 {
        let rest = s.drop_first();
        assert(distinct_keys(rest));
        lemma_drop_from_without(rest, ks, k);
        if ks.contains(s[0].0) {
        } else if s[0].0 == k {
            if has_key(rest, k) {
                let i = choose|i: int| 0 <= i < rest.len() && rest[i].0 == k;
                assert(s[i + 1].0 == s[0].0);
            }
            lemma_without_absent_key(rest, ks, k);
            assert((seq![s[0]] + without_keys(rest, ks)).drop_first() =~= without_keys(rest, ks));
        } else {
            assert((seq![s[0]] + without_keys(rest, ks))[0] == s[0]);
            assert((seq![s[0]] + without_keys(rest, ks)).drop_first() =~= without_keys(rest, ks));
        }
    }
}

/// Excluding exactly the keys of the expired entries keeps the fresh ones.
proof fn lemma_without_expired(s: Seq<(KeyView, CachedDnsRecord)>, ks: Set<KeyView>, now: int)
    requires
        forall|i: int| 0 <= i < s.len() ==> (ks.contains(#[trigger] s[i].0) <==> s[i].1.expired_at(now)),
    ensures
        without_keys(s, ks) == fresh_entries(s, now),
    decreases s.len(),
{
    if s.len() > 0 {
        let rest = s.drop_first();
        assert forall|i: int| 0 <= i < rest.len() implies (ks.contains(#[trigger] rest[i].0) <==> rest[i].1.expired_at(now)) by {
            assert(rest[i] == s[i + 1]);
        }
        assert(ks.contains(s[0].0) <==> s[0].1.expired_at(now));
        lemma_without_expired(rest, ks, now);
    }
}

/// The fresh entries are among the entries.
proof fn lemma_fresh_len(s: Seq<(KeyView, CachedDnsRecord)>, now: int)
    ensures
        fresh_entries(s, now).len() <= s.len(),
        distinct_keys(s) ==> distinct_keys(fresh_entries(s, now)),
        forall|e: (KeyView, CachedDnsRecord)| fresh_entries(s, now).contains(e) ==> s.contains(e),
    decreases s.len(),
{
    if s.len() > 0 {
        let rest = s.drop_first();
        lemma_fresh_len(rest, now);
        let f = fresh_entries(s, now);
        let fr = fresh_entries(rest, now);
        assert forall|e: (KeyView, CachedDnsRecord)| f.contains(e) implies s.contains(e) by {
            let i = choose|i: int| 0 <= i < f.len() && f[i] == e;
            if !s[0].1.expired_at(now) && i == 0 {
                assert(s[0] == e);
            } else {
                let j = if s[0].1.expired_at(now) { i } else { i - 1 };
                assert(fr[j] == e);
                assert(fr.contains(e));
                assert(rest.contains(e));
                let m = choose|m: int| 0 <= m < rest.len() && rest[m] == e;
                assert(s[m + 1] == e);
            }
        }
        if distinct_keys(s) {
            assert(distinct_keys(rest)) by {
                assert forall|i: int, j: int| 0 <= i < j < rest.len() implies rest[i].0 != rest[j].0 by {
                    assert(rest[i] == s[i + 1] && rest[j] == s[j + 1]);
                }
            }
            if !s[0].1.expired_at(now) {
                assert forall|i: int, j: int| 0 <= i < j < f.len() implies f[i].0 != f[j].0 by {
                    if i == 0 {
                        assert(f[j] == fr[j - 1]);
                        assert(fr.contains(f[j]));
                        assert(rest.contains(f[j]));
                        let m = choose|m: int| 0 <= m < rest.len() && rest[m] == f[j];
                        assert(s[m + 1] == f[j]);
                    } else {
                        assert(f[i] == fr[i - 1] && f[j] == fr[j - 1]);
                    }
                }
            }
        }
    }
}

/// Looking a key up and putting an entry keep the keys distinct and the number of
/// entries within the capacity.
proof fn lemma_front_entry(s: Seq<(KeyView, CachedDnsRecord)>, k: KeyView, v: CachedDnsRecord, cap: nat)
    requires
        distinct_keys(s),
        s.len() <= cap,
        cap >= 1,
    ensures
        distinct_keys(after_put(s, k, v, cap)),
        after_put(s, k, v, cap).len() <= cap,
        distinct_keys(after_get(s, k)),
        after_get(s, k).len() == s.len(),
{
    lemma_drop_key(s, k);
    lemma_find_key(s, k);
    let rest = if find_key(s, k) is Some { drop_key(s, k) } else if s.len() >= cap { s.drop_last() } else { s };
    assert(distinct_keys(rest) && !has_key(rest, k)) by {
        if find_key(s, k) is None && s.len() >= cap {
            assert forall|i: int, j: int| 0 <= i < j < rest.len() implies rest[i].0 != rest[j].0 by {
                assert(rest[i] == s[i] && rest[j] == s[j]);
            }
            if has_key(rest, k) {
                let i = choose|i: int| 0 <= i < rest.len() && rest[i].0 == k;
                assert(s[i].0 == k);
            }
        }
    }
    let t = seq![(k, v)] + rest;
    assert(t == after_put(s, k, v, cap));
    assert forall|i: int, j: int| 0 <= i < j < t.len() implies t[i].0 != t[j].0 by {
        if i == 0 {
            assert(t[j] == rest[j - 1]);
        } else {
            assert(t[i] == rest[i - 1] && t[j] == rest[j - 1]);
        }
    }
    if find_key(s, k) is Some {
        let g = after_get(s, k);
        let d = drop_key(s, k);
        assert forall|i: int, j: int| 0 <= i < j < g.len() implies g[i].0 != g[j].0 by {
            if i == 0 {
                assert(g[j] == d[j - 1]);
            } else {
                assert(g[i] == d[i - 1] && g[j] == d[j - 1]);
            }
        }
    }
}

/// Removes the records in `c` that have expired at `now` and says how many it
/// removed.
fn remove_expired(c: &mut LruCache<CacheKey, CachedDnsRecord>, now: u64) -> (removed: usize)
    requires
        distinct_keys(lru_entries(*old(c))),
    ensures
        lru_entries(*final(c)) == fresh_entries(lru_entries(*old(c)), now as int),
        lru_capacity(*final(c)) == lru_capacity(*old(c)),
        removed == lru_entries(*old(c)).len() - lru_entries(*final(c)).len(),
{
    let ghost e0 = lru_entries(*c);
    let initial_size = lru_len(c);
    // the keys of the expired records, most recently used first
    let snapshot = lru_snapshot(c);
    let mut expired_keys: Vec<CacheKey> = Vec::new();
    let ghost mut origin: Seq<int> = Seq::empty();
    let mut i: usize = 0;
    while i < snapshot.len()
        invariant
            i <= snapshot@.len(),
            snapshot@.len() == e0.len(),
            forall|m: int|
                0 <= m < snapshot@.len() ==> (#[trigger] snapshot@[m]).0.key_view() == e0[m].0 && snapshot@[m].1
                    == e0[m].1,
            forall|m: int|
                0 <= m < i && e0[m].1.expired_at(now as int) ==> exists|t: int|
                    #![trigger expired_keys@[t]]
                    0 <= t < expired_keys@.len() && expired_keys@[t].key_view() == e0[m].0,
            origin.len() == expired_keys@.len(),
            forall|t: int|
                0 <= t < expired_keys@.len() ==> 0 <= #[trigger] origin[t] < i && e0[origin[t]].1.expired_at(
                    now as int,
                ) && expired_keys@[t].key_view() == e0[origin[t]].0,
        decreases snapshot@.len() - i,
    {
        let (key, record) = &snapshot[i];
        let ghost before = expired_keys@;
        if record.is_expired_at(now) {
            expired_keys.push(key.duplicate());
            proof {
                origin = origin.push(i as int);
            }
            assert(expired_keys@[before.len() as int].key_view() == e0[i as int].0);
        }
        assert forall|t: int| 0 <= t < before.len() implies #[trigger] expired_keys@[t] == before[t] by {}
        assert forall|m: int| 0 <= m < i + 1 && e0[m].1.expired_at(now as int) implies exists|t: int|
            #![trigger expired_keys@[t]]
            0 <= t < expired_keys@.len() && expired_keys@[t].key_view() == e0[m].0 by {
            if m < i {
                let t = choose|t: int| #![trigger before[t]] 0 <= t < before.len() && before[t].key_view() == e0[m].0;
                assert(expired_keys@[t] == before[t]);
            } else {
                assert(expired_keys@[before.len() as int].key_view() == e0[m].0);
            }
        }
        i = i + 1;
    }
    // remove them
    let ghost ks = Set::<KeyView>::empty();
    proof {
        lemma_without_no_keys(e0);
    }
    let mut j: usize = 0;
    while j < expired_keys.len()
        invariant
            j <= expired_keys@.len(),
            distinct_keys(e0),
            lru_entries(*c) == without_keys(e0, ks),
            lru_capacity(*c) == lru_capacity(*old(c)),
            e0 == lru_entries(*old(c)),
            ks == Set::new(|k: KeyView| exists|t: int| 0 <= t < j && expired_keys@[t].key_view() == k),
        decreases expired_keys@.len() - j,
    {
        proof {
            lemma_drop_from_without(e0, ks, expired_keys@[j as int].key_view());
        }
        lru_pop(c, &expired_keys[j]);
        proof {
            let k = expired_keys@[j as int].key_view();
            let next = Set::new(|k: KeyView| exists|t: int| 0 <= t < j + 1 && expired_keys@[t].key_view() == k);
            assert(ks.insert(k) =~= next) by {
                assert forall|x: KeyView| next.contains(x) implies ks.insert(x).contains(x) by {}
                assert forall|x: KeyView| next.contains(x) implies #[trigger] ks.insert(k).contains(x) by {
                    let t = choose|t: int| 0 <= t < j + 1 && expired_keys@[t].key_view() == x;
                    if t < j {
                        assert(ks.contains(x));
                    }
                }
                assert forall|x: KeyView| ks.insert(k).contains(x) implies #[trigger] next.contains(x) by {
                    if x != k {
                        let t = choose|t: int| 0 <= t < j && expired_keys@[t].key_view() == x;
                        assert(0 <= t < j + 1 && expired_keys@[t].key_view() == x);
                    } else {
                        assert(0 <= j < j + 1 && expired_keys@[j as int].key_view() == x);
                    }
                }
            }
            ks = next;
        }
        j = j + 1;
    }
    proof {
        assert forall|m: int| 0 <= m < e0.len() implies (ks.contains(#[trigger] e0[m].0) <==> e0[m].1.expired_at(
            now as int,
        )) by {
            if e0[m].1.expired_at(now as int) {
                let t = choose|t: int| #![trigger expired_keys@[t]] 0 <= t < expired_keys@.len() && expired_keys@[t].key_view() == e0[m].0;
                assert(ks.contains(e0[m].0));
            }
            if ks.contains(e0[m].0) {
                let t = choose|t: int| 0 <= t < expired_keys@.len() && expired_keys@[t].key_view() == e0[m].0;
                let m2 = origin[t];
                assert(e0[m2].0 == e0[m].0);
                assert(m2 == m);
            }
        }
        lemma_without_expired(e0, ks, now as int);
        lemma_fresh_len(e0, now as int);
    }
    let removed = initial_size - lru_len(c);
    removed
}

/// LRU-based DNS cache: the records of recent answers, under their keys, with
/// counts of lookups that found a fresh record and of those that did not. A cache
/// made with room for no record keeps none: caching is off.
pub struct LruDnsCache {
    cache: Option<LruCache<CacheKey, CachedDnsRecord>>,
    hits: u64,
    misses: u64,
}

/// The record a lookup at `now` finds in `s`: the one under `k`, unless it has
/// expired.
pub open spec fn lookup_result(s: Seq<(KeyView, CachedDnsRecord)>, k: KeyView, now: int) -> Option<CachedDnsRecord> {
    match find_key(s, k) {
        Some(r) => if r.expired_at(now) { None } else { Some(r) },
        None => None,
    }
}

/// The entries after `v` was stored under `k` in a cache with room for `cap`
/// entries: as `after_put` has it, except that a cache with room for none keeps
/// none.
pub open spec fn after_set(s: Seq<(KeyView, CachedDnsRecord)>, k: KeyView, v: CachedDnsRecord, cap: nat) -> Seq<
    (KeyView, CachedDnsRecord),
> {
    if cap == 0 {
        Seq::empty()
    } else {
        after_put(s, k, v, cap)
    }
}

impl LruDnsCache {
    /// The entries, most recently used first.
    pub closed spec fn entries(&self) -> Seq<(KeyView, CachedDnsRecord)> {
        match self.cache {
            Some(c) => lru_entries(c),
            None => Seq::empty(),
        }
    }

    /// The greatest number of entries the cache holds (none when caching is off).
    pub closed spec fn capacity(&self) -> nat {
        match self.cache {
            Some(c) => lru_capacity(c),
            None => 0,
        }
    }

    /// The number of lookups that found a fresh record.
    pub closed spec fn hits(&self) -> u64 {
        self.hits
    }

    /// The number of lookups that found none.
    pub closed spec fn misses(&self) -> u64 {
        self.misses
    }

    /// No key occurs twice, the cache holds no more entries than its capacity,
    /// and an LRU cache behind it has room for at least one.
    #[verifier::type_invariant]
    closed spec fn well_formed(self) -> bool {
        &&& distinct_keys(self.entries())
        &&& self.entries().len() <= self.capacity()
        &&& self.cache is Some ==> self.capacity() >= 1
    }

    /// How a lookup of `key` at `now` takes the cache from `old` to `new` and
    /// what it answers.
    pub open spec fn lookup_step(old: Self, new: Self, key: KeyView, now: int, res: Option<CachedDnsRecord>) -> bool {
        &&& res == lookup_result(old.entries(), key, now)
        &&& new.entries() == after_get(old.entries(), key)
        &&& new.capacity() == old.capacity()
        &&& res is Some ==> new.hits() == old.hits() + 1 && new.misses() == old.misses()
        &&& res is None ==> new.misses() == old.misses() + 1 && new.hits() == old.hits()
    }

    /// How removing the expired records at `now` takes the cache from `old` to
    /// `new`, and how many records it removes.
    pub open spec fn cleanup_step(old: Self, new: Self, now: int, removed: usize) -> bool {
        &&& new.entries() == fresh_entries(old.entries(), now)
        &&& removed == old.entries().len() - new.entries().len()
        &&& new.capacity() == old.capacity()
        &&& new.hits() == old.hits()
        &&& new.misses() == old.misses()
    }

    /// An empty cache that holds at most `capacity` records; with a capacity of
    /// zero it holds none, and caching is off.
    pub fn new(capacity: usize) -> (c: Self)
        ensures
            c.entries() == Seq::<(KeyView, CachedDnsRecord)>::empty(),
            c.capacity() == capacity,
            c.hits() == 0,
            c.misses() == 0,
    {
        if capacity == 0 {
            LruDnsCache { cache: None, hits: 0, misses: 0 }
        } else {
            LruDnsCache { cache: Some(lru_new(capacity)), hits: 0, misses: 0 }
        }
    }

    /// Takes the LRU cache out, leaving none behind.
    fn take_inner(&mut self) -> (inner: Option<LruCache<CacheKey, CachedDnsRecord>>)
        ensures
            inner == old(self).cache,
            final(self).cache is None,
            final(self).hits == old(self).hits,
            final(self).misses == old(self).misses,
    {
        let mut inner = None;
        std::mem::swap(&mut inner, &mut self.cache);
        inner
    }

    /// Looks `key` up at time `now`: a record that has not expired is a hit and is
    /// handed back; anything else is a miss. A record found under `key`, expired
    /// or not, becomes the most recently used.
    pub fn get_at(&mut self, key: &CacheKey, now: u64) -> (res: Option<CachedDnsRecord>)
        requires
            old(self).hits() < u64::MAX,
            old(self).misses() < u64::MAX,
        ensures
            Self::lookup_step(*old(self), *final(self), key.key_view(), now as int, res),
    {
        proof {
            use_type_invariant(&*self);
        }
        let found = match self.take_inner() {
            Some(mut c) => {
                proof {
                    lemma_front_entry(lru_entries(c), key.key_view(), vstd::pervasive::arbitrary::<CachedDnsRecord>(), lru_capacity(c));
                }
                let r = lru_get(&mut c, key);
                self.cache = Some(c);
                r
            },
            None => None,
        };
        if let Some(record) = found {
            if !record.is_expired_at(now) {
                self.hits = self.hits + 1;
                return Some(record);
            }
        }
        self.misses = self.misses + 1;
        None
    }

    /// Looks `key` up now, by the system clock, as `get_at` does.
    pub fn get(&mut self, key: &CacheKey) -> (res: Option<CachedDnsRecord>)
        requires
            old(self).hits() < u64::MAX,
            old(self).misses() < u64::MAX,
        ensures
            exists|now: u64| Self::lookup_step(*old(self), *final(self), key.key_view(), now as int, res),
    {
        let now = unix_now();
        self.get_at(key, now)
    }

    /// Stores `record` under `key` as the most recently used entry; the entry it
    /// replaces, or else the least recently used one when the cache is full, leaves.
    /// With caching off nothing is stored.
    pub fn set(&mut self, key: CacheKey, record: CachedDnsRecord)
        ensures
            final(self).entries() == after_set(old(self).entries(), key.key_view(), record, old(self).capacity()),
            final(self).capacity() == old(self).capacity(),
            final(self).hits() == old(self).hits(),
            final(self).misses() == old(self).misses(),
    {
        proof {
            use_type_invariant(&*self);
        }
        if let Some(mut c) = self.take_inner() {
            proof {
                lemma_front_entry(lru_entries(c), key.key_view(), record, lru_capacity(c));
            }
            lru_put(&mut c, key, record);
            self.cache = Some(c);
        }
    }

    /// Removes every entry.
    pub fn clear(&mut self)
        ensures
            final(self).entries() == Seq::<(KeyView, CachedDnsRecord)>::empty(),
            final(self).capacity() == old(self).capacity(),
            final(self).hits() == old(self).hits(),
            final(self).misses() == old(self).misses(),
    {
        proof {
            use_type_invariant(&*self);
        }
        if let Some(mut c) = self.take_inner() {
            lru_clear(&mut c);
            self.cache = Some(c);
        }
    }

    /// The number of lookups that found a fresh record.
    pub fn hit_count(&self) -> (n: u64)
        ensures
            n == self.hits(),
    {
        self.hits
    }

    /// The number of lookups that found none.
    pub fn miss_count(&self) -> (n: u64)
        ensures
            n == self.misses(),
    {
        self.misses
    }

    /// The number of entries, which is never more than the capacity; no key
    /// has two entries.
    pub fn size(&self) -> (n: usize)
        ensures
            n == self.entries().len(),
            n <= self.capacity(),
            distinct_keys(self.entries()),
    {
        proof {
            use_type_invariant(self);
        }
        match &self.cache {
            Some(c) => lru_len(c),
            None => 0,
        }
    }

    /// Removes the records that have expired at `now` and says how many it removed.
    pub fn cleanup_at(&mut self, now: u64) -> (removed: usize)
        ensures
            Self::cleanup_step(*old(self), *final(self), now as int, removed),
    {
        proof {
            use_type_invariant(&*self);
        }
        match self.take_inner() {
            Some(mut c) => {
                let ghost before = lru_entries(c);
                let removed = remove_expired(&mut c, now);
                proof {
                    lemma_fresh_len(before, now as int);
                }
                self.cache = Some(c);
                removed
            },
            None => 0,
        }
    }

    /// Removes the records that have expired now, by the system clock, and says
    /// how many it removed.
    pub fn cleanup(&mut self) -> (removed: usize)
        ensures
            exists|now: u64| Self::cleanup_step(*old(self), *final(self), now as int, removed),
    {
        let now = unix_now();
        self.cleanup_at(now)
    }
}


/// A record stored under a key is what a lookup of that key finds next, as long
/// as it has not expired; once it has, the lookup misses.
pub proof fn law_get_after_set(s: Seq<(KeyView, CachedDnsRecord)>, k: KeyView, r: CachedDnsRecord, cap: nat, now: int)
    requires
        cap >= 1,
    ensures
        lookup_result(after_set(s, k, r, cap), k, now) == (if r.expired_at(now) { None } else { Some(r) }),
        after_get(after_set(s, k, r, cap), k) == after_set(s, k, r, cap),
{
    let t = after_set(s, k, r, cap);
    assert(t[0] == (k, r));
    assert(seq![(k, r)] + t.drop_first() =~= t);
}

/// Storing a record under a new key in a full cache evicts the least recently
/// used entry and keeps every other one, in order, behind the new entry.
pub proof fn law_eviction(s: Seq<(KeyView, CachedDnsRecord)>, k: KeyView, r: CachedDnsRecord, cap: nat)
    requires
        distinct_keys(s),
        s.len() == cap,
        cap >= 1,
        !has_key(s, k),
    ensures
        after_set(s, k, r, cap) == seq![(k, r)] + s.drop_last(),
        after_set(s, k, r, cap).len() == cap,
        !has_key(after_set(s, k, r, cap), s.last().0),
{
    lemma_find_key(s, k);
    let t = after_set(s, k, r, cap);
    if has_key(t, s.last().0) {
        let i = choose|i: int| 0 <= i < t.len() && t[i].0 == s.last().0;
        if i == 0 {
            assert(s[s.len() - 1].0 == k);
        } else {
            assert(t[i] == s[i - 1]);
            assert(s[i - 1].0 == s[s.len() - 1].0);
        }
    }
}

/// After removing the expired records at `now`, none left has expired, and every
/// record that had not expired is still there.
pub proof fn law_cleanup_keeps_fresh(s: Seq<(KeyView, CachedDnsRecord)>, now: int)
    ensures
        forall|i: int| 0 <= i < fresh_entries(s, now).len() ==> !(#[trigger] fresh_entries(s, now)[i]).1.expired_at(now),
        forall|e: (KeyView, CachedDnsRecord)| s.contains(e) && !e.1.expired_at(now) ==> fresh_entries(s, now).contains(e),
        forall|e: (KeyView, CachedDnsRecord)| fresh_entries(s, now).contains(e) ==> s.contains(e),
    decreases s.len(),
{
    lemma_fresh_len(s, now);
    if s.len() > 0 {
        let rest = s.drop_first();
        law_cleanup_keeps_fresh(rest, now);
        let f = fresh_entries(s, now);
        let fr = fresh_entries(rest, now);
        assert forall|i: int| 0 <= i < f.len() implies !(#[trigger] f[i]).1.expired_at(now) by {
            if !s[0].1.expired_at(now) && i > 0 {
                assert(f[i] == fr[i - 1]);
            }
        }
        assert forall|e: (KeyView, CachedDnsRecord)| s.contains(e) && !e.1.expired_at(now) implies f.contains(e) by {
            let i = choose|i: int| 0 <= i < s.len() && s[i] == e;
            if i == 0 {
                assert(f[0] == e);
            } else {
                assert(rest[i - 1] == e);
                assert(rest.contains(e));
                assert(fr.contains(e));
                let j = choose|j: int| 0 <= j < fr.len() && fr[j] == e;
                if s[0].1.expired_at(now) {
                    assert(f[j] == e);
                } else {
                    assert(f[j + 1] == e);
                }
            }
        }
    }
}


/// Every lookup is counted once: as a hit when it hands a record back, as a miss
/// otherwise; and a lookup neither adds nor removes entries.
pub proof fn law_lookup_counted_once(
    old: LruDnsCache,
    new: LruDnsCache,
    key: KeyView,
    now: int,
    res: Option<CachedDnsRecord>,
)
    requires
        LruDnsCache::lookup_step(old, new, key, now, res),
    ensures
        new.hits() + new.misses() == old.hits() + old.misses() + 1,
        (res is Some) == (new.hits() == old.hits() + 1),
        new.entries().len() == old.entries().len(),
{
    lemma_drop_key_len(old.entries(), key);
}

/// Storing a record under a key that the cache lacks adds an entry, unless the
/// cache is full; storing one under a key it has keeps the number of entries.
/// So after records are stored under `n` distinct keys, starting empty, the cache
/// holds the least of `n` and its capacity.
pub proof fn law_size_after_set(s: Seq<(KeyView, CachedDnsRecord)>, k: KeyView, r: CachedDnsRecord, cap: nat)
    requires
        s.len() <= cap,
    ensures
        after_set(s, k, r, cap).len() == (if cap == 0 {
            0
        } else if has_key(s, k) {
            s.len()
        } else if s.len() < cap {
            s.len() + 1
        } else {
            cap
        }),
{
    lemma_find_key(s, k);
    lemma_drop_key_len(s, k);
}

/// A cache with room for no record stays empty whatever is stored in it, and
/// every lookup in it misses.
pub proof fn law_caching_off(s: Seq<(KeyView, CachedDnsRecord)>, k: KeyView, r: CachedDnsRecord, k2: KeyView, now: int)
    ensures
        after_set(s, k, r, 0) == Seq::<(KeyView, CachedDnsRecord)>::empty(),
        lookup_result(after_set(s, k, r, 0), k2, now) is None,
{
}

/// Where no key has two entries, a lookup at `now` finds `r` exactly when `r` is
/// stored under the key and has not expired, and finds nothing exactly when no
/// record under the key is fresh.
pub proof fn law_lookup_finds_stored(s: Seq<(KeyView, CachedDnsRecord)>, k: KeyView, r: CachedDnsRecord, now: int)
    requires
        distinct_keys(s),
    ensures
        lookup_result(s, k, now) == Some(r) <==> s.contains((k, r)) && !r.expired_at(now),
        lookup_result(s, k, now) is None <==> forall|i: int| 0 <= i < s.len() && #[trigger] s[i].0 == k ==> s[i].1.expired_at(now),
{
    lemma_find_key(s, k);
    if s.contains((k, r)) {
        let i = choose|i: int| 0 <= i < s.len() && s[i] == (k, r);
        assert(s[i].0 == k);
    }
    if lookup_result(s, k, now) == Some(r) {
        let i = choose|i: int| 0 <= i < s.len() && s[i] == (k, r);
        assert(s.contains((k, r)));
    }
    if lookup_result(s, k, now) is None {
        assert forall|i: int| 0 <= i < s.len() && #[trigger] s[i].0 == k implies s[i].1.expired_at(now) by {
            assert(find_key(s, k) == Some(s[i].1));
        }
    } else {
        let v = find_key(s, k)->0;
        let i = choose|i: int| 0 <= i < s.len() && s[i] == (k, v);
        assert(s[i].0 == k && !s[i].1.expired_at(now));
    }
}

} // verus!
