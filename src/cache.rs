use vstd::prelude::*;
use crate::error::{Error, Result};
use crate::metadata::owned;

verus! {

#[verifier::external_type_specification]
#[verifier::external_body]
#[verifier::reject_recursive_types(K)]
#[verifier::reject_recursive_types(V)]
#[verifier::reject_recursive_types(S)]
pub struct ExLruCache<K, V, S>(lru::LruCache<K, V, S>);

/// The recency index of the cache: key to (bytes, time cached).
pub type Index = lru::LruCache<String, (Vec<u8>, u64), std::collections::hash_map::RandomState>;

/// One cache entry: key, bytes, and the second at which it was cached.
pub type Entry = (Seq<char>, Seq<u8>, u64);

/// The entries of an index, least recently used first.
pub uninterp spec fn index_entries(c: Index) -> Seq<Entry>;

/// The entry count at which an index evicts by itself.
pub uninterp spec fn index_cap(c: Index) -> nat;

pub open spec fn has_key(s: Seq<Entry>, k: Seq<char>, i: int) -> bool {
    0 <= i < s.len() && s[i].0 == k
}

pub open spec fn contains_key(s: Seq<Entry>, k: Seq<char>) -> bool {
    exists|i: int| has_key(s, k, i)
}

pub open spec fn unique_keys(s: Seq<Entry>) -> bool {
    forall|i: int, j: int| 0 <= i < s.len() && 0 <= j < s.len() && i != j ==> (#[trigger] s[i]).0 != (#[trigger] s[j]).0
}

/// Total size in bytes of the entries.
pub open spec fn total(s: Seq<Entry>) -> nat
    decreases s.len(),
{
    if s.len() == 0 {
        0
    } else {
        total(s.drop_last()) + s.last().1.len()
    }
}

/// The entries without the one for key `k`.
pub open spec fn without_key(s: Seq<Entry>, k: Seq<char>) -> Seq<Entry> {
    s.filter(|e: Entry| e.0 != k)
}

/// An entry is live at `now` while it is younger than `ttl` seconds.
pub open spec fn live(e: Entry, now: u64, ttl: u64) -> bool {
    (now as int) < e.2 + ttl
}

/// The entries that are live at `now`, in the same order.
pub open spec fn live_entries(s: Seq<Entry>, now: u64, ttl: u64) -> Seq<Entry> {
    s.filter(live_at(now, ttl))
}

pub open spec fn live_at(now: u64, ttl: u64) -> spec_fn(Entry) -> bool {
    |e: Entry| live(e, now, ttl)
}

/// A suffix of the recency order that leaves room for `size` more bytes
/// within `max` bytes and `cap` entries; an entry of the whole capacity is
/// left alone in the cache.
pub open spec fn leaves_room(s: Seq<Entry>, size: nat, max: u64, cap: nat) -> bool {
    &&& total(s) + size <= max
    &&& s.len() < cap
    &&& (size < max || s.len() == 0)
}

proof fn lemma_total_push(s: Seq<Entry>, e: Entry)
    ensures
        total(s.push(e)) == total(s) + e.1.len(),
{
    assert(s.push(e).drop_last() =~= s);
}

proof fn lemma_total_remove(s: Seq<Entry>, i: int)
    requires
        0 <= i < s.len(),
    ensures
        total(s.remove(i)) + s[i].1.len() == total(s),
    decreases s.len(),
{
    if i == s.len() - 1 {
        assert(s.remove(i) =~= s.drop_last());
    } else {
        lemma_total_remove(s.drop_last(), i);
        assert(s.remove(i).drop_last() =~= s.drop_last().remove(i));
        assert(s.remove(i).last() == s.last());
    }
}

proof fn lemma_without_absent(s: Seq<Entry>, k: Seq<char>)
    requires
        !contains_key(s, k),
    ensures
        without_key(s, k) == s,
    decreases s.len(),
{
    reveal(Seq::filter);
    if s.len() > 0 {
        assert forall|i: int| 0 <= i < s.drop_last().len() implies !has_key(s.drop_last(), k, i) by {
            assert(!has_key(s, k, i));
        }
        lemma_without_absent(s.drop_last(), k);
        assert(!has_key(s, k, s.len() - 1));
        assert(s.drop_last().push(s.last()) =~= s);
    }
}

proof fn lemma_without_at(s: Seq<Entry>, k: Seq<char>, i: int)
    requires
        unique_keys(s),
        has_key(s, k, i),
    ensures
        without_key(s, k) == s.remove(i),
    decreases s.len(),
{
    reveal(Seq::filter);
    let d = s.drop_last();
    if i == s.len() - 1 {
        assert forall|j: int| 0 <= j < d.len() implies !has_key(d, k, j) by {
            assert(s[j] == d[j]);
        }
        lemma_without_absent(d, k);
        assert(s.remove(i) =~= d);
    } else {
        assert(unique_keys(d)) by {
            assert forall|a: int, b: int| 0 <= a < d.len() && 0 <= b < d.len() && a != b implies (#[trigger] d[a]).0 != (#[trigger] d[b]).0 by {
                assert(d[a] == s[a] && d[b] == s[b]);
            }
        }
        lemma_without_at(d, k, i);
        assert(s.last().0 != k) by {
            assert(s[s.len() - 1] == s.last());
        }
        assert(s.remove(i) =~= d.remove(i).push(s.last()));
    }
}

proof fn lemma_unique_subrange(s: Seq<Entry>, a: int, b: int)
    requires
        unique_keys(s),
        0 <= a <= b <= s.len(),
    ensures
        unique_keys(s.subrange(a, b)),
{
    let t = s.subrange(a, b);
    assert forall|i: int, j: int| 0 <= i < t.len() && 0 <= j < t.len() && i != j implies (#[trigger] t[i]).0 != (#[trigger] t[j]).0 by {
        assert(t[i] == s[a + i] && t[j] == s[a + j]);
    }
}

proof fn lemma_unique_remove(s: Seq<Entry>, i: int)
    requires
        unique_keys(s),
        0 <= i < s.len(),
    ensures
        unique_keys(s.remove(i)),
        !contains_key(s.remove(i), s[i].0),
{
    let t = s.remove(i);
    assert forall|a: int, b: int| 0 <= a < t.len() && 0 <= b < t.len() && a != b implies (#[trigger] t[a]).0 != (#[trigger] t[b]).0 by {
        let pa = if a < i { a } else { a + 1 };
        let pb = if b < i { b } else { b + 1 };
        assert(t[a] == s[pa] && t[b] == s[pb]);
    }
    assert forall|j: int| !has_key(t, s[i].0, j) by {
        if 0 <= j < t.len() {
            let pj = if j < i { j } else { j + 1 };
            assert(t[j] == s[pj]);
        }
    }
}

proof fn lemma_move_to_back(s: Seq<Entry>, i: int)
    requires
        unique_keys(s),
        0 <= i < s.len(),
    ensures
        unique_keys(s.remove(i).push(s[i])),
        total(s.remove(i).push(s[i])) == total(s),
        !contains_key(s.remove(i), s[i].0),
{
    lemma_unique_remove(s, i);
    lemma_total_remove(s, i);
    lemma_total_push(s.remove(i), s[i]);
    lemma_unique_push(s.remove(i), s[i]);
}

proof fn lemma_unique_push(s: Seq<Entry>, e: Entry)
    requires
        unique_keys(s),
        !contains_key(s, e.0),
    ensures
        unique_keys(s.push(e)),
{
    let t = s.push(e);
    assert forall|a: int, b: int| 0 <= a < t.len() && 0 <= b < t.len() && a != b implies (#[trigger] t[a]).0 != (#[trigger] t[b]).0 by {
        if a == s.len() {
            assert(!has_key(s, e.0, b));
        } else if b == s.len() {
            assert(!has_key(s, e.0, a));
        }
    }
}

proof fn lemma_absent_subrange(s: Seq<Entry>, k: Seq<char>, a: int)
    requires
        !contains_key(s, k),
        0 <= a <= s.len(),
    ensures
        !contains_key(s.subrange(a, s.len() as int), k),
{
    let t = s.subrange(a, s.len() as int);
    assert forall|j: int| !has_key(t, k, j) by {
        if 0 <= j < t.len() {
            assert(t[j] == s[a + j]);
            assert(!has_key(s, k, a + j));
        }
    }
}

proof fn lemma_without_key_props(s: Seq<Entry>, k: Seq<char>)
    requires
        unique_keys(s),
    ensures
        unique_keys(without_key(s, k)),
        !contains_key(without_key(s, k), k),
        contains_key(s, k) ==> exists|i: int| has_key(s, k, i) && without_key(s, k) == s.remove(i),
        !contains_key(s, k) ==> without_key(s, k) == s,
{
    if contains_key(s, k) {
        let i = choose|i: int| has_key(s, k, i);
        lemma_without_at(s, k, i);
        lemma_unique_remove(s, i);
    } else {
        lemma_without_absent(s, k);
    }
}

/// Relies on lru::LruCache::unbounded_with_hasher: an empty index that never
/// evicts by itself (its bound is `usize::MAX`) and reserves no room.
#[verifier::external_body]
fn index_new() -> (r: Index)
    ensures
        index_entries(r) == Seq::<Entry>::empty(),
        index_cap(r) == usize::MAX,
{
    lru::LruCache::unbounded_with_hasher(std::collections::hash_map::RandomState::new())
}

/// Relies on lru::LruCache::len: the number of entries held.
#[verifier::external_body]
fn index_len(c: &Index) -> (r: usize)
    ensures
        r == index_entries(*c).len(),
{
    c.len()
}

/// Relies on lru::LruCache::get: the value of `k`, which becomes the most
/// recently used entry.
#[verifier::external_body]
fn index_get(c: &mut Index, k: &String) -> (r: Option<(Vec<u8>, u64)>)
    ensures
        index_cap(*final(c)) == index_cap(*old(c)),
        !contains_key(index_entries(*old(c)), k@) ==> r is None && index_entries(*final(c)) == index_entries(*old(c)),
        forall|i: int| #[trigger] has_key(index_entries(*old(c)), k@, i) ==> {
            let e = index_entries(*old(c))[i];
            &&& r matches Some(v) && v.0@ == e.1 && v.1 == e.2
            &&& index_entries(*final(c)) == index_entries(*old(c)).remove(i).push(e)
        },
{
    c.get(k).map(|v| (v.0.clone(), v.1))
}

/// Relies on lru::LruCache::put: a present key takes the new value and becomes
/// the most recently used; a new key is appended as the most recently used,
/// after the least recently used entry is dropped if the index is full.
#[verifier::external_body]
fn index_put(c: &mut Index, k: String, v: (Vec<u8>, u64))
    ensures
        index_cap(*final(c)) == index_cap(*old(c)),
        forall|i: int| #[trigger] has_key(index_entries(*old(c)), k@, i) ==> index_entries(*final(c))
            == index_entries(*old(c)).remove(i).push((k@, v.0@, v.1)),
        !contains_key(index_entries(*old(c)), k@) && index_entries(*old(c)).len() < index_cap(*old(c))
            ==> index_entries(*final(c)) == index_entries(*old(c)).push((k@, v.0@, v.1)),
        !contains_key(index_entries(*old(c)), k@) && index_entries(*old(c)).len() >= index_cap(*old(c))
            ==> index_entries(*final(c)) == index_entries(*old(c)).drop_first().push((k@, v.0@, v.1)),
{
    c.put(k, v);
}

/// Relies on lru::LruCache::peek: the time at which `k` was cached, without
/// touching the recency order.
#[verifier::external_body]
fn index_peek(c: &Index, k: &String) -> (r: Option<u64>)
    ensures
        !contains_key(index_entries(*c), k@) ==> r is None,
        forall|i: int| #[trigger] has_key(index_entries(*c), k@, i) ==> r == Some(index_entries(*c)[i].2),
{
    c.peek(k).map(|v| v.1)
}

/// Relies on lru::LruCache::pop: removes the entry of `k` and hands back its value.
#[verifier::external_body]
fn index_pop(c: &mut Index, k: &String) -> (r: Option<(Vec<u8>, u64)>)
    ensures
        index_cap(*final(c)) == index_cap(*old(c)),
        !contains_key(index_entries(*old(c)), k@) ==> r is None && index_entries(*final(c)) == index_entries(*old(c)),
        forall|i: int| #[trigger] has_key(index_entries(*old(c)), k@, i) ==> {
            let e = index_entries(*old(c))[i];
            &&& r matches Some(v) && v.0@ == e.1 && v.1 == e.2
            &&& index_entries(*final(c)) == index_entries(*old(c)).remove(i)
        },
{
    c.pop(k)
}

/// Relies on lru::LruCache::pop_lru: removes and hands back the least recently
/// used entry.
#[verifier::external_body]
fn index_pop_lru(c: &mut Index) -> (r: Option<(String, (Vec<u8>, u64))>)
    ensures
        index_cap(*final(c)) == index_cap(*old(c)),
        index_entries(*old(c)).len() == 0 ==> r is None && index_entries(*final(c)) == index_entries(*old(c)),
        index_entries(*old(c)).len() > 0 ==> {
            let e = index_entries(*old(c))[0];
            &&& r matches Some(p) && p.0@ == e.0 && p.1.0@ == e.1 && p.1.1 == e.2
            &&& index_entries(*final(c)) == index_entries(*old(c)).drop_first()
        },
{
    c.pop_lru()
}

/// The entry bound of a cache of `gb` GiB: one entry per 10 MiB, and no
/// fewer than 1000 (nor more than the address range allows).
pub open spec fn estimated_items(gb: u64) -> int {
    let e = if gb * 1024 / 10 >= 1000 { gb * 1024 / 10 } else { 1000 };
    if e > usize::MAX { usize::MAX as int } else { e }
}

/// A size- and age-bounded store of restored objects. Entries are kept in
/// recency order; the sum of their sizes never exceeds `max_size_bytes`, and an
/// entry older than `ttl_secs` is treated as absent.
pub struct CacheManager {
    index: Index,
    base_path: String,
    max_size_bytes: u64,
    max_items: usize,
    ttl_secs: u64,
    used_bytes: u64,
}

impl CacheManager {
    /// The entries, least recently used first.
    pub closed spec fn entries(&self) -> Seq<Entry> {
        index_entries(self.index)
    }

    pub closed spec fn max_size(&self) -> u64 {
        self.max_size_bytes
    }

    pub closed spec fn ttl(&self) -> u64 {
        self.ttl_secs
    }

    /// The most entries held at once.
    pub closed spec fn max_entries(&self) -> nat {
        self.max_items as nat
    }

    pub closed spec fn wf(&self) -> bool {
        &&& unique_keys(index_entries(self.index))
        &&& self.used_bytes == total(index_entries(self.index))
        &&& self.used_bytes <= self.max_size_bytes
        &&& index_entries(self.index).len() <= self.max_items
        &&& self.max_items > 0
        &&& index_cap(self.index) == usize::MAX
    }

    /// A cache under `base_path` that holds at most `max_size_gb` GiB, and at
    /// most one entry per 10 MiB of that (but no fewer than 1000 entries).
    pub fn new(base_path: String, max_size_gb: u64, ttl_secs: u64) -> (r: Result<Self>)
        ensures
            r is Ok <==> max_size_gb <= 0x3_FFFF_FFFF,
            r matches Ok(c) ==> {
                &&& c.wf()
                &&& c.entries().len() == 0
                &&& c.max_size() == max_size_gb * 1024 * 1024 * 1024
                &&& c.ttl() == ttl_secs
                &&& c.max_entries() == estimated_items(max_size_gb)
            },
    {
        if max_size_gb > 0x3_FFFF_FFFF {
            return Err(Error::Cache("cache size overflows".to_owned()));
        }
        let max_bytes: u64 = max_size_gb * 1024 * 1024 * 1024;
        // one entry per 10 MiB: (gb * 1 GiB) / 10 MiB == gb * 1024 / 10
        let estimated: u64 = max_size_gb * 1024 / 10;
        let items: u64 = if estimated >= 1000 { estimated } else { 1000 };
        let bound: usize = if items > usize::MAX as u64 { usize::MAX } else { items as usize };
        Ok(Self::with_limits(base_path, max_bytes, bound, ttl_secs))
    }

    /// A cache that holds at most `max_size_bytes` bytes in at most
    /// `max_items` entries.
    pub fn with_limits(base_path: String, max_size_bytes: u64, max_items: usize, ttl_secs: u64) -> (r: Self)
        requires
            0 < max_items,
        ensures
            r.wf(),
            r.entries().len() == 0,
            r.max_size() == max_size_bytes,
            r.ttl() == ttl_secs,
            r.max_entries() == max_items,
    {
        CacheManager { index: index_new(), base_path, max_size_bytes, max_items, ttl_secs, used_bytes: 0 }
    }

    /// The total size in bytes of the entries held.
    pub fn used_bytes(&self) -> (r: u64)
        requires
            self.wf(),
        ensures
            r == total(self.entries()),
    {
        self.used_bytes
    }

    /// The number of entries held.
    pub fn len(&self) -> (r: usize)
        ensures
            r == self.entries().len(),
    {
        index_len(&self.index)
    }

    /// The bytes cached under `key` if its entry is live at `now`; a live
    /// entry becomes the most recently used, an expired one is dropped.
    pub fn get(&mut self, key: &str, now: u64) -> (r: Option<Vec<u8>>)
        requires
            old(self).wf(),
        ensures
            final(self).wf(),
            final(self).max_size() == old(self).max_size(),
            final(self).ttl() == old(self).ttl(),
            final(self).max_entries() == old(self).max_entries(),
            !contains_key(old(self).entries(), key@) ==> r is None && final(self).entries() == old(self).entries(),
            forall|i: int| #[trigger] has_key(old(self).entries(), key@, i) ==> {
                let e = old(self).entries()[i];
                if live(e, now, old(self).ttl()) {
                    &&& r matches Some(b) && b@ == e.1
                    &&& final(self).entries() == old(self).entries().remove(i).push(e)
                } else {
                    &&& r is None
                    &&& final(self).entries() == old(self).entries().remove(i)
                }
            },
    {
        let k = owned(key);
        let ghost e0 = self.entries();
        match index_get(&mut self.index, &k) {
            None => None,
            Some(v) => {
                let ghost i = choose|i: int| has_key(e0, key@, i);
                proof {
                    lemma_move_to_back(e0, i);
                }
                let (bytes, at) = v;
                if now < at || now - at < self.ttl_secs {
                    Some(bytes)
                } else {
                    let ghost e1 = self.entries();
                    proof {
                        assert(has_key(e1, key@, e1.len() - 1));
                        assert(e1.remove(e1.len() - 1) =~= e0.remove(i));
                        lemma_total_remove(e0, i);
                        lemma_unique_remove(e0, i);
                    }
                    let _ = index_pop(&mut self.index, &k);
                    self.used_bytes = self.used_bytes - bytes.len() as u64;
                    None
                }
            },
        }
    }

    /// Caches `data` under `key` at time `now`, replacing an entry of that key
    /// and evicting least recently used entries until the new one fits; fails
    /// with `CacheTooSmall`, leaving the cache as it was, when `data` alone is
    /// larger than the capacity.
    pub fn put(&mut self, key: &str, data: Vec<u8>, now: u64) -> (r: Result<()>)
        requires
            old(self).wf(),
        ensures
            final(self).wf(),
            final(self).max_size() == old(self).max_size(),
            final(self).ttl() == old(self).ttl(),
            final(self).max_entries() == old(self).max_entries(),
            data@.len() > old(self).max_size() ==> (r matches Err(Error::CacheTooSmall) && final(self).entries() == old(self).entries()),
            data@.len() <= old(self).max_size() ==> r is Ok,
            r is Ok ==> {
                let rest = without_key(old(self).entries(), key@);
                exists|n: int| {
                    &&& 0 <= n <= rest.len()
                    &&& final(self).entries() == rest.subrange(n, rest.len() as int).push((key@, data@, now))
                    &&& leaves_room(rest.subrange(n, rest.len() as int), data@.len(), old(self).max_size(), old(self).max_entries())
                    &&& forall|m: int| 0 <= m < n ==> !leaves_room(#[trigger] rest.subrange(m, rest.len() as int), data@.len(), old(self).max_size(), old(self).max_entries())
                }
            },
    {
        let size = data.len() as u64;
        if size > self.max_size_bytes {
            return Err(Error::CacheTooSmall);
        }
        let k = owned(key);
        let ghost e0 = self.entries();
        let ghost rest = without_key(e0, key@);
        proof {
            lemma_without_key_props(e0, key@);
        }
        match index_pop(&mut self.index, &k) {
            Some(v) => {
                proof {
                    let i = choose|i: int| has_key(e0, key@, i) && without_key(e0, key@) == e0.remove(i);
                    lemma_total_remove(e0, i);
                }
                self.used_bytes = self.used_bytes - v.0.len() as u64;
            },
            None => {},
        }
        assert(self.entries() == rest);
        let ghost mut n: int = 0;
        while !(self.used_bytes <= self.max_size_bytes - size && index_len(&self.index) < self.max_items
            && (size < self.max_size_bytes || index_len(&self.index) == 0))
            invariant
                old(self).wf(),
                0 <= n <= rest.len(),
                self.entries() == rest.subrange(n, rest.len() as int),
                self.used_bytes == total(self.entries()),
                self.used_bytes <= self.max_size_bytes,
                size <= self.max_size_bytes,
                size == data@.len(),
                index_cap(self.index) == usize::MAX,
                self.max_items > 0,
                self.max_size_bytes == old(self).max_size_bytes,
                self.max_items == old(self).max_items,
                self.ttl_secs == old(self).ttl_secs,
                forall|m: int| 0 <= m < n ==> !leaves_room(#[trigger] rest.subrange(m, rest.len() as int), data@.len(), old(self).max_size(), old(self).max_entries()),
            decreases rest.len() - n,
        {
            let ghost cur = self.entries();
            assert(!leaves_room(cur, data@.len(), old(self).max_size(), old(self).max_entries()));
            assert(cur.len() > 0) by {
                if cur.len() == 0 {
                    assert(total(cur) == 0);
                }
            }
            let p = index_pop_lru(&mut self.index);
            proof {
                lemma_total_remove(cur, 0);
                assert(cur.remove(0) =~= cur.drop_first());
                assert(rest.subrange(n + 1, rest.len() as int) =~= cur.drop_first());
            }
            match p {
                Some(p) => {
                    self.used_bytes = self.used_bytes - p.1.0.len() as u64;
                },
                None => {},
            }
            proof {
                n = n + 1;
            }
        }
        proof {
            lemma_unique_subrange(rest, n, rest.len() as int);
            lemma_absent_subrange(rest, key@, n);
            lemma_total_push(self.entries(), (key@, data@, now));
            lemma_unique_push(self.entries(), (key@, data@, now));
        }
        index_put(&mut self.index, k, (data, now));
        self.used_bytes = self.used_bytes + size;
        Ok(())
    }

    /// Drops the entry of `key`, if any.
    pub fn evict(&mut self, key: &str)
        requires
            old(self).wf(),
        ensures
            final(self).wf(),
            final(self).max_size() == old(self).max_size(),
            final(self).ttl() == old(self).ttl(),
            final(self).max_entries() == old(self).max_entries(),
            final(self).entries() == without_key(old(self).entries(), key@),
    {
        let k = owned(key);
        let ghost e0 = self.entries();
        proof {
            lemma_without_key_props(e0, key@);
        }
        match index_pop(&mut self.index, &k) {
            Some(v) => {
                proof {
                    let i = choose|i: int| has_key(e0, key@, i) && without_key(e0, key@) == e0.remove(i);
                    lemma_total_remove(e0, i);
                }
                self.used_bytes = self.used_bytes - v.0.len() as u64;
            },
            None => {},
        }
    }

    /// Drops every entry that is no longer live at `now`, keeping the order of
    /// the others; returns how many were dropped.
    pub fn cleanup_expired(&mut self, now: u64) -> (r: usize)
        requires
            old(self).wf(),
        ensures
            final(self).wf(),
            final(self).max_size() == old(self).max_size(),
            final(self).ttl() == old(self).ttl(),
            final(self).max_entries() == old(self).max_entries(),
            final(self).entries() == live_entries(old(self).entries(), now, old(self).ttl()),
            r == old(self).entries().len() - final(self).entries().len(),
    {
        let ghost e0 = self.entries();
        let ghost p = live_at(now, self.ttl_secs);
        let n = index_len(&self.index);
        let mut j: usize = 0;
        proof {
            reveal(Seq::filter);
            assert(e0.subrange(0, 0).filter(p) =~= Seq::<Entry>::empty());
            assert(e0.subrange(0, n as int) + Seq::<Entry>::empty() =~= e0);
        }
        while j < n
            invariant
                j <= n,
                n == e0.len(),
                e0 == old(self).entries(),
                p == live_at(now, old(self).ttl_secs),
                self.entries() == e0.subrange(j as int, n as int) + e0.subrange(0, j as int).filter(p),
                unique_keys(self.entries()),
                self.used_bytes == total(self.entries()),
                self.used_bytes <= self.max_size_bytes,
                self.entries().len() <= self.max_items,
                index_cap(self.index) == usize::MAX,
                self.max_items > 0,
                self.max_size_bytes == old(self).max_size_bytes,
                self.max_items == old(self).max_items,
                self.ttl_secs == old(self).ttl_secs,
            decreases n - j,
        {
            let ghost cur = self.entries();
            let ghost e = e0[j as int];
            assert(cur[0] == e);
            proof {
                lemma_total_remove(cur, 0);
                lemma_unique_remove(cur, 0);
                assert(cur.remove(0) =~= cur.drop_first());
                assert(cur.drop_first() =~= e0.subrange(j + 1, n as int) + e0.subrange(0, j as int).filter(p));
                reveal(Seq::filter);
                assert(e0.subrange(0, j + 1).drop_last() =~= e0.subrange(0, j as int));
            }
            let popped = index_pop_lru(&mut self.index);
            match popped {
                Some(item) => {
                    let (k, v) = item;
                    self.used_bytes = self.used_bytes - v.0.len() as u64;
                    let at = v.1;
                    if now < at || now - at < self.ttl_secs {
                        let ghost mid = self.entries();
                        proof {
                            lemma_total_push(mid, e);
                            lemma_unique_push(mid, e);
                            assert(mid.push(e) =~= e0.subrange(j + 1, n as int) + e0.subrange(0, j + 1).filter(p));
                        }
                        let len = v.0.len() as u64;
                        index_put(&mut self.index, k, v);
                        self.used_bytes = self.used_bytes + len;
                    } else {
                        assert(self.entries() =~= e0.subrange(j + 1, n as int) + e0.subrange(0, j + 1).filter(p));
                    }
                },
                None => {},
            }
            j = j + 1;
        }
        proof {
            assert(e0.subrange(n as int, n as int) + e0.subrange(0, n as int).filter(p) =~= e0.filter(p)) by {
                assert(e0.subrange(0, n as int) =~= e0);
            }
            e0.lemma_filter_len(p);
        }
        n - index_len(&self.index)
    }

    /// Whether `key` has an entry that is live at `now`; the recency order is
    /// left as it is.
    pub fn is_live(&self, key: &str, now: u64) -> (r: bool)
        requires
            self.wf(),
        ensures
            r == exists|i: int| has_key(self.entries(), key@, i) && live(self.entries()[i], now, self.ttl()),
    {
        let k = owned(key);
        match index_peek(&self.index, &k) {
            None => false,
            Some(at) => {
                let ghost i = choose|i: int| has_key(self.entries(), key@, i);
                proof {
                    assert forall|j: int| has_key(self.entries(), key@, j) implies j == i by {
                        if j != i {
                            assert(self.entries()[j].0 == self.entries()[i].0);
                        }
                    }
                }
                now < at || now - at < self.ttl_secs
            },
        }
    }
}


/// The cached bytes never exceed the capacity: every operation keeps `wf`.
pub proof fn lemma_cache_within_capacity(c: &CacheManager)
    requires
        c.wf(),
    ensures
        total(c.entries()) <= c.max_size(),
{
}

} // verus!
