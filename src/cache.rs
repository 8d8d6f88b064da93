//! The cache: a recency index with byte accounting, the stored values, and
//! the alias table.

use vstd::prelude::*;
use std::collections::HashMap;
use std::sync::Arc;
use linked_hash_map::LinkedHashMap;
use crate::recency::{
    has_key, index_contains_key, index_get_refresh, index_insert, index_new, index_of, index_pop_front,
    index_remove, key_set, keys_unique, lemma_key_set_push, lemma_key_set_remove, lemma_sum_push,
    lemma_sum_remove, lru_entries, refreshed, sum_sizes, without,
};

verus! {

broadcast use vstd::std_specs::hash::group_hash_axioms;

/// A stored value with its declared size in bytes.
pub struct MultiCacheItem<V> {
    pub val: V,
    pub bytes: usize,
}

impl<V> MultiCacheItem<Arc<V>> {
    pub fn new(val: Arc<V>, bytes: usize) -> (r: MultiCacheItem<Arc<V>>)
        ensures
            r.val == val,
            r.bytes == bytes,
    {
        MultiCacheItem { val: val, bytes: bytes }
    }
}

/// What a cache holds, as mathematical values.
pub struct CacheState<V> {
    /// The indexed keys with their declared sizes, least recently used first.
    pub entries: Seq<(u64, usize)>,
    /// The value stored under each indexed key.
    pub values: Map<u64, Arc<V>>,
    /// For each alias key, the key it stands for.
    pub aliases: Map<u64, u64>,
    /// The running byte total.
    pub total: nat,
    /// The byte budget.
    pub max: nat,
}

/// What is left of `s` once the oldest entries have been evicted until an
/// entry of `need` bytes fits within `max`, or nothing is left.
pub open spec fn evict(s: Seq<(u64, usize)>, need: nat, max: nat) -> Seq<(u64, usize)>
    decreases s.len(),
{
    if s.len() == 0 || sum_sizes(s) + need <= max {
        s
    } else {
        evict(s.drop_first(), need, max)
    }
}

/// The indexed key that `k` stands for: `k` itself when indexed, else the
/// target of its alias, followed for at most `fuel` hops.
pub open spec fn resolve(entries: Seq<(u64, usize)>, aliases: Map<u64, u64>, k: u64, fuel: nat) -> Option<u64>
    decreases fuel,
{
    if has_key(entries, k) {
        Some(k)
    } else if fuel > 0 && aliases.contains_key(k) {
        resolve(entries, aliases, aliases[k], (fuel - 1) as nat)
    } else {
        None
    }
}

/// A key that resolution arrives at is indexed.
pub proof fn lemma_resolve_indexed(entries: Seq<(u64, usize)>, aliases: Map<u64, u64>, k: u64, fuel: nat)
    ensures
        resolve(entries, aliases, k, fuel) matches Some(c) ==> has_key(entries, c),
    decreases fuel,
{
    if !has_key(entries, k) && fuel > 0 && aliases.contains_key(k) {
        lemma_resolve_indexed(entries, aliases, aliases[k], (fuel - 1) as nat);
    }
}

/// The indexed key that `k` stands for in `c`. A chain of aliases is followed
/// for at most as many hops as there are aliases, so a cycle resolves to nothing.
pub open spec fn lookup<V>(c: CacheState<V>, k: u64) -> Option<u64> {
    resolve(c.entries, c.aliases, k, c.aliases.len())
}

/// A cache bounded by the total declared size of its entries.
pub struct MultiCache<V> {
    order: LinkedHashMap<u64, usize>,
    store: HashMap<u64, MultiCacheItem<Arc<V>>>,
    aliases: HashMap<u64, u64>,
    totalsize: usize,
    maxsize: usize,
}

impl<V> View for MultiCache<V> {
    type V = CacheState<V>;

    closed spec fn view(&self) -> CacheState<V> {
        CacheState {
            entries: lru_entries(self.order),
            values: Map::new(|k: u64| self.store@.contains_key(k), |k: u64| self.store@[k].val),
            aliases: self.aliases@,
            total: self.totalsize as nat,
            max: self.maxsize as nat,
        }
    }
}

impl<V> MultiCache<V> {
    /// The index has no repeated key, a value is stored for exactly the
    /// indexed keys, and the byte total is the sum of the indexed sizes.
    pub closed spec fn wf(&self) -> bool {
        &&& keys_unique(lru_entries(self.order))
        &&& self.store@.dom() == key_set(lru_entries(self.order))
        &&& self.totalsize as nat == sum_sizes(lru_entries(self.order))
    }

    /// The running byte total always equals the sum of the declared sizes of
    /// the indexed entries.
    pub proof fn lemma_total_matches_entries(&self)
        requires
            self.wf(),
        ensures
            self@.total == sum_sizes(self@.entries),
            self@.values.dom() == key_set(self@.entries),
    {
        assert(self@.values.dom() =~= self.store@.dom());
    }

    /// Create an empty cache that holds at most `bytesize` bytes of entries,
    /// but for a single entry larger than that.
    pub fn new(bytesize: usize) -> (r: MultiCache<V>)
        ensures
            r.wf(),
            r@.entries == Seq::<(u64, usize)>::empty(),
            r@.values == Map::<u64, Arc<V>>::empty(),
            r@.aliases == Map::<u64, u64>::empty(),
            r@.total == 0,
            r@.max == bytesize,
    {
        let r = MultiCache {
            order: index_new(),
            store: HashMap::new(),
            aliases: HashMap::new(),
            totalsize: 0,
            maxsize: bytesize,
        };
        assert(key_set(lru_entries(r.order)) =~= Set::<u64>::empty());
        assert(r@.values =~= Map::<u64, Arc<V>>::empty());
        r
    }

    /// The running byte total.
    pub fn total_bytes(&self) -> (r: usize)
        ensures
            r == self@.total,
    {
        self.totalsize
    }

    /// The byte budget.
    pub fn max_bytes(&self) -> (r: usize)
        ensures
            r == self@.max,
    {
        self.maxsize
    }

    /// Remove the entry stored under `key`, reclaiming its bytes, and return
    /// its value. Aliases that point at `key` stay.
    pub fn remove(&mut self, key: &u64) -> (r: Option<Arc<V>>)
        requires
            old(self).wf(),
        ensures
            final(self).wf(),
            r == (if has_key(old(self)@.entries, *key) { Some(old(self)@.values[*key]) } else { None }),
            final(self)@.entries == without(old(self)@.entries, *key),
            final(self)@.values == old(self)@.values.remove(*key),
            final(self)@.aliases == old(self)@.aliases,
            final(self)@.max == old(self)@.max,
    {
        let k = *key;
        let ghost s = lru_entries(self.order);
        let ghost vals = self@.values;
        match index_remove(&mut self.order, k) {
            Some(sz) => {
                proof {
                    let i = index_of(s, k);
                    lemma_sum_remove(s, i);
                    lemma_key_set_remove(s, i);
                }
                self.totalsize = self.totalsize - sz;
                let item = self.store.remove(&k);
                assert(self@.values =~= vals.remove(k));
                match item {
                    Some(it) => Some(it.val),
                    None => None,
                }
            },
            None => {
                assert(vals.remove(k) =~= vals);
                None
            },
        }
    }

    /// Store `value`, of `bytes` declared bytes, under `key`. An entry already
    /// under `key` is removed first. Then the least recently used entries are
    /// evicted until the new one fits in the budget or the cache is empty; an
    /// entry larger than the whole budget is kept alone.
    pub fn put_arc(&mut self, key: u64, value: Arc<V>, bytes: usize)
        requires
            old(self).wf(),
        ensures
            final(self).wf(),
            final(self)@.entries == evict(without(old(self)@.entries, key), bytes as nat, old(self)@.max).push(
                (key, bytes),
            ),
            final(self)@.values == old(self)@.values.insert(key, value).restrict(key_set(final(self)@.entries)),
            final(self)@.aliases == old(self)@.aliases,
            final(self)@.max == old(self)@.max,
            final(self)@.total <= final(self)@.max || final(self)@.entries.len() == 1,
    {
        self.remove(&key);
        let ghost s1 = lru_entries(self.order);
        let ghost store1 = self.store@;
        let ghost vals1 = self@.values;
        assert(vals1 == old(self)@.values.remove(key));
        let ghost target = evict(s1, bytes as nat, self.maxsize as nat);
        let mut done = false;
        while !done && (self.totalsize > self.maxsize || bytes > self.maxsize - self.totalsize)
            invariant
                self.wf(),
                evict(lru_entries(self.order), bytes as nat, self.maxsize as nat) == target,
                !has_key(lru_entries(self.order), key),
                forall|j: u64| #[trigger] self.store@.contains_key(j) ==> store1.contains_key(j) && self.store@[j] == store1[j],
                done ==> lru_entries(self.order).len() == 0,
                self.aliases@ == old(self).aliases@,
                self.maxsize == old(self).maxsize,
            decreases lru_entries(self.order).len() + (if done { 0int } else { 1int }),
        {
            let ghost cur = lru_entries(self.order);
            match index_pop_front(&mut self.order) {
                None => {
                    done = true;
                },
                Some(popped) => {
                    let (k, sz) = popped;
                    proof {
                        assert(cur.remove(0) =~= cur.drop_first());
                        lemma_key_set_remove(cur, 0);
                        assert forall|j: u64| has_key(cur.drop_first(), j) implies has_key(cur, j) by {
                            let t = choose|t: int| 0 <= t < cur.drop_first().len() && (#[trigger] cur.drop_first()[t]).0 == j;
                            assert(cur[t + 1].0 == j);
                        }
                    }
                    self.totalsize = self.totalsize - sz;
                    self.store.remove(&k);
                },
            }
        }
        let ghost s2 = lru_entries(self.order);
        let ghost store2 = self.store@;
        proof {
            lemma_sum_push(s2, (key, bytes));
            lemma_key_set_push(s2, (key, bytes));
        }
        index_insert(&mut self.order, key, bytes);
        self.totalsize = self.totalsize + bytes;
        self.store.insert(key, MultiCacheItem::new(value, bytes));
        assert forall|j: u64| #[trigger] self@.values.contains_key(j) && j != key implies self@.values[j]
            == old(self)@.values[j] by {
            assert(store2.contains_key(j));
            assert(store1.contains_key(j) && store2[j] == store1[j]);
            assert(vals1.contains_key(j));
            assert(self.store@[j] == store2[j]);
            assert(vals1[j] == store1[j].val);
            assert(old(self)@.values.remove(key)[j] == old(self)@.values[j]);
        }
        assert(self@.values =~= old(self)@.values.insert(key, value).restrict(key_set(self@.entries)));
    }

    /// Store `value`, of `bytes` declared bytes, under `key`, as `put_arc`
    /// does with a new shared handle.
    pub fn put(&mut self, key: u64, value: V, bytes: usize)
        requires
            old(self).wf(),
        ensures
            final(self).wf(),
            final(self)@.entries == evict(without(old(self)@.entries, key), bytes as nat, old(self)@.max).push(
                (key, bytes),
            ),
            final(self)@.values == old(self)@.values.insert(key, Arc::new(value)).restrict(
                key_set(final(self)@.entries),
            ),
            final(self)@.aliases == old(self)@.aliases,
            final(self)@.max == old(self)@.max,
            final(self)@.total <= final(self)@.max || final(self)@.entries.len() == 1,
    {
        self.put_arc(key, Arc::new(value), bytes)
    }

    /// Follow `key` through the alias table to an indexed key, for at most as
    /// many hops as there are aliases.
    fn resolve_key(&self, key: u64) -> (r: Option<u64>)
        requires
            self.wf(),
        ensures
            r == lookup(self@, key),
    {
        let limit = self.aliases.len();
        let mut k: u64 = key;
        let mut hops: usize = 0;
        while hops < limit && !index_contains_key(&self.order, k)
            invariant
                hops <= limit,
                limit == self@.aliases.len(),
                lookup(self@, key) == resolve(self@.entries, self@.aliases, k, (limit - hops) as nat),
            decreases limit - hops,
        {
            match self.aliases.get(&k) {
                Some(next) => {
                    k = *next;
                    hops = hops + 1;
                },
                None => {
                    return None;
                },
            }
        }
        if index_contains_key(&self.order, k) {
            Some(k)
        } else {
            None
        }
    }

    /// The value that `key` resolves to, directly or through its aliases. The
    /// entry found becomes the most recently used.
    pub fn get(&mut self, key: &u64) -> (r: Option<Arc<V>>)
        requires
            old(self).wf(),
        ensures
            final(self).wf(),
            final(self)@.values == old(self)@.values,
            final(self)@.aliases == old(self)@.aliases,
            final(self)@.total == old(self)@.total,
            final(self)@.max == old(self)@.max,
            match lookup(old(self)@, *key) {
                None => r is None && final(self)@.entries == old(self)@.entries,
                Some(c) => r == Some(old(self)@.values[c]) && final(self)@.entries == refreshed(
                    old(self)@.entries,
                    c,
                ),
            },
    {
        match self.resolve_key(*key) {
            None => None,
            Some(c) => {
                let ghost s = lru_entries(self.order);
                proof {
                    lemma_resolve_indexed(s, self@.aliases, *key, self@.aliases.len());
                }
                index_get_refresh(&mut self.order, c);
                proof {
                    let i = index_of(s, c);
                    lemma_sum_remove(s, i);
                    lemma_key_set_remove(s, i);
                    lemma_sum_push(s.remove(i), s[i]);
                    lemma_key_set_push(s.remove(i), s[i]);
                    assert(key_set(s.remove(i)).insert(s[i].0) =~= key_set(s));
                }
                match self.store.get(&c) {
                    Some(item) => Some(item.val.clone()),
                    None => None,
                }
            },
        }
    }

    /// Whether `key` resolves to an indexed entry, directly or through its
    /// aliases. Recency is left as it is.
    pub fn contains_key(&self, key: &u64) -> (r: bool)
        requires
            self.wf(),
        ensures
            r == lookup(self@, *key) is Some,
    {
        match self.resolve_key(*key) {
            Some(_) => true,
            None => false,
        }
    }

    /// Register `new` as an alias of `existing`; nothing happens when the two
    /// are equal. `existing` need not be indexed.
    pub fn alias(&mut self, existing: u64, new: u64)
        requires
            old(self).wf(),
        ensures
            final(self).wf(),
            final(self)@.aliases == (if existing == new { old(self)@.aliases } else { old(self)@.aliases.insert(new, existing) }),
            final(self)@.entries == old(self)@.entries,
            final(self)@.values == old(self)@.values,
            final(self)@.total == old(self)@.total,
            final(self)@.max == old(self)@.max,
    {
        if existing != new {
            self.aliases.insert(new, existing);
        }
    }

} // impl

} // verus!
