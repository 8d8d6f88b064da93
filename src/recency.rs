//! The recency-ordered index: a `LinkedHashMap` from key to declared size,
//! oldest entry first, seen by Verus as a sequence of `(key, size)` pairs.

use vstd::prelude::*;
use linked_hash_map::LinkedHashMap;

verus! {

#[verifier::external_type_specification]
#[verifier::external_body]
#[verifier::reject_recursive_types(K)]
#[verifier::reject_recursive_types(V)]
#[verifier::reject_recursive_types(S)]
pub struct ExLinkedHashMap<K, V, S>(LinkedHashMap<K, V, S>);

/// The entries of an index, from least to most recently used. Each wrapper
/// below also states that no key occurs twice, as the map is keyed through a
/// `HashMap`.
pub uninterp spec fn lru_entries(m: LinkedHashMap<u64, usize>) -> Seq<(u64, usize)>;

/// `k` is the key of some entry of `s`.
pub open spec fn has_key(s: Seq<(u64, usize)>, k: u64) -> bool {
    exists|i: int| 0 <= i < s.len() && (#[trigger] s[i]).0 == k
}

/// No key occurs twice in `s`.
pub open spec fn keys_unique(s: Seq<(u64, usize)>) -> bool {
    forall|i: int, j: int| 0 <= i < s.len() && 0 <= j < s.len() && i != j ==> s[i].0 != s[j].0
}

/// The position of key `k` in `s`, when it occurs there.
pub open spec fn index_of(s: Seq<(u64, usize)>, k: u64) -> int {
    choose|i: int| 0 <= i < s.len() && (#[trigger] s[i]).0 == k
}

/// `s` with the entry of key `k` moved to the most recent position.
pub open spec fn refreshed(s: Seq<(u64, usize)>, k: u64) -> Seq<(u64, usize)> {
    s.remove(index_of(s, k)).push(s[index_of(s, k)])
}

/// `s` without the entry of key `k`.
pub open spec fn without(s: Seq<(u64, usize)>, k: u64) -> Seq<(u64, usize)> {
    if has_key(s, k) {
        s.remove(index_of(s, k))
    } else {
        s
    }
}

/// The set of keys of the entries of `s`.
pub open spec fn key_set(s: Seq<(u64, usize)>) -> Set<u64> {
    Set::new(|k: u64| has_key(s, k))
}

/// The sum of the declared sizes in `s`.
pub open spec fn sum_sizes(s: Seq<(u64, usize)>) -> nat
    decreases s.len(),
{
    if s.len() == 0 {
        0
    } else {
        s[0].1 as nat + sum_sizes(s.drop_first())
    }
}

/// Appending an entry adds its size to the sum.
pub proof fn lemma_sum_push(s: Seq<(u64, usize)>, x: (u64, usize))
    ensures
        sum_sizes(s.push(x)) == sum_sizes(s) + x.1,
    decreases s.len(),
{
    if s.len() == 0 {
        assert(s.push(x).drop_first() =~= s);
    } else {
        assert(s.push(x).drop_first() =~= s.drop_first().push(x));
        lemma_sum_push(s.drop_first(), x);
    }
}

/// Taking out an entry takes its size off the sum.
pub proof fn lemma_sum_remove(s: Seq<(u64, usize)>, i: int)
    requires
        0 <= i < s.len(),
    ensures
        sum_sizes(s.remove(i)) + s[i].1 == sum_sizes(s),
    decreases s.len(),
{
    if i == 0 {
        assert(s.remove(0) =~= s.drop_first());
    } else {
        assert(s.remove(i).drop_first() =~= s.drop_first().remove(i - 1));
        lemma_sum_remove(s.drop_first(), i - 1);
    }
}

/// Taking out an entry of a sequence without repeated keys removes exactly its key.
pub proof fn lemma_key_set_remove(s: Seq<(u64, usize)>, i: int)
    requires
        keys_unique(s),
        0 <= i < s.len(),
    ensures
        key_set(s.remove(i)) == key_set(s).remove(s[i].0),
{
    let r = s.remove(i);
    assert forall|k: u64| has_key(r, k) <==> (has_key(s, k) && k != s[i].0) by {
        if has_key(r, k) {
            let j = choose|j: int| 0 <= j < r.len() && (#[trigger] r[j]).0 == k;
            if j < i {
                assert(s[j].0 == k);
            } else {
                assert(s[j + 1].0 == k);
            }
        }
        if has_key(s, k) && k != s[i].0 {
            let j = choose|j: int| 0 <= j < s.len() && (#[trigger] s[j]).0 == k;
            if j < i {
                assert(r[j].0 == k);
            } else {
                assert(r[j - 1].0 == k);
            }
        }
    }
    assert(key_set(r) =~= key_set(s).remove(s[i].0));
}

/// Appending an entry adds its key.
pub proof fn lemma_key_set_push(s: Seq<(u64, usize)>, x: (u64, usize))
    ensures
        key_set(s.push(x)) == key_set(s).insert(x.0),
{
    let p = s.push(x);
    assert forall|k: u64| has_key(p, k) <==> (has_key(s, k) || k == x.0) by {
        if has_key(p, k) {
            let j = choose|j: int| 0 <= j < p.len() && (#[trigger] p[j]).0 == k;
            if j < s.len() {
                assert(s[j].0 == k);
            }
        }
        if has_key(s, k) {
            let j = choose|j: int| 0 <= j < s.len() && (#[trigger] s[j]).0 == k;
            assert(p[j].0 == k);
        }
        if k == x.0 {
            assert(p[s.len() as int].0 == k);
        }
    }
    assert(key_set(p) =~= key_set(s).insert(x.0));
}

/// Relies on LinkedHashMap::new: the map starts empty.
#[verifier::external_body]
pub(crate) fn index_new() -> (m: LinkedHashMap<u64, usize>)
    ensures
        lru_entries(m) == Seq::<(u64, usize)>::empty(),
{
    LinkedHashMap::new()
}

/// Relies on LinkedHashMap::insert: a new key goes to the back; an existing
/// key has its value replaced, the old value returned, and moves to the back.
#[verifier::external_body]
pub(crate) fn index_insert(m: &mut LinkedHashMap<u64, usize>, k: u64, v: usize) -> (r: Option<usize>)
    ensures
        keys_unique(lru_entries(*final(m))),
        has_key(lru_entries(*old(m)), k) ==> r == Some(lru_entries(*old(m))[index_of(lru_entries(*old(m)), k)].1)
            && lru_entries(*final(m)) == lru_entries(*old(m)).remove(index_of(lru_entries(*old(m)), k)).push((k, v)),
        !has_key(lru_entries(*old(m)), k) ==> r is None
            && lru_entries(*final(m)) == lru_entries(*old(m)).push((k, v)),
{
    m.insert(k, v)
}

/// Relies on LinkedHashMap::get_refresh: a present key moves to the back and
/// its value is returned; otherwise nothing changes.
#[verifier::external_body]
pub(crate) fn index_get_refresh(m: &mut LinkedHashMap<u64, usize>, k: u64) -> (r: Option<usize>)
    ensures
        keys_unique(lru_entries(*final(m))),
        has_key(lru_entries(*old(m)), k) ==> r == Some(lru_entries(*old(m))[index_of(lru_entries(*old(m)), k)].1)
            && lru_entries(*final(m)) == refreshed(lru_entries(*old(m)), k),
        !has_key(lru_entries(*old(m)), k) ==> r is None && lru_entries(*final(m)) == lru_entries(*old(m)),
{
    m.get_refresh(&k).map(|v| *v)
}

/// Relies on LinkedHashMap::pop_front: the oldest entry is taken out and
/// returned; an empty map stays empty.
#[verifier::external_body]
pub(crate) fn index_pop_front(m: &mut LinkedHashMap<u64, usize>) -> (r: Option<(u64, usize)>)
    ensures
        keys_unique(lru_entries(*final(m))),
        lru_entries(*old(m)).len() == 0 ==> r is None && lru_entries(*final(m)) == lru_entries(*old(m)),
        lru_entries(*old(m)).len() > 0 ==> r == Some(lru_entries(*old(m))[0])
            && lru_entries(*final(m)) == lru_entries(*old(m)).drop_first(),
{
    m.pop_front()
}

/// Relies on LinkedHashMap::remove: the entry of the key is taken out and its
/// value returned; without one nothing changes.
#[verifier::external_body]
pub(crate) fn index_remove(m: &mut LinkedHashMap<u64, usize>, k: u64) -> (r: Option<usize>)
    ensures
        keys_unique(lru_entries(*final(m))),
        has_key(lru_entries(*old(m)), k) ==> r == Some(lru_entries(*old(m))[index_of(lru_entries(*old(m)), k)].1)
            && lru_entries(*final(m)) == lru_entries(*old(m)).remove(index_of(lru_entries(*old(m)), k)),
        !has_key(lru_entries(*old(m)), k) ==> r is None && lru_entries(*final(m)) == lru_entries(*old(m)),
{
    m.remove(&k)
}

/// Relies on LinkedHashMap::contains_key: whether the key has an entry.
#[verifier::external_body]
pub(crate) fn index_contains_key(m: &LinkedHashMap<u64, usize>, k: u64) -> (r: bool)
    ensures
        r == has_key(lru_entries(*m), k),
{
    m.contains_key(&k)
}

} // verus!
