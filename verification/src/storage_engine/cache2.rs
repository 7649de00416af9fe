//! A 2Q cache whose callers hand in the value with each access. A key seen
//! for the first time enters `new`; keys pushed out of `new` are remembered
//! in `cold`; a key asked for again while new or cold, or while hot, is
//! (re)placed at the back of `hot` with the value given.
use crate::storage_engine::cache::{cold_sized, hot_and_new_sized, queues_ok, CacheModel};
use crate::storage_engine::linked_map::{
    drop_front, has_entry, inserted, keys_unique, lemma_drop_front, lemma_inserted, lemma_lengths,
    lemma_value_drop_front, lemma_value_inserted, lemma_value_without,
    lemma_set_drop_front, lemma_set_inserted, lemma_set_without, lemma_without_key, map_contains_key,
    map_get, map_insert, map_items, map_len, map_new, map_pop_front, map_remove, set_contains_key,
    set_insert, set_inserted, set_items, set_len, set_new, set_pop_front, set_remove,
    set_without, value_of, without_key,
};
use hashlink::LinkedHashMap;
use vstd::prelude::*;

verus! {

/// The queues after room is made for one insertion: a full `hot` drops its
/// front entry; a `new` holding at least a quarter of the capacity sends its
/// front key to the back of `cold`; then a `cold` holding at least half the
/// capacity drops its front key.
pub open spec fn capacity_checked(c: CacheModel) -> CacheModel {
    let hot = if c.hot.len() >= c.capacity {
        drop_front(c.hot)
    } else {
        c.hot
    };
    let (new, cold) = if c.new.len() >= c.capacity / 4 && c.new.len() > 0 {
        (c.new.drop_first(), set_inserted(c.cold, c.new[0].0))
    } else {
        (c.new, c.cold)
    };
    let cold = if cold.len() >= c.capacity / 2 {
        drop_front(cold)
    } else {
        cold
    };
    CacheModel { new, cold, hot, capacity: c.capacity }
}

/// The queues after an access of `k` with value `v`: a key found in `hot`,
/// `new` or `cold` (looked for in that order) leaves its queue, room is
/// made, and it goes to the back of `hot`; any other key goes, after room is
/// made, to the back of `new`.
pub open spec fn access_model(c: CacheModel, k: u32, v: u32) -> CacheModel {
    if has_entry(c.hot, k) {
        let r = capacity_checked(CacheModel { hot: without_key(c.hot, k), ..c });
        CacheModel { hot: inserted(r.hot, k, v), ..r }
    } else if has_entry(c.new, k) {
        let r = capacity_checked(CacheModel { new: without_key(c.new, k), ..c });
        CacheModel { hot: inserted(r.hot, k, v), ..r }
    } else if c.cold.contains(k) {
        let r = capacity_checked(CacheModel { cold: set_without(c.cold, k), ..c });
        CacheModel { hot: inserted(r.hot, k, v), ..r }
    } else {
        let r = capacity_checked(c);
        CacheModel { new: inserted(r.new, k, v), ..r }
    }
}

/// A 2Q cache from keys to values, with room for 20 hot entries.
#[verifier::reject_recursive_types(K)]
#[verifier::reject_recursive_types(V)]
pub struct TwoQcache<K, V> {
    new: LinkedHashMap<K, V>,
    cold: LinkedHashMap<K, ()>,
    hot: LinkedHashMap<K, V>,
    capacity: usize,
}

/// Making room keeps the queues apart and only takes keys out of `hot`
/// and `new`.
proof fn lemma_capacity_checked(c: CacheModel)
    requires
        queues_ok(c),
    ensures
        queues_ok(capacity_checked(c)),
        forall|j: u32| has_entry(capacity_checked(c).hot, j) ==> has_entry(c.hot, j),
        forall|j: u32| has_entry(capacity_checked(c).new, j) ==> has_entry(c.new, j),
        forall|j: u32|
            capacity_checked(c).cold.contains(j) ==> c.cold.contains(j) || has_entry(c.new, j),
{
    let r = capacity_checked(c);
    lemma_drop_front(c.hot);
    lemma_drop_front(c.new);
    let (new, cold) = if c.new.len() >= c.capacity / 4 && c.new.len() > 0 {
        lemma_set_inserted(c.cold, c.new[0].0);
        assert(has_entry(c.new, c.new[0].0));
        assert(c.new.drop_first() == drop_front(c.new));
        (c.new.drop_first(), set_inserted(c.cold, c.new[0].0))
    } else {
        (c.new, c.cold)
    };
    lemma_set_drop_front(cold);
    assert forall|j: u32| has_entry(r.new, j) implies has_entry(c.new, j) by {
    }
    assert forall|j: u32| r.cold.contains(j) implies c.cold.contains(j) || has_entry(c.new, j) by {
    }
    assert forall|j: u32| has_entry(r.hot, j) implies has_entry(c.hot, j) by {
    }
    assert forall|j: u32| !(has_entry(r.new, j) && r.cold.contains(j)) by {
        if has_entry(r.new, j) && c.new.len() >= c.capacity / 4 && c.new.len() > 0 {
            assert(j != c.new[0].0);
        }
    }
    assert forall|j: u32| !(has_entry(r.new, j) && has_entry(r.hot, j)) by {
    }
    assert forall|j: u32| !(r.cold.contains(j) && has_entry(r.hot, j)) by {
    }
}

/// An insertion into `hot` of a key in no queue, after room is made, keeps
/// the queues apart and stores the value.
proof fn lemma_promote(c: CacheModel, k: u32, v: u32)
    requires
        queues_ok(c),
        !has_entry(c.new, k),
        !c.cold.contains(k),
    ensures
        queues_ok(CacheModel { hot: inserted(capacity_checked(c).hot, k, v), ..capacity_checked(c) }),
        value_of(inserted(capacity_checked(c).hot, k, v), k) == Some(v),
{
    lemma_capacity_checked(c);
    let r = capacity_checked(c);
    lemma_inserted(r.hot, k, v);
    let n = CacheModel { hot: inserted(r.hot, k, v), ..r };
    assert forall|j: u32| !(has_entry(n.new, j) && has_entry(n.hot, j)) by {
    }
    assert forall|j: u32| !(n.cold.contains(j) && has_entry(n.hot, j)) by {
    }
}

/// Every access keeps each queue free of repeated keys and the three queues
/// apart, and the value given is then stored under the key.
pub proof fn lemma_access_keeps_queues_apart(c: CacheModel, k: u32, v: u32)
    requires
        queues_ok(c),
    ensures
        queues_ok(access_model(c, k, v)),
        has_entry(c.hot, k) || has_entry(c.new, k) || c.cold.contains(k) ==> value_of(
            access_model(c, k, v).hot,
            k,
        ) == Some(v),
        !(has_entry(c.hot, k) || has_entry(c.new, k) || c.cold.contains(k)) ==> value_of(
            access_model(c, k, v).new,
            k,
        ) == Some(v),
{
    if has_entry(c.hot, k) {
        lemma_without_key(c.hot, k);
        let c1 = CacheModel { hot: without_key(c.hot, k), ..c };
        assert forall|j: u32| !(c1.cold.contains(j) && has_entry(c1.hot, j)) by {
        }
        assert forall|j: u32| !(has_entry(c1.new, j) && has_entry(c1.hot, j)) by {
        }
        lemma_promote(c1, k, v);
    } else if has_entry(c.new, k) {
        lemma_without_key(c.new, k);
        let c1 = CacheModel { new: without_key(c.new, k), ..c };
        assert forall|j: u32| !(has_entry(c1.new, j) && c1.cold.contains(j)) by {
        }
        assert forall|j: u32| !(has_entry(c1.new, j) && has_entry(c1.hot, j)) by {
        }
        lemma_capacity_checked(c1);
        lemma_promote(c1, k, v);
    } else if c.cold.contains(k) {
        lemma_set_without(c.cold, k);
        let c1 = CacheModel { cold: set_without(c.cold, k), ..c };
        assert forall|j: u32| !(has_entry(c1.new, j) && c1.cold.contains(j)) by {
        }
        assert forall|j: u32| !(c1.cold.contains(j) && has_entry(c1.hot, j)) by {
        }
        lemma_capacity_checked(c1);
        lemma_promote(c1, k, v);
    } else {
        lemma_capacity_checked(c);
        let r = capacity_checked(c);
        lemma_inserted(r.new, k, v);
        let n = access_model(c, k, v);
        assert forall|j: u32| !(has_entry(n.new, j) && n.cold.contains(j)) by {
        }
        assert forall|j: u32| !(has_entry(n.new, j) && has_entry(n.hot, j)) by {
        }
    }
}

/// Making room leaves `hot` and `new` each with room for one more entry
/// within their shares, and `cold` within its share.
proof fn lemma_capacity_checked_sizes(c: CacheModel)
    requires
        hot_and_new_sized(c),
        cold_sized(c),
    ensures
        capacity_checked(c).hot.len() + 1 <= (if c.capacity == 0 { 1 } else { c.capacity }),
        capacity_checked(c).new.len() + 1 <= (if c.capacity / 4 == 0 { 1 } else { c.capacity / 4 }),
        cold_sized(capacity_checked(c)),
{
    lemma_lengths(c.hot, c.cold, 0, 0);
    if c.new.len() > 0 {
        lemma_lengths(c.new, c.cold, c.new[0].0, 0);
        lemma_lengths(c.new, set_inserted(c.cold, c.new[0].0), 0, 0);
    }
}

/// Every access keeps `hot` within the capacity, `new` within a quarter of
/// it and `cold` within half of it (at least one entry each).
pub proof fn lemma_access_keeps_queues_sized(c: CacheModel, k: u32, v: u32)
    requires
        hot_and_new_sized(c),
        cold_sized(c),
    ensures
        hot_and_new_sized(access_model(c, k, v)),
        cold_sized(access_model(c, k, v)),
{
    lemma_lengths(c.hot, c.cold, k, v);
    lemma_lengths(c.new, c.cold, k, v);
    let c1 = if has_entry(c.hot, k) {
        CacheModel { hot: without_key(c.hot, k), ..c }
    } else if has_entry(c.new, k) {
        CacheModel { new: without_key(c.new, k), ..c }
    } else if c.cold.contains(k) {
        CacheModel { cold: set_without(c.cold, k), ..c }
    } else {
        c
    };
    lemma_capacity_checked_sizes(c1);
    let r = capacity_checked(c1);
    lemma_lengths(r.hot, r.cold, k, v);
    lemma_lengths(r.new, r.cold, k, v);
}

/// An access of `k` takes at most one other entry out of `hot`, and only
/// when `hot` is full: its front entry. Every other key that was hot stays
/// hot with its value.
pub proof fn lemma_access_keeps_hot(c: CacheModel, k: u32, v: u32)
    requires
        queues_ok(c),
        hot_and_new_sized(c),
    ensures
        forall|j: u32|
            has_entry(c.hot, j) && j != k && (c.hot.len() < c.capacity || j != c.hot[0].0)
                ==> #[trigger] value_of(access_model(c, k, v).hot, j) == value_of(c.hot, j),
{
    let c1 = if has_entry(c.hot, k) {
        CacheModel { hot: without_key(c.hot, k), ..c }
    } else if has_entry(c.new, k) {
        CacheModel { new: without_key(c.new, k), ..c }
    } else if c.cold.contains(k) {
        CacheModel { cold: set_without(c.cold, k), ..c }
    } else {
        c
    };
    lemma_without_key(c.hot, k);
    lemma_lengths(c.hot, c.cold, k, v);
    let h1 = c1.hot;
    assert(keys_unique(h1));
    let h2 = capacity_checked(c1).hot;
    lemma_drop_front(h1);
    assert(keys_unique(h2));
    assert forall|j: u32|
        has_entry(c.hot, j) && j != k && (c.hot.len() < c.capacity || j != c.hot[0].0) implies #[trigger] value_of(
        access_model(c, k, v).hot,
        j,
    ) == value_of(c.hot, j) by {
        if has_entry(c.hot, k) {
            lemma_value_without(c.hot, k, j);
        }
        if h1.len() >= c.capacity {
            if h1.len() > 0 && j == h1[0].0 {
                if has_entry(c.hot, k) {
                    assert(h1.len() == c.hot.len() - 1);
                }
                assert(h1 == c.hot);
            }
            lemma_value_drop_front(h1, j);
        }
        if has_entry(c.hot, k) || has_entry(c.new, k) || c.cold.contains(k) {
            lemma_value_inserted(h2, k, v, j);
        }
    }
}

impl TwoQcache<u32, u32> {
    /// The queues and the capacity.
    pub closed spec fn model(&self) -> CacheModel {
        CacheModel {
            new: map_items(self.new),
            cold: set_items(self.cold),
            hot: map_items(self.hot),
            capacity: self.capacity as nat,
        }
    }

    /// Each queue holds a key at most once, and no key is in two queues.
    pub open spec fn wf(&self) -> bool {
        queues_ok(self.model())
    }

    /// An empty cache of capacity 20.
    pub fn new() -> (r: Self)
        ensures
            r.wf(),
            r.model() == (CacheModel {
                new: Seq::empty(),
                cold: Seq::empty(),
                hot: Seq::empty(),
                capacity: 20,
            }),
    {
        Self { new: map_new(), cold: set_new(), hot: map_new(), capacity: 20 }
    }

    /// Records an access of `key` with value `val` (see `access_model`) and
    /// gives the value now stored under `key`, which is `val`.
    pub fn access(&mut self, key: &u32, val: u32) -> (r: Option<&u32>)
        requires
            old(self).wf(),
        ensures
            final(self).wf(),
            final(self).model() == access_model(old(self).model(), *key, val),
            r matches Some(x) && *x == val,
            hot_and_new_sized(old(self).model()) ==> forall|j: u32|
                has_entry(old(self).model().hot, j) && j != *key && (old(self).model().hot.len()
                    < old(self).model().capacity || j != old(self).model().hot[0].0)
                    ==> #[trigger] value_of(final(self).model().hot, j) == value_of(
                    old(self).model().hot,
                    j,
                ),
    {
        let ghost c = self.model();
        proof {
            lemma_access_keeps_queues_apart(c, *key, val);
            if hot_and_new_sized(c) {
                lemma_access_keeps_hot(c, *key, val);
            }
        }
        if map_contains_key(&self.hot, *key) {
            map_remove(&mut self.hot, *key);
            self.check_capacity();
            map_insert(&mut self.hot, *key, val);
            return map_get(&self.hot, *key);
        }
        if map_contains_key(&self.new, *key) {
            map_remove(&mut self.new, *key);
            self.check_capacity();
            map_insert(&mut self.hot, *key, val);
            return map_get(&self.hot, *key);
        }
        if set_contains_key(&self.cold, *key) {
            set_remove(&mut self.cold, *key);
            self.check_capacity();
            map_insert(&mut self.hot, *key, val);
            return map_get(&self.hot, *key);
        }
        self.check_capacity();
        map_insert(&mut self.new, *key, val);
        map_get(&self.new, *key)
    }

    /// Makes room for one insertion (see `capacity_checked`).
    pub fn check_capacity(&mut self)
        requires
            old(self).wf(),
        ensures
            final(self).wf(),
            final(self).model() == capacity_checked(old(self).model()),
    {
        proof {
            lemma_capacity_checked(self.model());
        }
        if map_len(&self.hot) >= self.capacity {
            map_pop_front(&mut self.hot);
        }
        if map_len(&self.new) >= self.capacity / 4 {
            if let Some((old_key, _)) = map_pop_front(&mut self.new) {
                set_insert(&mut self.cold, old_key);
            }
        }
        if set_len(&self.cold) >= self.capacity / 2 {
            set_pop_front(&mut self.cold);
        }
    }
}

} // verus!
