//! A 2Q cache. A key seen for the first time enters the `new` queue with its
//! value; keys pushed out of `new` are remembered, without values, in the
//! `cold` queue; a key asked for again while it is cold is promoted to the
//! `hot` queue.
use crate::storage_engine::linked_map::{
    drop_front, has_entry, inserted, key_index, keys_unique, lemma_drop_front, lemma_inserted,
    lemma_lengths, lemma_value_at, lemma_without_key, lemma_set_drop_front, lemma_set_inserted, lemma_set_without, lemma_to_front,
    map_back, map_contains_key, map_front,
    map_get, map_insert, map_items, map_len, map_new, map_pop_front, map_to_front, set_contains_key,
    set_insert, set_inserted, set_items, set_len, set_new, set_pop_front, set_remove,
    set_unique, set_without, value_of, without_key,
};
use hashlink::LinkedHashMap;
use vstd::prelude::*;

verus! {

/// The queues of a cache, each from front to back, and its capacity.
pub struct CacheModel {
    pub new: Seq<(u32, u32)>,
    pub cold: Seq<u32>,
    pub hot: Seq<(u32, u32)>,
    pub capacity: nat,
}

/// The value behind an optional reference.
pub open spec fn opt_val(r: Option<&u32>) -> Option<u32> {
    match r {
        Some(x) => Some(*x),
        None => None,
    }
}

/// An access of `k` has to fetch its value: `k` is neither hot nor new.
pub open spec fn needs_fetch(c: CacheModel, k: u32) -> bool {
    !has_entry(c.hot, k) && !has_entry(c.new, k)
}

/// The queues after `new` makes room for one more key: when it holds at
/// least a quarter of the capacity, its front key moves to the back of
/// `cold`, whose front key is dropped first if `cold` holds exactly half the
/// capacity.
pub open spec fn make_room_in_new(c: CacheModel) -> CacheModel {
    if c.new.len() >= c.capacity / 4 && c.new.len() > 0 {
        let cold = if c.cold.len() == c.capacity / 2 {
            drop_front(c.cold)
        } else {
            c.cold
        };
        CacheModel { new: c.new.drop_first(), cold: set_inserted(cold, c.new[0].0), ..c }
    } else {
        c
    }
}

/// The queues and the answer after an access of `k`, where `fetched` is
/// what fetching the value gives (used only when `needs_fetch`).
/// - A hot key moves to the front of `hot`, and its value is the answer.
/// - A new key changes nothing, and its value is the answer.
/// - A cold key leaves `cold`; the front of `hot` is dropped if `hot` is
///   full; a fetched value goes to the back of `hot` and is the answer.
/// - Any other key: `new` makes room, and a fetched value goes to the back
///   of `new` and is the answer.
/// A failed fetch answers nothing.
pub open spec fn access_model(c: CacheModel, k: u32, fetched: Result<u32, ()>) -> (
    CacheModel,
    Option<u32>,
) {
    if has_entry(c.hot, k) {
        (
            CacheModel { hot: seq![c.hot[key_index(c.hot, k)]] + without_key(c.hot, k), ..c },
            value_of(c.hot, k),
        )
    } else if has_entry(c.new, k) {
        (c, value_of(c.new, k))
    } else if c.cold.contains(k) {
        let hot = if c.hot.len() >= c.capacity {
            drop_front(c.hot)
        } else {
            c.hot
        };
        let cold = set_without(c.cold, k);
        match fetched {
            Ok(v) => (CacheModel { cold, hot: inserted(hot, k, v), ..c }, Some(v)),
            Err(_) => (CacheModel { cold, hot, ..c }, None),
        }
    } else {
        let r = make_room_in_new(c);
        match fetched {
            Ok(v) => (CacheModel { new: inserted(r.new, k, v), ..r }, Some(v)),
            Err(_) => (r, None),
        }
    }
}

/// Each queue holds a key at most once, and no key is in two queues.
pub open spec fn queues_ok(c: CacheModel) -> bool {
    &&& keys_unique(c.new)
    &&& set_unique(c.cold)
    &&& keys_unique(c.hot)
    &&& forall|k: u32| !(has_entry(c.new, k) && c.cold.contains(k))
    &&& forall|k: u32| !(has_entry(c.new, k) && has_entry(c.hot, k))
    &&& forall|k: u32| !(c.cold.contains(k) && has_entry(c.hot, k))
}

/// Making room in `new` keeps the queues apart.
proof fn lemma_make_room_keeps_queues(c: CacheModel)
    requires
        queues_ok(c),
    ensures
        queues_ok(make_room_in_new(c)),
        forall|j: u32|
            has_entry(make_room_in_new(c).new, j) ==> has_entry(c.new, j),
        make_room_in_new(c).hot == c.hot,
        forall|j: u32|
            make_room_in_new(c).cold.contains(j) ==> c.cold.contains(j) || has_entry(c.new, j),
{
    if c.new.len() >= c.capacity / 4 && c.new.len() > 0 {
        let cold = if c.cold.len() == c.capacity / 2 {
            drop_front(c.cold)
        } else {
            c.cold
        };
        lemma_drop_front(c.new);
        lemma_set_drop_front(c.cold);
        lemma_set_inserted(cold, c.new[0].0);
        assert(has_entry(c.new, c.new[0].0));
        let r = make_room_in_new(c);
        assert(r.new == drop_front(c.new));
        assert forall|j: u32| !(has_entry(r.new, j) && r.cold.contains(j)) by {
            if has_entry(r.new, j) {
                assert(has_entry(c.new, j) && j != c.new[0].0);
                assert(!c.cold.contains(j));
            }
        }
        assert forall|j: u32| !(has_entry(r.new, j) && has_entry(r.hot, j)) by {
            if has_entry(r.new, j) {
                assert(has_entry(c.new, j));
            }
        }
        assert forall|j: u32| !(r.cold.contains(j) && has_entry(r.hot, j)) by {
            if r.cold.contains(j) {
                assert(cold.contains(j) || j == c.new[0].0);
                assert(!has_entry(c.hot, j));
            }
        }
    }
}

/// Every access, whatever the fetch gives, keeps each queue free of repeated
/// keys and the three queues apart.
pub proof fn lemma_access_keeps_queues_apart(c: CacheModel, k: u32, fetched: Result<u32, ()>)
    requires
        queues_ok(c),
    ensures
        queues_ok(access_model(c, k, fetched).0),
{
    let n = access_model(c, k, fetched).0;
    if has_entry(c.hot, k) {
        lemma_to_front(c.hot, k);
        assert forall|j: u32| has_entry(n.hot, j) <==> has_entry(c.hot, j) by {
        }
    } else if has_entry(c.new, k) {
    } else if c.cold.contains(k) {
        let hot = if c.hot.len() >= c.capacity {
            drop_front(c.hot)
        } else {
            c.hot
        };
        lemma_drop_front(c.hot);
        lemma_set_without(c.cold, k);
        assert forall|j: u32| has_entry(hot, j) implies has_entry(c.hot, j) by {
        }
        if let Ok(v) = fetched {
            lemma_inserted(hot, k, v);
        }
        assert forall|j: u32| has_entry(n.hot, j) implies has_entry(c.hot, j) || j == k by {
        }
        assert forall|j: u32| n.cold.contains(j) implies c.cold.contains(j) && j != k by {
        }
        assert forall|j: u32| !(has_entry(n.new, j) && n.cold.contains(j)) by {
        }
        assert forall|j: u32| !(has_entry(n.new, j) && has_entry(n.hot, j)) by {
        }
        assert forall|j: u32| !(n.cold.contains(j) && has_entry(n.hot, j)) by {
        }
    } else {
        lemma_make_room_keeps_queues(c);
        let r = make_room_in_new(c);
        if let Ok(v) = fetched {
            lemma_inserted(r.new, k, v);
        }
        assert forall|j: u32| has_entry(n.new, j) implies has_entry(r.new, j) || j == k by {
        }
        assert forall|j: u32| r.cold.contains(j) implies c.cold.contains(j) || has_entry(c.new, j) by {
        }
        assert forall|j: u32| !(has_entry(n.new, j) && n.cold.contains(j)) by {
        }
        assert forall|j: u32| !(has_entry(n.new, j) && has_entry(n.hot, j)) by {
        }
        assert forall|j: u32| !(n.cold.contains(j) && has_entry(n.hot, j)) by {
        }
    }
}

/// `n`, or one where `n` is zero.
pub open spec fn at_least_one(n: nat) -> nat {
    if n == 0 {
        1
    } else {
        n
    }
}

/// `hot` holds at most the capacity, and `new` at most a quarter of it (at
/// least one entry each).
pub open spec fn hot_and_new_sized(c: CacheModel) -> bool {
    &&& c.hot.len() <= at_least_one(c.capacity)
    &&& c.new.len() <= at_least_one(c.capacity / 4)
}

/// `cold` holds at most half the capacity (at least one key).
pub open spec fn cold_sized(c: CacheModel) -> bool {
    c.cold.len() <= at_least_one(c.capacity / 2)
}

/// What an access answers: the stored value of a hot key, else of a new
/// key, both without fetching; otherwise what the fetch gave, which is then
/// stored under the key (in `hot` for a cold key, in `new` for an unseen
/// one), or nothing when the fetch failed. A key that is answered from
/// `new` leaves every queue as it was.
pub proof fn lemma_access_answers(c: CacheModel, k: u32, fetched: Result<u32, ()>)
    requires
        queues_ok(c),
    ensures
        has_entry(c.hot, k) ==> access_model(c, k, fetched).1 == value_of(c.hot, k)
            && value_of(access_model(c, k, fetched).0.hot, k) == value_of(c.hot, k),
        !has_entry(c.hot, k) && has_entry(c.new, k) ==> access_model(c, k, fetched) == (
            c,
            value_of(c.new, k),
        ),
        has_entry(c.hot, k) || has_entry(c.new, k) ==> access_model(c, k, fetched).1 is Some,
        needs_fetch(c, k) ==> access_model(c, k, fetched).1 == match fetched {
            Ok(v) => Some(v),
            Err(_) => None,
        },
        needs_fetch(c, k) && c.cold.contains(k) && fetched is Ok ==> value_of(
            access_model(c, k, fetched).0.hot,
            k,
        ) == Some(fetched->Ok_0),
        needs_fetch(c, k) && !c.cold.contains(k) && fetched is Ok ==> value_of(
            access_model(c, k, fetched).0.new,
            k,
        ) == Some(fetched->Ok_0),
{
    if has_entry(c.hot, k) {
        lemma_to_front(c.hot, k);
        let ki = key_index(c.hot, k);
        lemma_value_at(c.hot, ki);
        let n = access_model(c, k, fetched).0.hot;
        assert(n[0] == c.hot[ki]);
        lemma_value_at(n, 0);
    } else if has_entry(c.new, k) {
        lemma_value_at(c.new, key_index(c.new, k));
    } else if c.cold.contains(k) {
        let h = if c.hot.len() >= c.capacity {
            drop_front(c.hot)
        } else {
            c.hot
        };
        lemma_drop_front(c.hot);
        if let Ok(v) = fetched {
            lemma_inserted(h, k, v);
        }
    } else {
        lemma_make_room_keeps_queues(c);
        if let Ok(v) = fetched {
            lemma_inserted(make_room_in_new(c).new, k, v);
        }
    }
}

/// An access takes at most one entry out of `hot`, and only when `hot` is
/// full: its front entry. Every other key that was hot stays hot with its
/// value, and while `hot` has room every hot key does.
pub proof fn lemma_access_keeps_hot(c: CacheModel, k: u32, fetched: Result<u32, ()>)
    requires
        queues_ok(c),
    ensures
        forall|j: u32|
            has_entry(c.hot, j) && (c.hot.len() < c.capacity || j != c.hot[0].0)
                ==> #[trigger] value_of(access_model(c, k, fetched).0.hot, j) == value_of(c.hot, j),
{
    let s = c.hot;
    let n = access_model(c, k, fetched).0.hot;
    if has_entry(s, k) {
        lemma_to_front(s, k);
        lemma_without_key(s, k);
        let ki = key_index(s, k);
        let w = without_key(s, k);
        assert forall|j: u32| has_entry(s, j) implies #[trigger] value_of(n, j) == value_of(s, j) by {
            let i = choose|i: int| 0 <= i < s.len() && #[trigger] s[i].0 == j;
            lemma_value_at(s, i);
            if i == ki {
                assert(n[0] == s[i]);
                lemma_value_at(n, 0);
            } else if i < ki {
                assert(w[i] == s[i]);
                assert(n[i + 1] == s[i]);
                lemma_value_at(n, i + 1);
            } else {
                assert(w[i - 1] == s[i]);
                assert(n[i] == s[i]);
                lemma_value_at(n, i);
            }
        }
    } else if has_entry(c.new, k) {
    } else if c.cold.contains(k) {
        let h = if s.len() >= c.capacity {
            drop_front(s)
        } else {
            s
        };
        lemma_drop_front(s);
        if let Ok(v) = fetched {
            assert(!has_entry(h, k));
            lemma_inserted(h, k, v);
            assert(without_key(h, k) == h);
            assert forall|j: u32|
                has_entry(s, j) && (s.len() < c.capacity || j != s[0].0) implies #[trigger] value_of(
                n,
                j,
            ) == value_of(s, j) by {
                let i = choose|i: int| 0 <= i < s.len() && #[trigger] s[i].0 == j;
                lemma_value_at(s, i);
                if s.len() < c.capacity {
                    assert(n[i] == s[i]);
                    lemma_value_at(n, i);
                } else {
                    assert(i != 0);
                    assert(h[i - 1] == s[i]);
                    assert(n[i - 1] == s[i]);
                    lemma_value_at(n, i - 1);
                }
            }
        }
    }
}

/// Every access, whatever the fetch gives, keeps `hot` within the capacity
/// and `new` within a quarter of it.
pub proof fn lemma_access_keeps_hot_and_new_sized(c: CacheModel, k: u32, fetched: Result<u32, ()>)
    requires
        hot_and_new_sized(c),
    ensures
        hot_and_new_sized(access_model(c, k, fetched).0),
{
    lemma_lengths(c.hot, c.cold, k, 0);
    lemma_lengths(c.new, c.cold, k, 0);
    if let Ok(v) = fetched {
        lemma_lengths(drop_front(c.hot), c.cold, k, v);
        lemma_lengths(c.hot, c.cold, k, v);
        if c.new.len() > 0 {
            lemma_lengths(c.new.drop_first(), c.cold, k, v);
        }
    }
}

/// With a capacity of at least two, every access keeps `cold` within half
/// the capacity.
pub proof fn lemma_access_keeps_cold_sized(c: CacheModel, k: u32, fetched: Result<u32, ()>)
    requires
        c.capacity >= 2,
        cold_sized(c),
    ensures
        cold_sized(access_model(c, k, fetched).0),
{
    lemma_lengths(c.hot, c.cold, k, 0);
    lemma_lengths(c.hot, drop_front(c.cold), k, 0);
    if c.new.len() > 0 {
        lemma_lengths(c.hot, drop_front(c.cold), c.new[0].0, 0);
        lemma_lengths(c.hot, c.cold, c.new[0].0, 0);
    }
}

/// A 2Q cache from keys to values.
#[verifier::reject_recursive_types(K)]
#[verifier::reject_recursive_types(V)]
pub struct TwoQcache<K, V> {
    new: LinkedHashMap<K, V>,
    cold: LinkedHashMap<K, ()>,
    hot: LinkedHashMap<K, V>,
    capacity: usize,
}

impl TwoQcache<u32, u32> {
    /// The queues and the capacity.
    pub closed spec fn model(&self) -> CacheModel {
        CacheModel {
            new: map_items(self.new),
            cold: set_items(self.cold),
            hot: map_items(self.hot),
            capacity: self.capacity as nat,
        }
    }

    /// Each queue holds a key at most once, and no key is in two queues.
    pub open spec fn wf(&self) -> bool {
        queues_ok(self.model())
    }

    /// An empty cache.
    pub fn new(capacity: usize) -> (r: Self)
        ensures
            r.wf(),
            r.model() == (CacheModel {
                new: Seq::empty(),
                cold: Seq::empty(),
                hot: Seq::empty(),
                capacity: capacity as nat,
            }),
    {
        Self { new: map_new(), cold: set_new(), hot: map_new(), capacity }
    }

    /// Gives the value of `key`, fetching it with `get_val` when the key is
    /// neither hot nor new, and updates the queues (see `access_model`).
    pub fn access(&mut self, key: u32, get_val: impl FnOnce(u32) -> Result<u32, ()>) -> (r: Option<
        &u32,
    >)
        requires
            old(self).wf(),
            call_requires(get_val, (key,)),
        ensures
            final(self).wf(),
            forall|j: u32|
                has_entry(old(self).model().hot, j) && (old(self).model().hot.len()
                    < old(self).model().capacity || j != old(self).model().hot[0].0)
                    ==> #[trigger] value_of(final(self).model().hot, j) == value_of(
                    old(self).model().hot,
                    j,
                ),
            exists|fetched: Result<u32, ()>|
                {
                    &&& (needs_fetch(old(self).model(), key) ==> call_ensures(
                        get_val,
                        (key,),
                        fetched,
                    ))
                    &&& access_model(old(self).model(), key, fetched) == (
                        final(self).model(),
                        opt_val(r),
                    )
                },
    {
        let ghost c = self.model();
        if map_to_front(&mut self.hot, key).is_some() {
            let r = Some(map_front(&self.hot).unwrap().1);
            proof {
                lemma_access_keeps_queues_apart(c, key, Err(()));
                lemma_access_keeps_hot(c, key, Err(()));
                assert(access_model(c, key, Err(())) == (self.model(), opt_val(r)));
            }
            return r;
        }
        if map_contains_key(&self.new, key) {
            let r = Some(map_get(&self.new, key).unwrap());
            proof {
                lemma_access_keeps_queues_apart(c, key, Err(()));
                lemma_access_keeps_hot(c, key, Err(()));
                assert(access_model(c, key, Err(())) == (self.model(), opt_val(r)));
            }
            return r;
        }
        if set_contains_key(&self.cold, key) {
            set_remove(&mut self.cold, key);
            if map_len(&self.hot) >= self.capacity {
                map_pop_front(&mut self.hot);
            }
            let fetched = get_val(key);
            match fetched {
                Ok(val) => {
                    map_insert(&mut self.hot, key, val);
                    let r = Some(map_back(&self.hot).unwrap().1);
                    proof {
                        lemma_access_keeps_queues_apart(c, key, fetched);
                        lemma_access_keeps_hot(c, key, fetched);
                        assert(access_model(c, key, fetched) == (self.model(), opt_val(r)));
                    }
                    return r;
                },
                Err(()) => {
                    proof {
                        lemma_access_keeps_queues_apart(c, key, fetched);
                        lemma_access_keeps_hot(c, key, fetched);
                        assert(access_model(c, key, fetched) == (self.model(), opt_val(None)));
                    }
                    return None;
                },
            }
        }
        if map_len(&self.new) >= self.capacity / 4 {
            if let Some((old_key, _)) = map_pop_front(&mut self.new) {
                if set_len(&self.cold) == self.capacity / 2 {
                    set_pop_front(&mut self.cold);
                }
                set_insert(&mut self.cold, old_key);
            }
        }
        proof {
            assert(self.model() == make_room_in_new(c));
        }
        let fetched = get_val(key);
        match fetched {
            Ok(val) => {
                map_insert(&mut self.new, key, val);
                let r = Some(map_back(&self.new).unwrap().1);
                proof {
                    lemma_access_keeps_queues_apart(c, key, fetched);
                    lemma_access_keeps_hot(c, key, fetched);
                    assert(access_model(c, key, fetched) == (self.model(), opt_val(r)));
                }
                r
            },
            Err(()) => {
                proof {
                    lemma_access_keeps_queues_apart(c, key, fetched);
                    lemma_access_keeps_hot(c, key, fetched);
                    assert(access_model(c, key, fetched) == (self.model(), opt_val(None)));
                }
                None
            },
        }
    }

    /// Whether `key` is in the `new` queue.
    pub fn new_contains_key(&self, key: u32) -> (r: bool)
        ensures
            r == has_entry(self.model().new, key),
    {
        map_contains_key(&self.new, key)
    }

    /// Whether `key` is in the `cold` queue.
    pub fn cold_contains_key(&self, key: u32) -> (r: bool)
        ensures
            r == self.model().cold.contains(key),
    {
        set_contains_key(&self.cold, key)
    }

    /// Whether `key` is in the `hot` queue.
    pub fn hot_contains_key(&self, key: u32) -> (r: bool)
        ensures
            r == has_entry(self.model().hot, key),
    {
        map_contains_key(&self.hot, key)
    }

    /// Whether the `cold` queue is empty.
    pub fn cold_is_empty(&self) -> (r: bool)
        ensures
            r == (self.model().cold.len() == 0),
    {
        set_len(&self.cold) == 0
    }
}

} // verus!
