//! Insertion-ordered hash maps of `hashlink`, as the caches use them: a map
//! from `u32` to `u32`, and a set of `u32` (a map to `()`). Each is modelled
//! by its entries from front to back; `insert` puts an entry at the back.
use hashlink::{DefaultHashBuilder, LinkedHashMap};
use vstd::prelude::*;

verus! {

#[verifier::external_type_specification]
#[verifier::external_body]
#[verifier::reject_recursive_types(K)]
#[verifier::reject_recursive_types(V)]
#[verifier::reject_recursive_types(S)]
pub struct ExLinkedHashMap<K, V, S>(LinkedHashMap<K, V, S>);

#[verifier::external_type_specification]
#[verifier::external_body]
pub struct ExDefaultHashBuilder(DefaultHashBuilder);

/// The entries of a map from `u32` to `u32`, from front to back.
pub uninterp spec fn map_items(m: LinkedHashMap<u32, u32>) -> Seq<(u32, u32)>;

/// The keys of a set of `u32`, from front to back.
pub uninterp spec fn set_items(m: LinkedHashMap<u32, ()>) -> Seq<u32>;

// ---------------------------------------------------------------------------
// The model: sequences of entries with distinct keys.

/// No key occurs in two entries.
pub open spec fn keys_unique(s: Seq<(u32, u32)>) -> bool {
    forall|i: int, j: int| 0 <= i < j < s.len() ==> #[trigger] s[i].0 != #[trigger] s[j].0
}

/// No key occurs twice.
pub open spec fn set_unique(s: Seq<u32>) -> bool {
    forall|i: int, j: int| 0 <= i < j < s.len() ==> #[trigger] s[i] != #[trigger] s[j]
}

/// Some entry has key `k`.
pub open spec fn has_entry(s: Seq<(u32, u32)>, k: u32) -> bool {
    exists|i: int| 0 <= i < s.len() && #[trigger] s[i].0 == k
}

/// The position of an entry with key `k`, where there is one.
pub open spec fn key_index(s: Seq<(u32, u32)>, k: u32) -> int {
    choose|i: int| 0 <= i < s.len() && #[trigger] s[i].0 == k
}

/// The position of `k`, where it occurs.
pub open spec fn set_index(s: Seq<u32>, k: u32) -> int {
    choose|i: int| 0 <= i < s.len() && s[i] == k
}

/// The value stored under `k`.
pub open spec fn value_of(s: Seq<(u32, u32)>, k: u32) -> Option<u32> {
    if has_entry(s, k) {
        Some(s[key_index(s, k)].1)
    } else {
        None
    }
}

/// The entries without the one of key `k`.
pub open spec fn without_key(s: Seq<(u32, u32)>, k: u32) -> Seq<(u32, u32)> {
    if has_entry(s, k) {
        s.remove(key_index(s, k))
    } else {
        s
    }
}

/// The keys without `k`.
pub open spec fn set_without(s: Seq<u32>, k: u32) -> Seq<u32> {
    if s.contains(k) {
        s.remove(set_index(s, k))
    } else {
        s
    }
}

/// The entries after an insertion of `k` with `v`: any entry of key `k`
/// leaves its place, and the new one goes to the back.
pub open spec fn inserted(s: Seq<(u32, u32)>, k: u32, v: u32) -> Seq<(u32, u32)> {
    without_key(s, k).push((k, v))
}

/// The keys after an insertion of `k`, which goes to the back.
pub open spec fn set_inserted(s: Seq<u32>, k: u32) -> Seq<u32> {
    set_without(s, k).push(k)
}

/// The sequence without its front element, if it has one.
pub open spec fn drop_front<A>(s: Seq<A>) -> Seq<A> {
    if s.len() > 0 {
        s.drop_first()
    } else {
        s
    }
}

/// Removing the entry of `k` keeps the keys distinct and takes exactly `k`
/// out of the keys.
pub proof fn lemma_without_key(s: Seq<(u32, u32)>, k: u32)
    requires
        keys_unique(s),
    ensures
        keys_unique(without_key(s, k)),
        forall|j: u32| has_entry(without_key(s, k), j) <==> (has_entry(s, j) && j != k),
        has_entry(s, k) ==> without_key(s, k).len() == s.len() - 1,
{
    let w = without_key(s, k);
    if has_entry(s, k) {
        let idx = key_index(s, k);
        assert forall|j: u32| has_entry(w, j) <==> (has_entry(s, j) && j != k) by {
            if has_entry(w, j) {
                let i = choose|i: int| 0 <= i < w.len() && #[trigger] w[i].0 == j;
                if i < idx {
                    assert(s[i].0 == j);
                } else {
                    assert(s[i + 1].0 == j);
                }
            }
            if has_entry(s, j) && j != k {
                let i = choose|i: int| 0 <= i < s.len() && #[trigger] s[i].0 == j;
                if i < idx {
                    assert(w[i].0 == j);
                } else {
                    assert(i != idx);
                    assert(w[i - 1].0 == j);
                }
            }
        }
        assert forall|a: int, b: int| 0 <= a < b < w.len() implies #[trigger] w[a].0 != #[trigger] w[b].0 by {
            let a2 = if a < idx { a } else { a + 1 };
            let b2 = if b < idx { b } else { b + 1 };
            assert(w[a] == s[a2] && w[b] == s[b2]);
        }
    }
}

/// Inserting `k` with `v` keeps the keys distinct, adds exactly `k` to the
/// keys and stores `v` under it.
pub proof fn lemma_inserted(s: Seq<(u32, u32)>, k: u32, v: u32)
    requires
        keys_unique(s),
    ensures
        keys_unique(inserted(s, k, v)),
        forall|j: u32| has_entry(inserted(s, k, v), j) <==> (has_entry(s, j) || j == k),
        value_of(inserted(s, k, v), k) == Some(v),
{
    lemma_without_key(s, k);
    let w = without_key(s, k);
    let n = inserted(s, k, v);
    assert(n.last() == (k, v));
    assert forall|j: u32| has_entry(n, j) <==> (has_entry(s, j) || j == k) by {
        if has_entry(n, j) && j != k {
            let i = choose|i: int| 0 <= i < n.len() && #[trigger] n[i].0 == j;
            assert(w[i].0 == j);
        }
        if has_entry(s, j) && j != k {
            let i = choose|i: int| 0 <= i < w.len() && #[trigger] w[i].0 == j;
            assert(n[i].0 == j);
        }
        if j == k {
            assert(n[n.len() - 1].0 == k);
        }
    }
    assert forall|a: int, b: int| 0 <= a < b < n.len() implies #[trigger] n[a].0 != #[trigger] n[b].0 by {
        if b == n.len() - 1 {
            assert(n[a] == w[a]);
            assert(has_entry(w, n[a].0));
        } else {
            assert(n[a] == w[a] && n[b] == w[b]);
        }
    }
    assert(has_entry(n, k));
    let i = key_index(n, k);
    if i != n.len() - 1 {
        assert(n[i].0 == n[n.len() - 1].0);
    }
}

/// Dropping the front entry keeps the keys distinct and takes exactly the
/// front key out of the keys.
pub proof fn lemma_drop_front(s: Seq<(u32, u32)>)
    requires
        keys_unique(s),
    ensures
        keys_unique(drop_front(s)),
        forall|j: u32|
            has_entry(drop_front(s), j) <==> (has_entry(s, j) && (s.len() > 0 ==> j != s[0].0)),
{
    let d = drop_front(s);
    if s.len() > 0 {
        assert forall|j: u32| has_entry(d, j) <==> (has_entry(s, j) && j != s[0].0) by {
            if has_entry(d, j) {
                let i = choose|i: int| 0 <= i < d.len() && #[trigger] d[i].0 == j;
                assert(s[i + 1].0 == j);
            }
            if has_entry(s, j) && j != s[0].0 {
                let i = choose|i: int| 0 <= i < s.len() && #[trigger] s[i].0 == j;
                assert(d[i - 1].0 == j);
            }
        }
        assert forall|a: int, b: int| 0 <= a < b < d.len() implies #[trigger] d[a].0 != #[trigger] d[b].0 by {
            assert(d[a] == s[a + 1] && d[b] == s[b + 1]);
        }
    }
}

/// Moving the entry of `k` to the front keeps the keys and their
/// distinctness.
pub proof fn lemma_to_front(s: Seq<(u32, u32)>, k: u32)
    requires
        keys_unique(s),
        has_entry(s, k),
    ensures
        keys_unique(seq![s[key_index(s, k)]] + without_key(s, k)),
        forall|j: u32| has_entry(seq![s[key_index(s, k)]] + without_key(s, k), j) <==> has_entry(s, j),
{
    lemma_without_key(s, k);
    let e = s[key_index(s, k)];
    let w = without_key(s, k);
    let n = seq![e] + w;
    assert forall|j: u32| has_entry(n, j) <==> has_entry(s, j) by {
        if has_entry(n, j) && j != k {
            let i = choose|i: int| 0 <= i < n.len() && #[trigger] n[i].0 == j;
            assert(i != 0);
            assert(w[i - 1].0 == j);
        }
        if has_entry(s, j) && j != k {
            let i = choose|i: int| 0 <= i < w.len() && #[trigger] w[i].0 == j;
            assert(n[i + 1].0 == j);
        }
        if j == k {
            assert(n[0].0 == k);
        }
    }
    assert forall|a: int, b: int| 0 <= a < b < n.len() implies #[trigger] n[a].0 != #[trigger] n[b].0 by {
        if a == 0 {
            assert(n[b] == w[b - 1]);
            assert(has_entry(w, n[b].0));
        } else {
            assert(n[a] == w[a - 1] && n[b] == w[b - 1]);
        }
    }
}

/// Removing `k` keeps the keys distinct and takes exactly `k` out.
pub proof fn lemma_set_without(s: Seq<u32>, k: u32)
    requires
        set_unique(s),
    ensures
        set_unique(set_without(s, k)),
        forall|j: u32| set_without(s, k).contains(j) <==> (s.contains(j) && j != k),
{
    let w = set_without(s, k);
    if s.contains(k) {
        let idx = set_index(s, k);
        assert forall|j: u32| w.contains(j) <==> (s.contains(j) && j != k) by {
            if w.contains(j) {
                let i = choose|i: int| 0 <= i < w.len() && w[i] == j;
                if i < idx {
                    assert(s[i] == j);
                } else {
                    assert(s[i + 1] == j);
                }
            }
            if s.contains(j) && j != k {
                let i = choose|i: int| 0 <= i < s.len() && s[i] == j;
                if i < idx {
                    assert(w[i] == j);
                } else {
                    assert(w[i - 1] == j);
                }
            }
        }
        assert forall|a: int, b: int| 0 <= a < b < w.len() implies #[trigger] w[a] != #[trigger] w[b] by {
            let a2 = if a < idx { a } else { a + 1 };
            let b2 = if b < idx { b } else { b + 1 };
            assert(w[a] == s[a2] && w[b] == s[b2]);
        }
    }
}

/// Inserting `k` keeps the keys distinct and adds exactly `k`.
pub proof fn lemma_set_inserted(s: Seq<u32>, k: u32)
    requires
        set_unique(s),
    ensures
        set_unique(set_inserted(s, k)),
        forall|j: u32| set_inserted(s, k).contains(j) <==> (s.contains(j) || j == k),
{
    lemma_set_without(s, k);
    let w = set_without(s, k);
    let n = set_inserted(s, k);
    assert forall|j: u32| n.contains(j) <==> (s.contains(j) || j == k) by {
        if n.contains(j) && j != k {
            let i = choose|i: int| 0 <= i < n.len() && n[i] == j;
            assert(w[i] == j);
        }
        if s.contains(j) && j != k {
            let i = choose|i: int| 0 <= i < w.len() && w[i] == j;
            assert(n[i] == j);
        }
        if j == k {
            assert(n[n.len() - 1] == k);
        }
    }
    assert forall|a: int, b: int| 0 <= a < b < n.len() implies #[trigger] n[a] != #[trigger] n[b] by {
        if b == n.len() - 1 {
            assert(n[a] == w[a]);
            assert(w.contains(n[a]));
        } else {
            assert(n[a] == w[a] && n[b] == w[b]);
        }
    }
}

/// Dropping the front key keeps the keys distinct and takes out exactly
/// the front key.
pub proof fn lemma_set_drop_front(s: Seq<u32>)
    requires
        set_unique(s),
    ensures
        set_unique(drop_front(s)),
        forall|j: u32| drop_front(s).contains(j) <==> (s.contains(j) && (s.len() > 0 ==> j != s[0])),
{
    let d = drop_front(s);
    if s.len() > 0 {
        assert forall|j: u32| d.contains(j) <==> (s.contains(j) && j != s[0]) by {
            if d.contains(j) {
                let i = choose|i: int| 0 <= i < d.len() && d[i] == j;
                assert(s[i + 1] == j);
            }
            if s.contains(j) && j != s[0] {
                let i = choose|i: int| 0 <= i < s.len() && s[i] == j;
                assert(d[i - 1] == j);
            }
        }
        assert forall|a: int, b: int| 0 <= a < b < d.len() implies #[trigger] d[a] != #[trigger] d[b] by {
            assert(d[a] == s[a + 1] && d[b] == s[b + 1]);
        }
    }
}

/// Removing a key shortens the entries by at most one; inserting one
/// lengthens them by at most one; dropping the front shortens a non-empty
/// sequence by one.
pub proof fn lemma_lengths(s: Seq<(u32, u32)>, t: Seq<u32>, k: u32, v: u32)
    ensures
        without_key(s, k).len() <= s.len(),
        inserted(s, k, v).len() <= s.len() + 1,
        !has_entry(s, k) ==> inserted(s, k, v).len() == s.len() + 1,
        set_without(t, k).len() <= t.len(),
        set_inserted(t, k).len() <= t.len() + 1,
        drop_front(s).len() == if s.len() > 0 {
            s.len() - 1
        } else {
            0
        },
        drop_front(t).len() == if t.len() > 0 {
            t.len() - 1
        } else {
            0
        },
{
}

/// With distinct keys, the value under the key of entry `i` is that
/// entry's value.
pub proof fn lemma_value_at(s: Seq<(u32, u32)>, i: int)
    requires
        keys_unique(s),
        0 <= i < s.len(),
    ensures
        has_entry(s, s[i].0),
        value_of(s, s[i].0) == Some(s[i].1),
{
    assert(s[i].0 == s[i].0);
    let q = key_index(s, s[i].0);
    if q != i {
        if q < i {
            assert(s[q].0 != s[i].0);
        } else {
            assert(s[i].0 != s[q].0);
        }
    }
}

/// With distinct keys, removing `k` keeps the value of every other key.
pub proof fn lemma_value_without(s: Seq<(u32, u32)>, k: u32, j: u32)
    requires
        keys_unique(s),
        j != k,
    ensures
        value_of(without_key(s, k), j) == value_of(s, j),
{
    lemma_without_key(s, k);
    let w = without_key(s, k);
    if has_entry(s, j) {
        let i = choose|i: int| 0 <= i < s.len() && #[trigger] s[i].0 == j;
        lemma_value_at(s, i);
        if has_entry(s, k) {
            let ki = key_index(s, k);
            if i < ki {
                assert(w[i] == s[i]);
                lemma_value_at(w, i);
            } else {
                assert(i != ki);
                assert(w[i - 1] == s[i]);
                lemma_value_at(w, i - 1);
            }
        } else {
            lemma_value_at(w, i);
        }
    }
}

/// With distinct keys, dropping the front entry keeps the value of every
/// other key.
pub proof fn lemma_value_drop_front(s: Seq<(u32, u32)>, j: u32)
    requires
        keys_unique(s),
        s.len() > 0 ==> j != s[0].0,
    ensures
        value_of(drop_front(s), j) == value_of(s, j),
{
    lemma_drop_front(s);
    let d = drop_front(s);
    if has_entry(s, j) {
        let i = choose|i: int| 0 <= i < s.len() && #[trigger] s[i].0 == j;
        lemma_value_at(s, i);
        assert(i > 0);
        assert(d[i - 1] == s[i]);
        lemma_value_at(d, i - 1);
    }
}

/// With distinct keys, inserting `k` keeps the value of every other key.
pub proof fn lemma_value_inserted(s: Seq<(u32, u32)>, k: u32, v: u32, j: u32)
    requires
        keys_unique(s),
        j != k,
    ensures
        value_of(inserted(s, k, v), j) == value_of(s, j),
{
    lemma_value_without(s, k, j);
    lemma_without_key(s, k);
    lemma_inserted(s, k, v);
    let w = without_key(s, k);
    let n = inserted(s, k, v);
    if has_entry(w, j) {
        let i = choose|i: int| 0 <= i < w.len() && #[trigger] w[i].0 == j;
        lemma_value_at(w, i);
        assert(n[i] == w[i]);
        lemma_value_at(n, i);
    }
}

// ---------------------------------------------------------------------------
// Calls into `hashlink`.

/// `LinkedHashMap::new`: an empty map.
#[verifier::external_body]
pub(crate) fn map_new() -> (m: LinkedHashMap<u32, u32>)
    ensures
        map_items(m) == Seq::<(u32, u32)>::empty(),
{
    LinkedHashMap::new()
}

/// `LinkedHashMap::new`: an empty set.
#[verifier::external_body]
pub(crate) fn set_new() -> (m: LinkedHashMap<u32, ()>)
    ensures
        set_items(m) == Seq::<u32>::empty(),
{
    LinkedHashMap::new()
}

/// `LinkedHashMap::len`: the number of entries.
#[verifier::external_body]
pub(crate) fn map_len(m: &LinkedHashMap<u32, u32>) -> (r: usize)
    ensures
        r == map_items(*m).len(),
{
    m.len()
}

/// `LinkedHashMap::len`: the number of keys.
#[verifier::external_body]
pub(crate) fn set_len(m: &LinkedHashMap<u32, ()>) -> (r: usize)
    ensures
        r == set_items(*m).len(),
{
    m.len()
}

/// `LinkedHashMap::contains_key`: whether an entry has key `k`.
#[verifier::external_body]
pub(crate) fn map_contains_key(m: &LinkedHashMap<u32, u32>, k: u32) -> (r: bool)
    ensures
        r == has_entry(map_items(*m), k),
{
    m.contains_key(&k)
}

/// `LinkedHashMap::contains_key`: whether `k` is in the set.
#[verifier::external_body]
pub(crate) fn set_contains_key(m: &LinkedHashMap<u32, ()>, k: u32) -> (r: bool)
    ensures
        r == set_items(*m).contains(k),
{
    m.contains_key(&k)
}

/// `LinkedHashMap::get`: the value stored under `k`, if any.
#[verifier::external_body]
pub(crate) fn map_get(m: &LinkedHashMap<u32, u32>, k: u32) -> (r: Option<&u32>)
    ensures
        match value_of(map_items(*m), k) {
            Some(v) => r matches Some(x) && *x == v,
            None => r is None,
        },
{
    m.get(&k)
}

/// `LinkedHashMap::insert`: the entry of key `k` goes to the back with value
/// `v`; the value it replaced is given back.
#[verifier::external_body]
pub(crate) fn map_insert(m: &mut LinkedHashMap<u32, u32>, k: u32, v: u32) -> (r: Option<u32>)
    ensures
        map_items(*final(m)) == inserted(map_items(*old(m)), k, v),
        r == value_of(map_items(*old(m)), k),
{
    m.insert(k, v)
}

/// `LinkedHashMap::insert`: `k` goes to the back of the set; whether it was
/// there already is given back.
#[verifier::external_body]
pub(crate) fn set_insert(m: &mut LinkedHashMap<u32, ()>, k: u32) -> (r: bool)
    ensures
        set_items(*final(m)) == set_inserted(set_items(*old(m)), k),
        r == set_items(*old(m)).contains(k),
{
    m.insert(k, ()).is_some()
}

/// `LinkedHashMap::remove`: the entry of key `k` leaves the map; its value
/// is given back.
#[verifier::external_body]
pub(crate) fn map_remove(m: &mut LinkedHashMap<u32, u32>, k: u32) -> (r: Option<u32>)
    ensures
        map_items(*final(m)) == without_key(map_items(*old(m)), k),
        r == value_of(map_items(*old(m)), k),
{
    m.remove(&k)
}

/// `LinkedHashMap::remove`: `k` leaves the set; whether it was there is
/// given back.
#[verifier::external_body]
pub(crate) fn set_remove(m: &mut LinkedHashMap<u32, ()>, k: u32) -> (r: bool)
    ensures
        set_items(*final(m)) == set_without(set_items(*old(m)), k),
        r == set_items(*old(m)).contains(k),
{
    m.remove(&k).is_some()
}

/// `LinkedHashMap::pop_front`: the front entry leaves the map and is given
/// back.
#[verifier::external_body]
pub(crate) fn map_pop_front(m: &mut LinkedHashMap<u32, u32>) -> (r: Option<(u32, u32)>)
    ensures
        map_items(*final(m)) == drop_front(map_items(*old(m))),
        r == if map_items(*old(m)).len() > 0 {
            Some(map_items(*old(m))[0])
        } else {
            None
        },
{
    m.pop_front()
}

/// `LinkedHashMap::pop_front`: the front key leaves the set and is given
/// back.
#[verifier::external_body]
pub(crate) fn set_pop_front(m: &mut LinkedHashMap<u32, ()>) -> (r: Option<u32>)
    ensures
        set_items(*final(m)) == drop_front(set_items(*old(m))),
        r == if set_items(*old(m)).len() > 0 {
            Some(set_items(*old(m))[0])
        } else {
            None
        },
{
    m.pop_front().map(|(k, _)| k)
}

/// `LinkedHashMap::front`: the front entry, if any.
#[verifier::external_body]
pub(crate) fn map_front(m: &LinkedHashMap<u32, u32>) -> (r: Option<(&u32, &u32)>)
    ensures
        match r {
            Some(p) => map_items(*m).len() > 0 && (*p.0, *p.1) == map_items(*m)[0],
            None => map_items(*m).len() == 0,
        },
{
    m.front()
}

/// `LinkedHashMap::back`: the back entry, if any.
#[verifier::external_body]
pub(crate) fn map_back(m: &LinkedHashMap<u32, u32>) -> (r: Option<(&u32, &u32)>)
    ensures
        match r {
            Some(p) => map_items(*m).len() > 0 && (*p.0, *p.1) == map_items(*m).last(),
            None => map_items(*m).len() == 0,
        },
{
    m.back()
}

/// `LinkedHashMap::to_front`: the entry of key `k`, if there is one, moves
/// to the front; its value is given back.
#[verifier::external_body]
pub(crate) fn map_to_front(m: &mut LinkedHashMap<u32, u32>, k: u32) -> (r: Option<u32>)
    ensures
        map_items(*final(m)) == if has_entry(map_items(*old(m)), k) {
            seq![map_items(*old(m))[key_index(map_items(*old(m)), k)]] + without_key(
                map_items(*old(m)),
                k,
            )
        } else {
            map_items(*old(m))
        },
        r == value_of(map_items(*old(m)), k),
{
    m.to_front(&k).copied()
}

} // verus!
