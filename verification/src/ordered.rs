//! Keys with a total order, and the mathematical model shared by the
//! B-trees: a sequence of key/value pairs sorted by key.
use crate::text::{signed_decimal, signed_text, unsigned_text};
use vstd::prelude::*;

verus! {

/// The outcome of comparing two keys.
pub enum KeyOrder {
    Less,
    Equal,
    Greater,
}

/// A key of a B-tree: a copyable value that is ordered through an integer
/// rank, two keys of equal rank being the same key.
pub trait Key: Copy + Sized {
    spec fn rank(self) -> int;

    proof fn lemma_rank_injective(a: Self, b: Self)
        requires
            a.rank() == b.rank(),
        ensures
            a == b,
    ;

    fn compare(&self, other: &Self) -> (o: KeyOrder)
        ensures
            o is Less <==> self.rank() < other.rank(),
            o is Equal <==> self.rank() == other.rank(),
            o is Greater <==> self.rank() > other.rank(),
    ;

    /// The key in decimal, as `{:?}` writes it.
    fn to_text(&self) -> (s: String)
        ensures
            s@ == signed_decimal(self.rank()),
    ;
}

impl Key for u8 {
    open spec fn rank(self) -> int {
        self as int
    }

    proof fn lemma_rank_injective(a: Self, b: Self) {
    }

    fn compare(&self, other: &Self) -> (o: KeyOrder) {
        if *self < *other {
            KeyOrder::Less
        } else if *self == *other {
            KeyOrder::Equal
        } else {
            KeyOrder::Greater
        }
    }

    fn to_text(&self) -> (s: String) {
        unsigned_text(*self as u64)
    }
}

impl Key for u16 {
    open spec fn rank(self) -> int {
        self as int
    }

    proof fn lemma_rank_injective(a: Self, b: Self) {
    }

    fn compare(&self, other: &Self) -> (o: KeyOrder) {
        if *self < *other {
            KeyOrder::Less
        } else if *self == *other {
            KeyOrder::Equal
        } else {
            KeyOrder::Greater
        }
    }

    fn to_text(&self) -> (s: String) {
        unsigned_text(*self as u64)
    }
}

impl Key for u32 {
    open spec fn rank(self) -> int {
        self as int
    }

    proof fn lemma_rank_injective(a: Self, b: Self) {
    }

    fn compare(&self, other: &Self) -> (o: KeyOrder) {
        if *self < *other {
            KeyOrder::Less
        } else if *self == *other {
            KeyOrder::Equal
        } else {
            KeyOrder::Greater
        }
    }

    fn to_text(&self) -> (s: String) {
        unsigned_text(*self as u64)
    }
}

impl Key for u64 {
    open spec fn rank(self) -> int {
        self as int
    }

    proof fn lemma_rank_injective(a: Self, b: Self) {
    }

    fn compare(&self, other: &Self) -> (o: KeyOrder) {
        if *self < *other {
            KeyOrder::Less
        } else if *self == *other {
            KeyOrder::Equal
        } else {
            KeyOrder::Greater
        }
    }

    fn to_text(&self) -> (s: String) {
        unsigned_text(*self as u64)
    }
}

impl Key for usize {
    open spec fn rank(self) -> int {
        self as int
    }

    proof fn lemma_rank_injective(a: Self, b: Self) {
    }

    fn compare(&self, other: &Self) -> (o: KeyOrder) {
        if *self < *other {
            KeyOrder::Less
        } else if *self == *other {
            KeyOrder::Equal
        } else {
            KeyOrder::Greater
        }
    }

    fn to_text(&self) -> (s: String) {
        unsigned_text(*self as u64)
    }
}

impl Key for i32 {
    open spec fn rank(self) -> int {
        self as int
    }

    proof fn lemma_rank_injective(a: Self, b: Self) {
    }

    fn compare(&self, other: &Self) -> (o: KeyOrder) {
        if *self < *other {
            KeyOrder::Less
        } else if *self == *other {
            KeyOrder::Equal
        } else {
            KeyOrder::Greater
        }
    }

    fn to_text(&self) -> (s: String) {
        signed_text(*self as i64)
    }
}

impl Key for i64 {
    open spec fn rank(self) -> int {
        self as int
    }

    proof fn lemma_rank_injective(a: Self, b: Self) {
    }

    fn compare(&self, other: &Self) -> (o: KeyOrder) {
        if *self < *other {
            KeyOrder::Less
        } else if *self == *other {
            KeyOrder::Equal
        } else {
            KeyOrder::Greater
        }
    }

    fn to_text(&self) -> (s: String) {
        signed_text(*self as i64)
    }
}

/// The keys in decimal, each followed by a comma.
pub open spec fn keys_text<K: Key>(ks: Seq<K>) -> Seq<char>
    decreases ks.len(),
{
    if ks.len() == 0 {
        Seq::empty()
    } else {
        keys_text(ks.drop_last()) + signed_decimal(ks.last().rank()) + seq![',']
    }
}

/// The first line of a tree's drawing, after its leading newline: the
/// root's keys in parentheses, each in decimal with a comma, then `" | "`
/// and a blank line.
pub open spec fn first_line<K: Key>(ks: Seq<K>) -> Seq<char> {
    seq!['\n', '('] + keys_text(ks) + seq![')', ' ', '|', ' ', '\n', '\n']
}

/// A prefix of `a` is a prefix of `a` followed by anything.
pub proof fn lemma_prefix_extend<A>(p: Seq<A>, a: Seq<A>, b: Seq<A>)
    requires
        p.is_prefix_of(a),
    ensures
        p.is_prefix_of(a + b),
{
    assert(p =~= (a + b).subrange(0, p.len() as int));
}

/// The keys of the pairs, in order.
pub open spec fn keys_of_pairs<K, V>(e: Seq<(K, V)>) -> Seq<K> {
    Seq::new(e.len(), |i: int| e[i].0)
}

/// Appends each key of `ks` in decimal, followed by a comma.
pub(crate) fn write_keys<K: Key>(ks: &Vec<K>, out: &mut String)
    ensures
        final(out)@ == old(out)@ + keys_text(ks@),
{
    let ghost o = out@;
    let mut i: usize = 0;
    proof {
        reveal_strlit(",");
        assert(ks@.take(0) =~= Seq::<K>::empty());
    }
    while i < ks.len()
        invariant
            i <= ks@.len(),
            out@ == o + keys_text(ks@.take(i as int)),
        decreases ks@.len() - i,
    {
        let t = ks[i].to_text();
        out.append(t.as_str());
        out.append(",");
        proof {
            reveal_strlit(",");
            assert(ks@.take(i + 1).drop_last() =~= ks@.take(i as int));
            assert(ks@.take(i + 1).last() == ks@[i as int]);
        }
        i += 1;
    }
    proof {
        assert(ks@.take(i as int) =~= ks@);
    }
}

/// Appends the key of each pair of `ps` in decimal, followed by a comma.
pub(crate) fn write_pair_keys<K: Key, V>(ps: &Vec<(K, V)>, out: &mut String)
    ensures
        final(out)@ == old(out)@ + keys_text(keys_of_pairs(ps@)),
{
    let ghost o = out@;
    let ghost ks = keys_of_pairs(ps@);
    let mut i: usize = 0;
    proof {
        reveal_strlit(",");
        assert(ks.take(0) =~= Seq::<K>::empty());
    }
    while i < ps.len()
        invariant
            i <= ps@.len(),
            ks == keys_of_pairs(ps@),
            out@ == o + keys_text(ks.take(i as int)),
        decreases ps@.len() - i,
    {
        let t = ps[i].0.to_text();
        out.append(t.as_str());
        out.append(",");
        proof {
            reveal_strlit(",");
            assert(ks.take(i + 1).drop_last() =~= ks.take(i as int));
            assert(ks.take(i + 1).last() == ps@[i as int].0);
        }
        i += 1;
    }
    proof {
        assert(ks.take(i as int) =~= ks);
    }
}

/// The pairs are strictly increasing by key.
pub open spec fn sorted_pairs<K: Key, V>(e: Seq<(K, V)>) -> bool {
    forall|i: int, j: int| #![trigger e[i], e[j]] 0 <= i < j < e.len() ==> e[i].0.rank() < e[j].0.rank()
}

/// The keys are strictly increasing.
pub open spec fn sorted_keys<K: Key>(s: Seq<K>) -> bool {
    forall|i: int, j: int| #![trigger s[i], s[j]] 0 <= i < j < s.len() ==> s[i].rank() < s[j].rank()
}

/// No two pairs share a key.
pub open spec fn distinct_keys<K: Key, V>(e: Seq<(K, V)>) -> bool {
    forall|i: int, j: int| #![trigger e[i], e[j]] 0 <= i < j < e.len() ==> e[i].0.rank() != e[j].0.rank()
}

/// Every pair has a key of rank below `r`.
pub open spec fn all_below<K: Key, V>(e: Seq<(K, V)>, r: int) -> bool {
    forall|i: int| 0 <= i < e.len() ==> #[trigger] e[i].0.rank() < r
}

/// Every pair has a key of rank at least `r`.
pub open spec fn all_at_least<K: Key, V>(e: Seq<(K, V)>, r: int) -> bool {
    forall|i: int| 0 <= i < e.len() ==> #[trigger] e[i].0.rank() >= r
}

/// Some pair has the key `k`.
pub open spec fn has_key<K: Key, V>(e: Seq<(K, V)>, k: K) -> bool {
    exists|i: int| 0 <= i < e.len() && #[trigger] e[i].0 == k
}

/// The number of pairs whose key ranks below `r`.
pub open spec fn count_below<K: Key, V>(e: Seq<(K, V)>, r: int) -> nat
    decreases e.len(),
{
    if e.len() == 0 {
        0
    } else {
        count_below(e.drop_last(), r) + if e.last().0.rank() < r {
            1nat
        } else {
            0nat
        }
    }
}

/// The number of keys whose rank is at most `r`.
pub open spec fn count_keys_at_most<K: Key>(s: Seq<K>, r: int) -> nat
    decreases s.len(),
{
    if s.len() == 0 {
        0
    } else {
        count_keys_at_most(s.drop_last(), r) + if s.last().rank() <= r {
            1nat
        } else {
            0nat
        }
    }
}

/// `e` with the pair `(k, v)` placed after every pair of smaller key.
pub open spec fn insert_sorted<K: Key, V>(e: Seq<(K, V)>, k: K, v: V) -> Seq<(K, V)> {
    e.insert(count_below(e, k.rank()) as int, (k, v))
}

/// The value that the last pair with key `k` holds.
pub open spec fn lookup<K: Key, V>(e: Seq<(K, V)>, k: K) -> Option<V>
    decreases e.len(),
{
    if e.len() == 0 {
        None
    } else if e.last().0 == k {
        Some(e.last().1)
    } else {
        lookup(e.drop_last(), k)
    }
}

/// The values of the pairs, in order.
pub open spec fn values_of<K, V>(e: Seq<(K, V)>) -> Seq<V> {
    e.map_values(|p: (K, V)| p.1)
}

/// A sorted sequence has distinct keys.
pub proof fn lemma_sorted_distinct<K: Key, V>(e: Seq<(K, V)>)
    requires
        sorted_pairs(e),
    ensures
        distinct_keys(e),
{
}

pub proof fn lemma_no_key_rank<K: Key, V>(e: Seq<(K, V)>, k: K)
    requires
        !has_key(e, k),
    ensures
        forall|i: int| 0 <= i < e.len() ==> #[trigger] e[i].0.rank() != k.rank(),
{
    assert forall|i: int| 0 <= i < e.len() implies #[trigger] e[i].0.rank() != k.rank() by {
        if e[i].0.rank() == k.rank() {
            K::lemma_rank_injective(e[i].0, k);
            assert(e[i].0 == k);
        }
    }
}

pub proof fn lemma_count_below_exact<K: Key, V>(e: Seq<(K, V)>, i: int, r: int)
    requires
        0 <= i <= e.len(),
        forall|j: int| 0 <= j < i ==> #[trigger] e[j].0.rank() < r,
        forall|j: int| i <= j < e.len() ==> #[trigger] e[j].0.rank() >= r,
    ensures
        count_below(e, r) == i,
    decreases e.len(),
{
    if e.len() > 0 {
        let d = e.drop_last();
        if i == e.len() {
            assert(e.last().0.rank() < r) by {
                assert(e[e.len() - 1].0.rank() < r);
            }
            assert forall|j: int| 0 <= j < i - 1 implies #[trigger] d[j].0.rank() < r by {
                assert(d[j] == e[j]);
            }
            lemma_count_below_exact(d, i - 1, r);
        } else {
            assert(e.last().0.rank() >= r) by {
                assert(e[e.len() - 1].0.rank() >= r);
            }
            assert forall|j: int| 0 <= j < i implies #[trigger] d[j].0.rank() < r by {
                assert(d[j] == e[j]);
            }
            assert forall|j: int| i <= j < d.len() implies #[trigger] d[j].0.rank() >= r by {
                assert(d[j] == e[j]);
            }
            lemma_count_below_exact(d, i, r);
        }
    }
}

pub proof fn lemma_count_keys_at_most_exact<K: Key>(s: Seq<K>, i: int, r: int)
    requires
        0 <= i <= s.len(),
        forall|j: int| 0 <= j < i ==> #[trigger] s[j].rank() <= r,
        forall|j: int| i <= j < s.len() ==> #[trigger] s[j].rank() > r,
    ensures
        count_keys_at_most(s, r) == i,
    decreases s.len(),
{
    if s.len() > 0 {
        let d = s.drop_last();
        if i == s.len() {
            assert(s.last().rank() <= r) by {
                assert(s[s.len() - 1].rank() <= r);
            }
            assert forall|j: int| 0 <= j < i - 1 implies #[trigger] d[j].rank() <= r by {
                assert(d[j] == s[j]);
            }
            lemma_count_keys_at_most_exact(d, i - 1, r);
        } else {
            assert(s.last().rank() > r) by {
                assert(s[s.len() - 1].rank() > r);
            }
            assert forall|j: int| 0 <= j < i implies #[trigger] d[j].rank() <= r by {
                assert(d[j] == s[j]);
            }
            assert forall|j: int| i <= j < d.len() implies #[trigger] d[j].rank() > r by {
                assert(d[j] == s[j]);
            }
            lemma_count_keys_at_most_exact(d, i, r);
        }
    }
}

pub proof fn lemma_count_below_bounded<K: Key, V>(e: Seq<(K, V)>, r: int)
    ensures
        count_below(e, r) <= e.len(),
    decreases e.len(),
{
    if e.len() > 0 {
        lemma_count_below_bounded(e.drop_last(), r);
    }
}

pub proof fn lemma_count_below_concat<K: Key, V>(a: Seq<(K, V)>, b: Seq<(K, V)>, r: int)
    ensures
        count_below(a + b, r) == count_below(a, r) + count_below(b, r),
    decreases b.len(),
{
    if b.len() == 0 {
        assert(a + b =~= a);
    } else {
        assert((a + b).drop_last() =~= a + b.drop_last());
        assert((a + b).last() == b.last());
        lemma_count_below_concat(a, b.drop_last(), r);
    }
}

pub proof fn lemma_count_below_all_below<K: Key, V>(e: Seq<(K, V)>, r: int)
    requires
        all_below(e, r),
    ensures
        count_below(e, r) == e.len(),
{
    lemma_count_below_exact(e, e.len() as int, r);
}

pub proof fn lemma_count_below_all_at_least<K: Key, V>(e: Seq<(K, V)>, r: int)
    requires
        all_at_least(e, r),
    ensures
        count_below(e, r) == 0,
{
    lemma_count_below_exact(e, 0, r);
}

/// In a sorted sequence, the pairs below index `i` rank below `r` and the
/// others above it: the pair then goes at `i`, and the result is sorted.
pub proof fn lemma_insert_sorted_at<K: Key, V>(e: Seq<(K, V)>, i: int, k: K, v: V)
    requires
        sorted_pairs(e),
        0 <= i <= e.len(),
        forall|j: int| 0 <= j < i ==> #[trigger] e[j].0.rank() < k.rank(),
        forall|j: int| i <= j < e.len() ==> #[trigger] e[j].0.rank() > k.rank(),
    ensures
        insert_sorted(e, k, v) == e.insert(i, (k, v)),
        sorted_pairs(e.insert(i, (k, v))),
{
    lemma_count_below_exact(e, i, k.rank());
    let n = e.insert(i, (k, v));
    assert forall|a: int, b: int| #![trigger n[a], n[b]] 0 <= a < b < n.len() implies n[a].0.rank()
        < n[b].0.rank() by {
        if a < i && b < i {
            assert(n[a] == e[a] && n[b] == e[b]);
        } else if a < i && b == i {
            assert(n[a] == e[a]);
        } else if a < i {
            assert(n[a] == e[a] && n[b] == e[b - 1]);
        } else if a == i {
            assert(n[b] == e[b - 1]);
        } else {
            assert(n[a] == e[a - 1] && n[b] == e[b - 1]);
        }
    }
}

/// Inserting into a sorted sequence that lacks the key keeps it sorted.
pub proof fn lemma_insert_sorted_sorted<K: Key, V>(e: Seq<(K, V)>, k: K, v: V)
    requires
        sorted_pairs(e),
        !has_key(e, k),
    ensures
        sorted_pairs(insert_sorted(e, k, v)),
        insert_sorted(e, k, v).len() == e.len() + 1,
{
    lemma_no_key_rank(e, k);
    let i = choose_insert_index(e, k.rank());
    lemma_choose_insert_index(e, k.rank());
    lemma_insert_sorted_at(e, i, k, v);
}

/// The index of the first pair whose key ranks at least `r`.
pub open spec fn choose_insert_index<K: Key, V>(e: Seq<(K, V)>, r: int) -> int
    decreases e.len(),
{
    if e.len() == 0 {
        0
    } else if e.last().0.rank() < r {
        e.len() as int
    } else {
        choose_insert_index(e.drop_last(), r)
    }
}

pub proof fn lemma_choose_insert_index<K: Key, V>(e: Seq<(K, V)>, r: int)
    requires
        sorted_pairs(e),
    ensures
        0 <= choose_insert_index(e, r) <= e.len(),
        forall|j: int| 0 <= j < choose_insert_index(e, r) ==> #[trigger] e[j].0.rank() < r,
        forall|j: int| choose_insert_index(e, r) <= j < e.len() ==> #[trigger] e[j].0.rank() >= r,
    decreases e.len(),
{
    if e.len() > 0 {
        let d = e.drop_last();
        let last = e.len() - 1;
        if e.last().0.rank() < r {
            assert forall|j: int| 0 <= j < e.len() implies #[trigger] e[j].0.rank() < r by {
                if j < last {
                    assert(e[j].0.rank() < e[last].0.rank());
                }
            }
        } else {
            lemma_choose_insert_index(d, r);
            let i = choose_insert_index(d, r);
            assert forall|j: int| 0 <= j < i implies #[trigger] e[j].0.rank() < r by {
                assert(d[j] == e[j]);
            }
            assert forall|j: int| i <= j < e.len() implies #[trigger] e[j].0.rank() >= r by {
                if j < last {
                    assert(d[j] == e[j]);
                }
            }
        }
    }
}

pub proof fn lemma_lookup_concat<K: Key, V>(a: Seq<(K, V)>, b: Seq<(K, V)>, k: K)
    ensures
        lookup(a + b, k) == if lookup(b, k) is Some {
            lookup(b, k)
        } else {
            lookup(a, k)
        },
    decreases b.len(),
{
    if b.len() == 0 {
        assert(a + b =~= a);
    } else {
        assert((a + b).drop_last() =~= a + b.drop_last());
        assert((a + b).last() == b.last());
        lemma_lookup_concat(a, b.drop_last(), k);
    }
}

pub proof fn lemma_lookup_absent<K: Key, V>(e: Seq<(K, V)>, k: K)
    requires
        !has_key(e, k),
    ensures
        lookup(e, k) is None,
    decreases e.len(),
{
    if e.len() > 0 {
        let d = e.drop_last();
        assert(e[e.len() - 1].0 != k);
        assert(!has_key(d, k)) by {
            if has_key(d, k) {
                let j = choose|j: int| 0 <= j < d.len() && #[trigger] d[j].0 == k;
                assert(e[j] == d[j]);
            }
        }
        lemma_lookup_absent(d, k);
    }
}

pub proof fn lemma_lookup_rank_absent<K: Key, V>(e: Seq<(K, V)>, k: K)
    requires
        forall|i: int| 0 <= i < e.len() ==> #[trigger] e[i].0.rank() != k.rank(),
    ensures
        lookup(e, k) is None,
        !has_key(e, k),
{
    if has_key(e, k) {
        let j = choose|j: int| 0 <= j < e.len() && #[trigger] e[j].0 == k;
        assert(e[j].0.rank() != k.rank());
    }
    lemma_lookup_absent(e, k);
}

pub proof fn lemma_lookup_found<K: Key, V>(e: Seq<(K, V)>, i: int, k: K)
    requires
        sorted_pairs(e),
        0 <= i < e.len(),
        e[i].0 == k,
    ensures
        lookup(e, k) == Some(e[i].1),
    decreases e.len(),
{
    let last = e.len() - 1;
    if i < last {
        assert(e[i].0.rank() < e[last].0.rank());
        let d = e.drop_last();
        assert(d[i] == e[i]);
        lemma_lookup_found(d, i, k);
    }
}

/// What a lookup gives back after an insertion into a sorted sequence that
/// lacked the key.
pub proof fn lemma_lookup_insert_sorted<K: Key, V>(e: Seq<(K, V)>, k: K, v: V, k2: K)
    requires
        sorted_pairs(e),
        !has_key(e, k),
    ensures
        lookup(insert_sorted(e, k, v), k2) == if k2 == k {
            Some(v)
        } else {
            lookup(e, k2)
        },
{
    let p = count_below(e, k.rank()) as int;
    lemma_insert_sorted_sorted(e, k, v);
    lemma_no_key_rank(e, k);
    lemma_choose_insert_index(e, k.rank());
    lemma_count_below_exact(e, choose_insert_index(e, k.rank()), k.rank());
    let n = insert_sorted(e, k, v);
    if k2 == k {
        assert(n[p] == (k, v));
        lemma_lookup_found(n, p, k);
    } else {
        let a = e.subrange(0, p);
        let b = e.subrange(p, e.len() as int);
        assert(n =~= a + seq![(k, v)] + b);
        assert(e =~= a + b);
        lemma_lookup_concat(a + seq![(k, v)], b, k2);
        lemma_lookup_concat(a, seq![(k, v)], k2);
        lemma_lookup_concat(a, b, k2);
        let s1 = seq![(k, v)];
        assert(s1.last() == (k, v));
        assert(s1.drop_last() =~= Seq::<(K, V)>::empty());
        assert(lookup(s1, k2) == lookup(s1.drop_last(), k2));
        assert(lookup(s1, k2) is None);
    }
}

pub proof fn lemma_has_key_insert_sorted<K: Key, V>(e: Seq<(K, V)>, k: K, v: V, k2: K)
    ensures
        has_key(insert_sorted(e, k, v), k2) <==> (has_key(e, k2) || k2 == k),
{
    let p = count_below(e, k.rank()) as int;
    lemma_count_below_bounded(e, k.rank());
    let n = insert_sorted(e, k, v);
    if has_key(e, k2) {
        let j = choose|j: int| 0 <= j < e.len() && #[trigger] e[j].0 == k2;
        if j < p {
            assert(n[j] == e[j]);
        } else {
            assert(n[j + 1] == e[j]);
        }
    }
    if k2 == k {
        assert(n[p].0 == k);
    }
    if has_key(n, k2) {
        let j = choose|j: int| 0 <= j < n.len() && #[trigger] n[j].0 == k2;
        if j < p {
            assert(n[j] == e[j]);
        } else if j > p {
            assert(n[j] == e[j - 1]);
        }
    }
}

/// In sorted keys, the keys at most `r` come first.
pub proof fn lemma_count_keys_at_most_split<K: Key>(s: Seq<K>, r: int)
    requires
        sorted_keys(s),
    ensures
        count_keys_at_most(s, r) <= s.len(),
        forall|j: int| 0 <= j < count_keys_at_most(s, r) ==> #[trigger] s[j].rank() <= r,
        forall|j: int| count_keys_at_most(s, r) <= j < s.len() ==> #[trigger] s[j].rank() > r,
    decreases s.len(),
{
    if s.len() > 0 {
        let d = s.drop_last();
        let last = s.len() - 1;
        assert forall|i: int, j: int| #![trigger d[i], d[j]] 0 <= i < j < d.len() implies d[i].rank()
            < d[j].rank() by {
            assert(d[i] == s[i] && d[j] == s[j]);
        }
        lemma_count_keys_at_most_split(d, r);
        let c = count_keys_at_most(d, r);
        if s.last().rank() <= r {
            assert forall|j: int| 0 <= j < s.len() implies #[trigger] s[j].rank() <= r by {
                if j < last {
                    assert(s[j].rank() < s[last].rank());
                }
            }
            assert(c == d.len()) by {
                if c < d.len() {
                    assert(d[c as int].rank() > r);
                    assert(s[c as int].rank() < s[last].rank());
                }
            }
        } else {
            assert forall|j: int| 0 <= j < c implies #[trigger] s[j].rank() <= r by {
                assert(d[j] == s[j]);
            }
            assert forall|j: int| c <= j < s.len() implies #[trigger] s[j].rank() > r by {
                if j < last {
                    assert(d[j] == s[j]);
                }
            }
        }
    }
}

} // verus!
