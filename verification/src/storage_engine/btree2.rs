//! An in-memory B+ tree over ordered keys: internal nodes hold separator
//! keys, leaves hold the key/value pairs in key order.
use vstd::prelude::*;
use crate::ordered::{
    Key, KeyOrder, sorted_pairs, sorted_keys, all_below, all_at_least, has_key, count_below,
    count_keys_at_most, insert_sorted, lookup, values_of, lemma_count_below_concat,
    lemma_count_below_all_below, lemma_count_below_all_at_least, lemma_count_below_bounded,
    lemma_lookup_rank_absent, lemma_lookup_concat, lemma_lookup_found, lemma_insert_sorted_at,
    lemma_insert_sorted_sorted, lemma_no_key_rank, lemma_count_keys_at_most_exact,
    lemma_has_key_insert_sorted, lemma_lookup_insert_sorted, keys_text, keys_of_pairs, write_keys,
    first_line, lemma_prefix_extend,
    write_pair_keys,
};

verus! {

/// The most keys that a node holds before it splits.
pub const MAX_KEYS: usize = 1000;

pub enum NodeRef<K, V> {
    Internal(InternalNode<K, V>),
    Leaf(LeafNode<K, V>),
}

/// A node that routes a key to one of its children: child `i` holds the
/// keys from `keys[i - 1]` (inclusive) to `keys[i]` (exclusive).
pub struct InternalNode<K, V> {
    keys: Vec<K>,
    children: Vec<NodeRef<K, V>>,
}

/// A node that holds key/value pairs sorted by key.
pub struct LeafNode<K, V> {
    key_val_pairs: Vec<(K, V)>,
}

/// The pairs of the subtrees `cs`, from the first subtree to the last.
pub closed spec fn flatten_children<K, V>(cs: Seq<NodeRef<K, V>>) -> Seq<(K, V)>
    decreases cs,
{
    if cs.len() == 0 {
        Seq::empty()
    } else {
        flatten_children(cs.drop_last()) + cs.last().entries()
    }
}

impl<K, V> NodeRef<K, V> {
    /// The pairs of this subtree, in key order.
    pub closed spec fn entries(self) -> Seq<(K, V)>
        decreases self,
    {
        match self {
            NodeRef::Internal(n) => flatten_children(n.children@),
            NodeRef::Leaf(l) => l.key_val_pairs@,
        }
    }

    /// The number of internal levels above the leaves of this subtree.
    pub closed spec fn depth(self) -> nat
        decreases self,
    {
        match self {
            NodeRef::Internal(n) => if n.children@.len() > 0 {
                n.children@[0].depth() + 1
            } else {
                1
            },
            NodeRef::Leaf(_) => 0,
        }
    }
}

impl<K: Key, V> NodeRef<K, V> {
    /// The subtree is a well-formed B+ tree node.
    pub closed spec fn wf(self) -> bool
        decreases self,
    {
        match self {
            NodeRef::Internal(n) => n.wf(),
            NodeRef::Leaf(l) => l.wf(),
        }
    }

    /// A search for `k` goes down to a leaf: on its way, `k` is never below
    /// the first separator key of an internal node.
    pub closed spec fn reaches(self, k: K) -> bool
        decreases self,
    {
        match self {
            NodeRef::Internal(n) => n.reaches(k),
            NodeRef::Leaf(_) => true,
        }
    }

    /// Inserting `k` splits no internal node: where the leaf that receives
    /// `k` is full, its parent has room for one more key.
    pub closed spec fn insert_safe(self, k: K) -> bool
        decreases self,
    {
        match self {
            NodeRef::Internal(n) => n.insert_safe(k),
            NodeRef::Leaf(_) => true,
        }
    }
}

impl<K, V> NodeRef<K, V> {
    /// Every leaf of the subtree lies `d` levels below its root.
    pub closed spec fn leaves_at(self, d: nat) -> bool
        decreases self,
    {
        match self {
            NodeRef::Internal(n) => d > 0 && forall|i: int|
                0 <= i < n.children@.len() ==> (#[trigger] n.children@[i]).leaves_at((d - 1) as nat),
            NodeRef::Leaf(_) => d == 0,
        }
    }
}

/// In a well-formed subtree every leaf lies as many levels down as the
/// subtree is deep.
proof fn lemma_leaves_at<K: Key, V>(c: NodeRef<K, V>)
    requires
        c.wf(),
    ensures
        c.leaves_at(c.depth()),
    decreases c,
{
    if let NodeRef::Internal(n) = c {
        assert(n.wf());
        assert forall|i: int| 0 <= i < n.children@.len() implies (#[trigger] n.children@[i]).leaves_at(
            (c.depth() - 1) as nat,
        ) by {
            lemma_leaves_at(n.children@[i]);
        }
    }
}

impl<K: Key, V> NodeRef<K, V> {
    /// The node's keys in parentheses, each followed by a comma.
    pub closed spec fn label(self) -> Seq<char> {
        match self {
            NodeRef::Internal(n) => seq!['('] + keys_text(n.keys@) + seq![')'],
            NodeRef::Leaf(l) => seq!['('] + keys_text(keys_of_pairs(l.key_val_pairs@)) + seq![')'],
        }
    }

    /// The labels of the nodes `d` levels below this one, from left to
    /// right, each followed by `" | "`.
    pub closed spec fn level_text(self, d: nat) -> Seq<char>
        decreases self,
    {
        if d == 0 {
            self.label() + seq![' ', '|', ' ']
        } else {
            match self {
                NodeRef::Internal(n) => children_level_text(n.children@, (d - 1) as nat),
                NodeRef::Leaf(_) => Seq::empty(),
            }
        }
    }
}

impl<K, V> NodeRef<K, V> {
    /// The node's keys: the separators of an internal node, the keys of the
    /// pairs of a leaf.
    pub closed spec fn node_keys(self) -> Seq<K> {
        match self {
            NodeRef::Internal(n) => n.keys@,
            NodeRef::Leaf(l) => keys_of_pairs(l.key_val_pairs@),
        }
    }
}

/// A node is drawn as all its keys, in order, in parentheses, each in
/// decimal with a comma; in a well-formed node they increase.
pub proof fn lemma_label_lists_keys<K: Key, V>(n: NodeRef<K, V>)
    ensures
        n.label() == seq!['('] + keys_text(n.node_keys()) + seq![')'],
        n.wf() ==> sorted_keys(n.node_keys()),
        n is Leaf ==> n.node_keys() == keys_of_pairs(n.entries()),
        n matches NodeRef::Internal(i) ==> n.node_keys() == i.separators(),
{
    if n.wf() {
        match n {
            NodeRef::Internal(i) => {
                assert(i.wf());
            },
            NodeRef::Leaf(l) => {
                assert(l.wf());
                let ks = n.node_keys();
                let ps = l.key_val_pairs@;
                assert forall|a: int, b: int| #![trigger ks[a], ks[b]] 0 <= a < b < ks.len() implies ks[a].rank()
                    < ks[b].rank() by {
                    assert(ks[a] == ps[a].0 && ks[b] == ps[b].0);
                }
            },
        }
    }
}

/// The nodes below the subtrees `a + b` are drawn as those below `a`, then
/// those below `b`.
pub proof fn lemma_children_level_concat<K: Key, V>(
    a: Seq<NodeRef<K, V>>,
    b: Seq<NodeRef<K, V>>,
    d: nat,
)
    ensures
        children_level_text(a + b, d) == children_level_text(a, d) + children_level_text(b, d),
    decreases b.len(),
{
    if b.len() == 0 {
        assert(a + b =~= a);
        assert(children_level_text(a, d) + children_level_text(b, d) =~= children_level_text(a, d));
    } else {
        assert((a + b).drop_last() =~= a + b.drop_last());
        assert((a + b).last() == b.last());
        lemma_children_level_concat(a, b.drop_last(), d);
        assert(children_level_text(a + b, d) =~= children_level_text(a, d) + children_level_text(b, d));
    }
}

/// The subtrees are drawn from left to right: those before the `i`-th, then
/// the `i`-th, then those after it.
pub proof fn lemma_children_drawn_in_order<K: Key, V>(cs: Seq<NodeRef<K, V>>, i: int, d: nat)
    requires
        0 <= i < cs.len(),
    ensures
        children_level_text(cs, d) == children_level_text(cs.take(i), d) + cs[i].level_text(d)
            + children_level_text(cs.skip(i + 1), d),
{
    let s1 = seq![cs[i]];
    assert(cs =~= cs.take(i) + s1 + cs.skip(i + 1));
    lemma_children_level_concat(cs.take(i) + s1, cs.skip(i + 1), d);
    lemma_children_level_concat(cs.take(i), s1, d);
    assert(s1.drop_last() =~= Seq::<NodeRef<K, V>>::empty());
    assert(s1.drop_last() == Seq::<NodeRef<K, V>>::empty());
    assert(s1.last() == cs[i]);
    assert(children_level_text(Seq::<NodeRef<K, V>>::empty(), d) == Seq::<char>::empty());
    assert(children_level_text(s1, d) == children_level_text(s1.drop_last(), d) + s1.last().level_text(d));
    assert(children_level_text(s1, d) =~= cs[i].level_text(d));
}

/// The labels of the nodes `d` levels below the subtrees `cs`, from the
/// first subtree to the last.
pub closed spec fn children_level_text<K: Key, V>(cs: Seq<NodeRef<K, V>>, d: nat) -> Seq<char>
    decreases cs,
{
    if cs.len() == 0 {
        Seq::empty()
    } else {
        children_level_text(cs.drop_last(), d) + cs.last().level_text(d)
    }
}

/// Appends the labels of the nodes `d` levels below `node`.
fn write_level<K: Key, V>(node: &NodeRef<K, V>, d: usize, out: &mut String)
    ensures
        final(out)@ == old(out)@ + node.level_text(d as nat),
    decreases d,
{
    if d == 0 {
        match node {
            NodeRef::Internal(n) => {
                out.append("(");
                write_keys(&n.keys, out);
                out.append(")");
            },
            NodeRef::Leaf(l) => {
                out.append("(");
                write_pair_keys(&l.key_val_pairs, out);
                out.append(")");
            },
        }
        out.append(" | ");
        proof {
            reveal_strlit("(");
            reveal_strlit(")");
            reveal_strlit(" | ");
        }
    } else {
        match node {
            NodeRef::Internal(n) => {
                let ghost o = out@;
                let ghost cs = n.children@;
                let mut i: usize = 0;
                proof {
                    assert(cs.take(0) =~= Seq::<NodeRef<K, V>>::empty());
                }
                while i < n.children.len()
                    invariant
                        cs == n.children@,
                        i <= cs.len(),
                        d > 0,
                        out@ == o + children_level_text(cs.take(i as int), (d - 1) as nat),
                    decreases cs.len() - i,
                {
                    write_level(&n.children[i], d - 1, out);
                    proof {
                        assert(cs.take(i + 1).drop_last() =~= cs.take(i as int));
                        assert(cs.take(i + 1).last() == cs[i as int]);
                    }
                    i += 1;
                }
                proof {
                    assert(cs.take(i as int) =~= cs);
                }
            },
            NodeRef::Leaf(_) => {
                proof {
                    assert(out@ =~= out@ + Seq::<char>::empty());
                }
            },
        }
    }
}

impl<K, V> InternalNode<K, V> {
    pub closed spec fn entries(self) -> Seq<(K, V)> {
        flatten_children(self.children@)
    }

    /// The separator keys, in order.
    pub closed spec fn separators(self) -> Seq<K> {
        self.keys@
    }

    /// The children, in order.
    pub closed spec fn child_nodes(self) -> Seq<NodeRef<K, V>> {
        self.children@
    }

    pub closed spec fn depth(self) -> nat {
        if self.children@.len() > 0 {
            self.children@[0].depth() + 1
        } else {
            1
        }
    }
}

impl<K: Key, V> InternalNode<K, V> {
    /// The index of the child that holds the keys of `k`'s rank.
    pub closed spec fn route(self, k: K) -> int {
        count_keys_at_most(self.keys@, k.rank()) as int
    }

    pub closed spec fn wf(self) -> bool
        decreases self,
    {
        &&& self.children@.len() == self.keys@.len() + 1
        &&& self.keys@.len() <= MAX_KEYS
        &&& sorted_keys(self.keys@)
        &&& sorted_pairs(flatten_children(self.children@))
        &&& forall|i: int| 0 <= i < self.children@.len() ==> (#[trigger] self.children@[i]).wf()
        &&& forall|i: int|
            0 <= i < self.children@.len() ==> (#[trigger] self.children@[i]).depth()
                == self.children@[0].depth()
        &&& forall|i: int|
            0 <= i < self.children@.len() ==> (#[trigger] self.children@[i]).entries().len() > 0
        &&& forall|i: int|
            0 <= i < self.keys@.len() ==> all_below(
                (#[trigger] self.children@[i]).entries(),
                self.keys@[i].rank(),
            )
        &&& forall|i: int|
            0 <= i < self.keys@.len() ==> all_at_least(
                self.children@[i + 1].entries(),
                (#[trigger] self.keys@[i]).rank(),
            )
    }

    /// Everything `wf` asks of the node but the bound on its number of keys.
    pub closed spec fn node_ok(self) -> bool {
        &&& self.children@.len() == self.keys@.len() + 1
        &&& sorted_keys(self.keys@)
        &&& sorted_pairs(flatten_children(self.children@))
        &&& forall|i: int| 0 <= i < self.children@.len() ==> (#[trigger] self.children@[i]).wf()
        &&& forall|i: int|
            0 <= i < self.children@.len() ==> (#[trigger] self.children@[i]).depth()
                == self.children@[0].depth()
        &&& forall|i: int|
            0 <= i < self.children@.len() ==> (#[trigger] self.children@[i]).entries().len() > 0
        &&& forall|i: int|
            0 <= i < self.keys@.len() ==> all_below(
                (#[trigger] self.children@[i]).entries(),
                self.keys@[i].rank(),
            )
        &&& forall|i: int|
            0 <= i < self.keys@.len() ==> all_at_least(
                self.children@[i + 1].entries(),
                (#[trigger] self.keys@[i]).rank(),
            )
    }

    pub closed spec fn reaches(self, k: K) -> bool
        decreases self,
    {
        let i = self.route(k);
        if 1 <= i < self.children@.len() {
            self.children@[i].reaches(k)
        } else {
            false
        }
    }

    pub closed spec fn insert_safe(self, k: K) -> bool
        decreases self,
    {
        let i = self.route(k);
        if 0 <= i < self.children@.len() {
            &&& self.children@[i].insert_safe(k)
            &&& (self.children@[i] is Leaf && self.children@[i].entries().len() >= MAX_KEYS)
                ==> self.keys@.len() < MAX_KEYS
        } else {
            false
        }
    }
}

impl<K, V> LeafNode<K, V> {
    pub closed spec fn entries(self) -> Seq<(K, V)> {
        self.key_val_pairs@
    }
}

impl<K: Key, V> LeafNode<K, V> {
    pub closed spec fn wf(self) -> bool {
        &&& self.key_val_pairs@.len() <= MAX_KEYS
        &&& sorted_pairs(self.key_val_pairs@)
    }
}

// ---------------------------------------------------------------------------
// Lemmas on the pairs of a sequence of subtrees.

proof fn lemma_flatten_concat<K, V>(a: Seq<NodeRef<K, V>>, b: Seq<NodeRef<K, V>>)
    ensures
        flatten_children(a + b) == flatten_children(a) + flatten_children(b),
    decreases b.len(),
{
    if b.len() == 0 {
        assert(a + b =~= a);
        assert(flatten_children(b) =~= Seq::<(K, V)>::empty());
        assert(flatten_children(a) + flatten_children(b) =~= flatten_children(a));
    } else {
        assert((a + b).drop_last() =~= a + b.drop_last());
        assert((a + b).last() == b.last());
        lemma_flatten_concat(a, b.drop_last());
        assert(flatten_children(a + b) =~= flatten_children(a) + flatten_children(b));
    }
}

proof fn lemma_flatten_single<K, V>(c: NodeRef<K, V>)
    ensures
        flatten_children(seq![c]) == c.entries(),
{
    let s = seq![c];
    assert(s.drop_last() =~= Seq::<NodeRef<K, V>>::empty());
    assert(s.last() == c);
    assert(flatten_children(s.drop_last()) =~= Seq::<(K, V)>::empty());
    assert(flatten_children(s) =~= c.entries());
}

/// The pairs of `cs`, split around the subtree at `i`.
proof fn lemma_flatten_split<K, V>(cs: Seq<NodeRef<K, V>>, i: int)
    requires
        0 <= i < cs.len(),
    ensures
        flatten_children(cs) == flatten_children(cs.take(i)) + cs[i].entries() + flatten_children(
            cs.skip(i + 1),
        ),
{
    assert(cs =~= cs.take(i) + seq![cs[i]] + cs.skip(i + 1));
    lemma_flatten_concat(cs.take(i) + seq![cs[i]], cs.skip(i + 1));
    lemma_flatten_concat(cs.take(i), seq![cs[i]]);
    lemma_flatten_single(cs[i]);
}

proof fn lemma_flatten_all_below<K: Key, V>(cs: Seq<NodeRef<K, V>>, r: int)
    requires
        forall|i: int| 0 <= i < cs.len() ==> all_below(#[trigger] cs[i].entries(), r),
    ensures
        all_below(flatten_children(cs), r),
    decreases cs.len(),
{
    if cs.len() > 0 {
        let d = cs.drop_last();
        assert forall|i: int| 0 <= i < d.len() implies all_below(#[trigger] d[i].entries(), r) by {
            assert(d[i] == cs[i]);
        }
        lemma_flatten_all_below(d, r);
        assert(all_below(cs[cs.len() - 1].entries(), r));
        let f = flatten_children(cs);
        let a = flatten_children(d);
        let b = cs.last().entries();
        assert(f == a + b);
        assert forall|j: int| 0 <= j < f.len() implies #[trigger] f[j].0.rank() < r by {
            if j < a.len() {
                assert(f[j] == a[j]);
            } else {
                assert(f[j] == b[j - a.len()]);
            }
        }
    }
}

proof fn lemma_flatten_all_at_least<K: Key, V>(cs: Seq<NodeRef<K, V>>, r: int)
    requires
        forall|i: int| 0 <= i < cs.len() ==> all_at_least(#[trigger] cs[i].entries(), r),
    ensures
        all_at_least(flatten_children(cs), r),
    decreases cs.len(),
{
    if cs.len() > 0 {
        let d = cs.drop_last();
        assert forall|i: int| 0 <= i < d.len() implies all_at_least(#[trigger] d[i].entries(), r) by {
            assert(d[i] == cs[i]);
        }
        lemma_flatten_all_at_least(d, r);
        assert(all_at_least(cs[cs.len() - 1].entries(), r));
        let f = flatten_children(cs);
        let a = flatten_children(d);
        let b = cs.last().entries();
        assert(f == a + b);
        assert forall|j: int| 0 <= j < f.len() implies #[trigger] f[j].0.rank() >= r by {
            if j < a.len() {
                assert(f[j] == a[j]);
            } else {
                assert(f[j] == b[j - a.len()]);
            }
        }
    }
}

pub(crate) proof fn lemma_has_key_middle<K: Key, V>(a: Seq<(K, V)>, c: Seq<(K, V)>, b: Seq<(K, V)>, k: K)
    requires
        !has_key(a + c + b, k),
    ensures
        !has_key(c, k),
{
    if has_key(c, k) {
        let j = choose|j: int| 0 <= j < c.len() && #[trigger] c[j].0 == k;
        assert((a + c + b)[a.len() + j] == c[j]);
    }
}

/// Inserting into the middle part of a concatenation whose other parts lie
/// below and above the key.
proof fn lemma_insert_sorted_middle<K: Key, V>(
    a: Seq<(K, V)>,
    c: Seq<(K, V)>,
    b: Seq<(K, V)>,
    k: K,
    v: V,
)
    requires
        all_below(a, k.rank()),
        all_at_least(b, k.rank() + 1),
    ensures
        insert_sorted(a + c + b, k, v) == a + insert_sorted(c, k, v) + b,
{
    lemma_count_below_concat(a + c, b, k.rank());
    lemma_count_below_concat(a, c, k.rank());
    lemma_count_below_all_below(a, k.rank());
    lemma_count_below_all_at_least(b, k.rank());
    lemma_count_below_bounded(c, k.rank());
    assert(insert_sorted(a + c + b, k, v) =~= a + insert_sorted(c, k, v) + b);
}

proof fn lemma_insert_sorted_below<K: Key, V>(e: Seq<(K, V)>, k: K, v: V, r: int)
    requires
        all_below(e, r),
        k.rank() < r,
    ensures
        all_below(insert_sorted(e, k, v), r),
{
    lemma_count_below_bounded(e, k.rank());
    let p = count_below(e, k.rank()) as int;
    let n = insert_sorted(e, k, v);
    assert forall|j: int| 0 <= j < n.len() implies #[trigger] n[j].0.rank() < r by {
        if j < p {
            assert(n[j] == e[j]);
        } else if j > p {
            assert(n[j] == e[j - 1]);
        }
    }
}

proof fn lemma_insert_sorted_at_least<K: Key, V>(e: Seq<(K, V)>, k: K, v: V, r: int)
    requires
        all_at_least(e, r),
        k.rank() >= r,
    ensures
        all_at_least(insert_sorted(e, k, v), r),
{
    lemma_count_below_bounded(e, k.rank());
    let p = count_below(e, k.rank()) as int;
    let n = insert_sorted(e, k, v);
    assert forall|j: int| 0 <= j < n.len() implies #[trigger] n[j].0.rank() >= r by {
        if j < p {
            assert(n[j] == e[j]);
        } else if j > p {
            assert(n[j] == e[j - 1]);
        }
    }
}

/// A lookup in a concatenation finds only what its middle part holds, when
/// the other parts hold no key of `k`'s rank.
proof fn lemma_lookup_middle<K: Key, V>(a: Seq<(K, V)>, c: Seq<(K, V)>, b: Seq<(K, V)>, k: K)
    requires
        forall|i: int| 0 <= i < a.len() ==> #[trigger] a[i].0.rank() != k.rank(),
        forall|i: int| 0 <= i < b.len() ==> #[trigger] b[i].0.rank() != k.rank(),
    ensures
        lookup(a + c + b, k) == lookup(c, k),
{
    lemma_lookup_rank_absent(a, k);
    lemma_lookup_rank_absent(b, k);
    lemma_lookup_concat(a + c, b, k);
    lemma_lookup_concat(a, c, k);
}

// ---------------------------------------------------------------------------
// Binary search.

/// Where `key` stands among the sorted `keys`: `Ok` with its index, or `Err`
/// with the index at which it would go.
fn find_key<K: Key>(keys: &Vec<K>, key: &K) -> (res: Result<usize, usize>)
    requires
        sorted_keys(keys@),
    ensures
        match res {
            Ok(i) => i < keys@.len() && keys@[i as int].rank() == key.rank(),
            Err(i) => {
                &&& i <= keys@.len()
                &&& forall|j: int| 0 <= j < i ==> #[trigger] keys@[j].rank() < key.rank()
                &&& forall|j: int| i <= j < keys@.len() ==> #[trigger] keys@[j].rank() > key.rank()
            },
        },
{
    let mut lo: usize = 0;
    let mut hi: usize = keys.len();
    while lo < hi
        invariant
            lo <= hi <= keys@.len(),
            sorted_keys(keys@),
            forall|j: int| 0 <= j < lo ==> #[trigger] keys@[j].rank() < key.rank(),
            forall|j: int| hi <= j < keys@.len() ==> #[trigger] keys@[j].rank() > key.rank(),
        decreases hi - lo,
    {
        let mid = lo + (hi - lo) / 2;
        match keys[mid].compare(key) {
            KeyOrder::Less => {
                assert forall|j: int| 0 <= j < mid + 1 implies #[trigger] keys@[j].rank()
                    < key.rank() by {
                    if j < mid {
                        assert(keys@[j].rank() < keys@[mid as int].rank());
                    }
                }
                lo = mid + 1;
            },
            KeyOrder::Equal => {
                return Ok(mid);
            },
            KeyOrder::Greater => {
                assert forall|j: int| mid <= j < keys@.len() implies #[trigger] keys@[j].rank()
                    > key.rank() by {
                    if j > mid {
                        assert(keys@[mid as int].rank() < keys@[j].rank());
                    }
                }
                hi = mid;
            },
        }
    }
    Err(lo)
}

/// Where `key` stands among the keys of the sorted `pairs`.
pub(crate) fn find_pair<K: Key, V>(pairs: &Vec<(K, V)>, key: &K) -> (res: Result<usize, usize>)
    requires
        sorted_pairs(pairs@),
    ensures
        match res {
            Ok(i) => i < pairs@.len() && pairs@[i as int].0.rank() == key.rank(),
            Err(i) => {
                &&& i <= pairs@.len()
                &&& forall|j: int| 0 <= j < i ==> #[trigger] pairs@[j].0.rank() < key.rank()
                &&& forall|j: int| i <= j < pairs@.len() ==> #[trigger] pairs@[j].0.rank() > key.rank()
            },
        },
{
    let mut lo: usize = 0;
    let mut hi: usize = pairs.len();
    while lo < hi
        invariant
            lo <= hi <= pairs@.len(),
            sorted_pairs(pairs@),
            forall|j: int| 0 <= j < lo ==> #[trigger] pairs@[j].0.rank() < key.rank(),
            forall|j: int| hi <= j < pairs@.len() ==> #[trigger] pairs@[j].0.rank() > key.rank(),
        decreases hi - lo,
    {
        let mid = lo + (hi - lo) / 2;
        match pairs[mid].0.compare(key) {
            KeyOrder::Less => {
                assert forall|j: int| 0 <= j < mid + 1 implies #[trigger] pairs@[j].0.rank()
                    < key.rank() by {
                    if j < mid {
                        assert(pairs@[j].0.rank() < pairs@[mid as int].0.rank());
                    }
                }
                lo = mid + 1;
            },
            KeyOrder::Equal => {
                return Ok(mid);
            },
            KeyOrder::Greater => {
                assert forall|j: int| mid <= j < pairs@.len() implies #[trigger] pairs@[j].0.rank()
                    > key.rank() by {
                    if j > mid {
                        assert(pairs@[mid as int].0.rank() < pairs@[j].0.rank());
                    }
                }
                hi = mid;
            },
        }
    }
    Err(lo)
}

// ---------------------------------------------------------------------------
// Leaves.

proof fn lemma_sorted_subrange<K: Key, V>(e: Seq<(K, V)>, lo: int, hi: int)
    requires
        sorted_pairs(e),
        0 <= lo <= hi <= e.len(),
    ensures
        sorted_pairs(e.subrange(lo, hi)),
{
    let s = e.subrange(lo, hi);
    assert forall|i: int, j: int| #![trigger s[i], s[j]] 0 <= i < j < s.len() implies s[i].0.rank()
        < s[j].0.rank() by {
        assert(s[i] == e[lo + i] && s[j] == e[lo + j]);
    }
}

proof fn lemma_no_key_subrange<K: Key, V>(e: Seq<(K, V)>, lo: int, hi: int, k: K)
    requires
        !has_key(e, k),
        0 <= lo <= hi <= e.len(),
    ensures
        !has_key(e.subrange(lo, hi), k),
{
    let s = e.subrange(lo, hi);
    if has_key(s, k) {
        let j = choose|j: int| 0 <= j < s.len() && #[trigger] s[j].0 == k;
        assert(e[lo + j] == s[j]);
    }
}

impl<K: Key, V: Copy> LeafNode<K, V> {
    /// An empty leaf.
    pub fn new() -> (r: Self)
        ensures
            r.wf(),
            r.entries() == Seq::<(K, V)>::empty(),
    {
        Self { key_val_pairs: Vec::new() }
    }

    /// Inserts the pair at its place by key. A full leaf first splits in
    /// two halves; the pair then goes to the half that covers its key, and
    /// the right half comes back with its first key.
    pub fn insert(&mut self, key: K, val: V) -> (res: Result<(), (NodeRef<K, V>, K)>)
        requires
            old(self).wf(),
            !has_key(old(self).entries(), key),
        ensures
            final(self).wf(),
            match res {
                Ok(()) => {
                    &&& old(self).entries().len() < MAX_KEYS
                    &&& final(self).entries() == insert_sorted(old(self).entries(), key, val)
                },
                Err((node, median)) => {
                    &&& old(self).entries().len() >= MAX_KEYS
                    &&& median == old(self).entries()[((MAX_KEYS + 1) / 2) as int].0
                    &&& node is Leaf
                    &&& node.wf()
                    &&& final(self).entries() + node.entries() == insert_sorted(
                        old(self).entries(),
                        key,
                        val,
                    )
                    &&& final(self).entries().len() > 0
                    &&& node.entries().len() > 0
                    &&& all_below(final(self).entries(), median.rank())
                    &&& all_at_least(node.entries(), median.rank())
                },
            },
        decreases old(self).entries().len(),
    {
        let ghost e = self.key_val_pairs@;
        proof {
            lemma_no_key_rank(e, key);
        }
        if self.key_val_pairs.len() < MAX_KEYS {
            let index = match find_pair(&self.key_val_pairs, &key) {
                Ok(i) => {
                    proof {
                        assert(e[i as int].0.rank() == key.rank());
                    }
                    i
                },
                Err(i) => i,
            };
            self.key_val_pairs.insert(index, (key, val));
            proof {
                lemma_insert_sorted_at(e, index as int, key, val);
            }
            Ok(())
        } else {
            let right_split = self.key_val_pairs.split_off((MAX_KEYS + 1) / 2);
            let median_key = right_split[0].0;
            let mut new_leaf = LeafNode { key_val_pairs: right_split };
            let ghost left = self.key_val_pairs@;
            let ghost right = new_leaf.key_val_pairs@;
            proof {
                lemma_sorted_subrange(e, 0, 500);
                lemma_sorted_subrange(e, 500, e.len() as int);
                lemma_no_key_subrange(e, 0, 500, key);
                lemma_no_key_subrange(e, 500, e.len() as int, key);
                assert(e =~= left + right);
                assert(all_below(left, median_key.rank())) by {
                    assert forall|j: int| 0 <= j < left.len() implies #[trigger] left[j].0.rank()
                        < median_key.rank() by {
                        assert(left[j] == e[j] && right[0] == e[500]);
                    }
                }
                assert(all_at_least(right, median_key.rank())) by {
                    assert forall|j: int| 0 <= j < right.len() implies #[trigger] right[j].0.rank()
                        >= median_key.rank() by {
                        if j > 0 {
                            assert(right[j] == e[500 + j] && right[0] == e[500]);
                        }
                    }
                }
            }
            match key.compare(&median_key) {
                KeyOrder::Greater => {
                    let r = new_leaf.insert(key, val);
                    match r {
                        Ok(()) => {},
                        Err(_) => {
                            proof {
                                assert(false);
                            }
                        },
                    }
                    proof {
                        assert(all_below(left, key.rank()));
                        lemma_insert_sorted_middle(left, right, Seq::empty(), key, val);
                        assert(left + right + Seq::<(K, V)>::empty() =~= e);
                        assert(left + insert_sorted(right, key, val) + Seq::<(K, V)>::empty()
                            =~= left + insert_sorted(right, key, val));
                        lemma_insert_sorted_at_least(right, key, val, median_key.rank());
                    }
                },
                KeyOrder::Less => {
                    let r = self.insert(key, val);
                    match r {
                        Ok(()) => {},
                        Err(_) => {
                            proof {
                                assert(false);
                            }
                        },
                    }
                    proof {
                        assert(all_at_least(right, key.rank() + 1));
                        lemma_insert_sorted_middle(Seq::empty(), left, right, key, val);
                        assert(Seq::<(K, V)>::empty() + left + right =~= e);
                        assert(Seq::<(K, V)>::empty() + insert_sorted(left, key, val) + right
                            =~= insert_sorted(left, key, val) + right);
                        lemma_insert_sorted_below(left, key, val, median_key.rank());
                    }
                },
                KeyOrder::Equal => {
                    proof {
                        assert(e[500].0.rank() == key.rank());
                    }
                },
            }
            Err((NodeRef::Leaf(new_leaf), median_key))
        }
    }

    /// The value stored under `key`.
    pub fn search(&self, key: K) -> (r: Option<V>)
        requires
            self.wf(),
        ensures
            r == lookup(self.entries(), key),
    {
        match find_pair(&self.key_val_pairs, &key) {
            Ok(idx) => {
                proof {
                    K::lemma_rank_injective(self.key_val_pairs@[idx as int].0, key);
                    lemma_lookup_found(self.key_val_pairs@, idx as int, key);
                }
                Some(self.key_val_pairs[idx].1)
            },
            Err(_) => {
                proof {
                    lemma_lookup_rank_absent(self.key_val_pairs@, key);
                }
                None
            },
        }
    }
}

// ---------------------------------------------------------------------------
// Internal nodes.

/// The pairs of the children below `idx` rank below a key that routes to
/// child `idx`, and those of the children above it rank above it.
#[verifier::spinoff_prover]
#[verifier::rlimit(40)]
proof fn lemma_route_bounds<K: Key, V>(n: InternalNode<K, V>, idx: int, k: K)
    requires
        n.wf(),
        0 <= idx < n.children@.len(),
        forall|j: int| 0 <= j < idx ==> #[trigger] n.keys@[j].rank() <= k.rank(),
        forall|j: int| idx <= j < n.keys@.len() ==> #[trigger] n.keys@[j].rank() > k.rank(),
    ensures
        all_below(flatten_children(n.children@.take(idx)), k.rank()),
        all_at_least(flatten_children(n.children@.skip(idx + 1)), k.rank() + 1),
        idx > 0 ==> all_at_least(n.children@[idx].entries(), n.keys@[idx - 1].rank()),
        idx < n.keys@.len() ==> all_below(n.children@[idx].entries(), n.keys@[idx].rank()),
        n.entries() == flatten_children(n.children@.take(idx)) + n.children@[idx].entries()
            + flatten_children(n.children@.skip(idx + 1)),
{
    let cs = n.children@;
    let pre = cs.take(idx);
    let post = cs.skip(idx + 1);
    assert forall|j: int| 0 <= j < pre.len() implies all_below(#[trigger] pre[j].entries(), k.rank()) by {
        assert(pre[j] == cs[j]);
        assert(all_below(cs[j].entries(), n.keys@[j].rank()));
    }
    lemma_flatten_all_below(pre, k.rank());
    assert forall|j: int| 0 <= j < post.len() implies all_at_least(
        #[trigger] post[j].entries(),
        k.rank() + 1,
    ) by {
        assert(post[j] == cs[idx + 1 + j]);
        assert(n.keys@[idx + j].rank() > k.rank());
        assert(all_at_least(cs[idx + j + 1].entries(), n.keys@[idx + j].rank()));
    }
    lemma_flatten_all_at_least(post, k.rank() + 1);
    if idx > 0 {
        assert(all_at_least(cs[idx - 1 + 1].entries(), n.keys@[idx - 1].rank()));
    }
    lemma_flatten_split(cs, idx);
}

/// A node whose child at `idx` took the pair in place is well formed and
/// holds the pair.
proof fn lemma_replace_child<K: Key, V>(
    o: InternalNode<K, V>,
    n: InternalNode<K, V>,
    idx: int,
    k: K,
    v: V,
)
    requires
        o.wf(),
        !has_key(o.entries(), k),
        0 <= idx < o.children@.len(),
        forall|j: int| 0 <= j < idx ==> #[trigger] o.keys@[j].rank() <= k.rank(),
        forall|j: int| idx <= j < o.keys@.len() ==> #[trigger] o.keys@[j].rank() > k.rank(),
        n.keys@ == o.keys@,
        n.children@.len() == o.children@.len(),
        forall|j: int| 0 <= j < o.children@.len() && j != idx ==> n.children@[j] == o.children@[j],
        n.children@[idx].wf(),
        n.children@[idx].depth() == o.children@[idx].depth(),
        n.children@[idx].entries() == insert_sorted(o.children@[idx].entries(), k, v),
    ensures
        n.wf(),
        n.depth() == o.depth(),
        n.entries() == insert_sorted(o.entries(), k, v),
{
    lemma_route_bounds(o, idx, k);
    let cs = o.children@;
    let ns = n.children@;
    assert(ns.take(idx) =~= cs.take(idx));
    assert(ns.skip(idx + 1) =~= cs.skip(idx + 1));
    lemma_flatten_split(ns, idx);
    let a = flatten_children(cs.take(idx));
    let b = flatten_children(cs.skip(idx + 1));
    let c = cs[idx].entries();
    lemma_insert_sorted_middle(a, c, b, k, v);
    lemma_insert_sorted_sorted(o.entries(), k, v);
    lemma_has_key_middle(a, c, b, k);
    lemma_wf_sorted(cs[idx]);
    lemma_insert_sorted_sorted(c, k, v);
    if idx < o.keys@.len() {
        lemma_insert_sorted_below(c, k, v, o.keys@[idx].rank());
    }
    if idx > 0 {
        lemma_insert_sorted_at_least(c, k, v, o.keys@[idx - 1].rank());
    }
    assert forall|i: int| 0 <= i < ns.len() implies (#[trigger] ns[i]).wf() && ns[i].depth()
        == ns[0].depth() && ns[i].entries().len() > 0 by {
        if i != idx {
            assert(ns[i] == cs[i]);
        }
        if idx != 0 {
            assert(ns[0] == cs[0]);
        }
    }
    assert forall|i: int| 0 <= i < n.keys@.len() implies all_below(
        (#[trigger] ns[i]).entries(),
        n.keys@[i].rank(),
    ) by {
        if i != idx {
            assert(ns[i] == cs[i]);
        }
    }
    assert forall|i: int| 0 <= i < n.keys@.len() implies all_at_least(
        ns[i + 1].entries(),
        (#[trigger] n.keys@[i]).rank(),
    ) by {
        if i + 1 != idx {
            assert(ns[i + 1] == cs[i + 1]);
        }
    }
    if idx != 0 {
        assert(ns[0] == cs[0]);
    }
}

proof fn lemma_wf_sorted<K: Key, V>(c: NodeRef<K, V>)
    requires
        c.wf(),
    ensures
        sorted_pairs(c.entries()),
{
    match c {
        NodeRef::Internal(n) => {
            assert(n.wf());
        },
        NodeRef::Leaf(l) => {
            assert(l.wf());
        },
    }
}

pub(crate) proof fn lemma_keys_insert_sorted<K: Key>(ks: Seq<K>, idx: int, m: K)
    requires
        sorted_keys(ks),
        0 <= idx <= ks.len(),
        idx > 0 ==> ks[idx - 1].rank() < m.rank(),
        idx < ks.len() ==> m.rank() < ks[idx].rank(),
    ensures
        sorted_keys(ks.insert(idx, m)),
{
    let nk = ks.insert(idx, m);
    assert forall|i: int, j: int| #![trigger nk[i], nk[j]] 0 <= i < j < nk.len() implies nk[i].rank()
        < nk[j].rank() by {
        if j < idx {
            assert(nk[i] == ks[i] && nk[j] == ks[j]);
        } else if j == idx {
            assert(nk[i] == ks[i]);
            if i < idx - 1 {
                assert(ks[i].rank() < ks[idx - 1].rank());
            }
        } else if i == idx {
            assert(nk[j] == ks[j - 1]);
            if j - 1 > idx {
                assert(ks[idx].rank() < ks[j - 1].rank());
            }
        } else if i < idx {
            assert(nk[i] == ks[i] && nk[j] == ks[j - 1]);
            assert(ks[i].rank() < ks[idx].rank());
            if j - 1 > idx {
                assert(ks[idx].rank() < ks[j - 1].rank());
            }
        } else {
            assert(nk[i] == ks[i - 1] && nk[j] == ks[j - 1]);
        }
    }
}

proof fn lemma_flatten_split_insert<K, V>(
    cs: Seq<NodeRef<K, V>>,
    idx: int,
    left: NodeRef<K, V>,
    right: NodeRef<K, V>,
)
    requires
        0 <= idx < cs.len(),
    ensures
        flatten_children(cs.update(idx, left).insert(idx + 1, right)) == flatten_children(
            cs.take(idx),
        ) + (left.entries() + right.entries()) + flatten_children(cs.skip(idx + 1)),
{
    let ns = cs.update(idx, left).insert(idx + 1, right);
    assert(ns =~= cs.take(idx) + (seq![left] + seq![right]) + cs.skip(idx + 1));
    lemma_flatten_concat(cs.take(idx) + (seq![left] + seq![right]), cs.skip(idx + 1));
    lemma_flatten_concat(cs.take(idx), seq![left] + seq![right]);
    lemma_flatten_concat(seq![left], seq![right]);
    lemma_flatten_single(left);
    lemma_flatten_single(right);
}

/// The halves of a split pair sequence keep the bounds of the whole, and
/// the separator lies strictly inside them.
proof fn lemma_split_bounds<K: Key, V>(
    x: Seq<(K, V)>,
    le: Seq<(K, V)>,
    re: Seq<(K, V)>,
    m: K,
    lo: Option<int>,
    hi: Option<int>,
)
    requires
        sorted_pairs(x),
        x == le + re,
        le.len() > 0,
        re.len() > 0,
        all_below(le, m.rank()),
        all_at_least(re, m.rank()),
        lo matches Some(l) ==> all_at_least(x, l),
        hi matches Some(h) ==> all_below(x, h),
    ensures
        lo matches Some(l) ==> all_at_least(le, l) && l < m.rank(),
        hi matches Some(h) ==> all_below(re, h) && m.rank() < h,
{
    if let Some(l) = lo {
        assert forall|j: int| 0 <= j < le.len() implies #[trigger] le[j].0.rank() >= l by {
            assert(x[j] == le[j]);
        }
        assert(le[0].0.rank() >= l);
    }
    if let Some(h) = hi {
        assert forall|j: int| 0 <= j < re.len() implies #[trigger] re[j].0.rank() < h by {
            assert(x[le.len() + j] == re[j]);
        }
        assert(re[0].0.rank() < h);
    }
}

/// A node whose child at `idx` split in two around `m`, the right half now
/// standing at `idx + 1`, is well formed but for its number of keys, and
/// holds the pair.
#[verifier::rlimit(40)]
proof fn lemma_split_child<K: Key, V>(
    o: InternalNode<K, V>,
    n: InternalNode<K, V>,
    idx: int,
    k: K,
    v: V,
    left: NodeRef<K, V>,
    right: NodeRef<K, V>,
    m: K,
)
    requires
        o.wf(),
        !has_key(o.entries(), k),
        0 <= idx < o.children@.len(),
        forall|j: int| 0 <= j < idx ==> #[trigger] o.keys@[j].rank() <= k.rank(),
        forall|j: int| idx <= j < o.keys@.len() ==> #[trigger] o.keys@[j].rank() > k.rank(),
        left.depth() == o.children@[idx].depth(),
        right.depth() == o.children@[idx].depth(),
        left.wf(),
        right.wf(),
        left.entries().len() > 0,
        right.entries().len() > 0,
        all_below(left.entries(), m.rank()),
        all_at_least(right.entries(), m.rank()),
        left.entries() + right.entries() == insert_sorted(o.children@[idx].entries(), k, v),
        n.keys@ == o.keys@.insert(idx, m),
        n.children@ == o.children@.update(idx, left).insert(idx + 1, right),
    ensures
        n.node_ok(),
        n.keys@.len() == o.keys@.len() + 1,
        n.depth() == o.depth(),
        n.entries() == insert_sorted(o.entries(), k, v),
{
    lemma_route_bounds(o, idx, k);
    let cs = o.children@;
    let ns = n.children@;
    let ks = o.keys@;
    let nk = n.keys@;
    let a = flatten_children(cs.take(idx));
    let b = flatten_children(cs.skip(idx + 1));
    let c = cs[idx].entries();
    lemma_wf_sorted(cs[idx]);
    lemma_insert_sorted_middle(a, c, b, k, v);
    lemma_insert_sorted_sorted(o.entries(), k, v);
    lemma_has_key_middle(a, c, b, k);
    lemma_insert_sorted_sorted(c, k, v);
    let lo: Option<int> = if idx > 0 { Some(ks[idx - 1].rank()) } else { None };
    let hi: Option<int> = if idx < ks.len() { Some(ks[idx].rank()) } else { None };
    if idx < ks.len() {
        lemma_insert_sorted_below(c, k, v, ks[idx].rank());
    }
    if idx > 0 {
        lemma_insert_sorted_at_least(c, k, v, ks[idx - 1].rank());
    }
    lemma_split_bounds(insert_sorted(c, k, v), left.entries(), right.entries(), m, lo, hi);
    lemma_keys_insert_sorted(ks, idx, m);
    lemma_flatten_split_insert(cs, idx, left, right);
    assert(cs[idx].depth() == cs[0].depth());
    assert forall|i: int| 0 <= i < ns.len() implies (#[trigger] ns[i]).wf() && ns[i].depth()
        == ns[0].depth() && ns[i].entries().len() > 0 by {
        if i < idx {
            assert(ns[i] == cs[i]);
        } else if i > idx + 1 {
            assert(ns[i] == cs[i - 1]);
        }
        if idx != 0 {
            assert(ns[0] == cs[0]);
        }
    }
    assert forall|i: int| 0 <= i < nk.len() implies all_below(
        (#[trigger] ns[i]).entries(),
        nk[i].rank(),
    ) by {
        if i < idx {
            assert(ns[i] == cs[i] && nk[i] == ks[i]);
        } else if i == idx + 1 {
            assert(nk[i] == ks[idx]);
        } else if i > idx + 1 {
            assert(ns[i] == cs[i - 1] && nk[i] == ks[i - 1]);
        }
    }
    assert forall|i: int| 0 <= i < nk.len() implies all_at_least(
        ns[i + 1].entries(),
        (#[trigger] nk[i]).rank(),
    ) by {
        if i + 1 < idx {
            assert(ns[i + 1] == cs[i + 1] && nk[i] == ks[i]);
        } else if i + 1 == idx {
            assert(nk[i] == ks[idx - 1]);
        } else if i > idx {
            assert(ns[i + 1] == cs[i] && nk[i] == ks[i - 1]);
        }
    }
    if idx != 0 {
        assert(ns[0] == cs[0]);
    }
}

/// A node whose keys stay and whose child at `idx` is replaced by one that
/// reaches every key the old child reached still reaches every key it
/// reached.
proof fn lemma_reaches_replace<K: Key, V>(o: InternalNode<K, V>, n: InternalNode<K, V>, idx: int)
    requires
        n.keys@ == o.keys@,
        n.children@.len() == o.children@.len(),
        0 <= idx < o.children@.len(),
        forall|j: int| 0 <= j < o.children@.len() && j != idx ==> n.children@[j] == o.children@[j],
        forall|k: K| o.children@[idx].reaches(k) ==> #[trigger] n.children@[idx].reaches(k),
    ensures
        forall|k: K| #[trigger] o.reaches(k) ==> n.reaches(k),
{
    assert forall|k: K| #[trigger] o.reaches(k) implies n.reaches(k) by {
        let i = o.route(k);
        assert(n.route(k) == i);
        assert(1 <= i < o.children@.len() && o.children@[i].reaches(k));
        if i != idx {
            assert(n.children@[i] == o.children@[i]);
        } else {
            assert(n.children@[idx].reaches(k));
        }
    }
}

/// A node whose leaf child at `idx` split into the leaves `left` and
/// `right` around the new key `m` at `idx` still reaches every key it
/// reached.
proof fn lemma_reaches_split<K: Key, V>(
    o: InternalNode<K, V>,
    n: InternalNode<K, V>,
    idx: int,
    left: NodeRef<K, V>,
    right: NodeRef<K, V>,
    m: K,
)
    requires
        0 <= idx < o.children@.len(),
        o.children@.len() == o.keys@.len() + 1,
        left is Leaf,
        right is Leaf,
        sorted_keys(n.keys@),
        n.keys@ == o.keys@.insert(idx, m),
        n.children@ == o.children@.update(idx, left).insert(idx + 1, right),
    ensures
        forall|k: K| #[trigger] o.reaches(k) ==> n.reaches(k),
{
    let ok = o.keys@;
    let nk = n.keys@;
    assert forall|k: K| #[trigger] o.reaches(k) implies n.reaches(k) by {
        let r = k.rank();
        let c = o.route(k);
        assert(sorted_keys(ok)) by {
            assert forall|a: int, b: int| #![trigger ok[a], ok[b]] 0 <= a < b < ok.len() implies ok[a].rank()
                < ok[b].rank() by {
                let a2 = if a < idx { a } else { a + 1 };
                let b2 = if b < idx { b } else { b + 1 };
                assert(nk[a2] == ok[a] && nk[b2] == ok[b]);
            }
        }
        crate::ordered::lemma_count_keys_at_most_split(ok, r);
        assert(1 <= c < o.children@.len());
        // where m lies with respect to the keys of `o`
        assert forall|j: int| 0 <= j < idx implies #[trigger] ok[j].rank() < m.rank() by {
            assert(nk[j] == ok[j] && nk[idx] == m);
        }
        assert forall|j: int| idx <= j < ok.len() implies #[trigger] ok[j].rank() > m.rank() by {
            assert(nk[j + 1] == ok[j] && nk[idx] == m);
        }
        if m.rank() <= r {
            assert(idx <= c) by {
                if c < idx {
                    assert(ok[c].rank() > r);
                    assert(ok[c].rank() < m.rank());
                }
            }
            assert forall|j: int| 0 <= j < c + 1 implies #[trigger] nk[j].rank() <= r by {
                if j < idx {
                    assert(nk[j] == ok[j]);
                } else if j > idx {
                    assert(nk[j] == ok[j - 1]);
                }
            }
            assert forall|j: int| c + 1 <= j < nk.len() implies #[trigger] nk[j].rank() > r by {
                assert(nk[j] == ok[j - 1]);
            }
            lemma_count_keys_at_most_exact(nk, c + 1, r);
            if c > idx {
                assert(n.children@[c + 1] == o.children@[c]);
            }
        } else {
            assert(c <= idx) by {
                if c > idx {
                    assert(ok[idx].rank() <= r);
                }
            }
            assert forall|j: int| 0 <= j < c implies #[trigger] nk[j].rank() <= r by {
                assert(nk[j] == ok[j]);
            }
            assert forall|j: int| c <= j < nk.len() implies #[trigger] nk[j].rank() > r by {
                if j > idx {
                    assert(nk[j] == ok[j - 1]);
                } else if j < idx {
                    assert(nk[j] == ok[j]);
                }
            }
            lemma_count_keys_at_most_exact(nk, c, r);
            if c < idx {
                assert(n.children@[c] == o.children@[c]);
            }
        }
    }
}

/// A node that is well formed but for its number of keys, and within it,
/// is well formed.
proof fn lemma_node_ok_wf<K: Key, V>(n: InternalNode<K, V>)
    requires
        n.node_ok(),
        n.keys@.len() <= MAX_KEYS,
    ensures
        n.wf(),
{
}

/// The position of the key that moves up when a node with one key too many
/// splits: the keys before it stay, those after it go to the new node.
pub const SPLIT_AT: usize = MAX_KEYS / 2;

/// A node with one key too many, split around its key at `SPLIT_AT`: the
/// keys before it and their children form `l`, the rest `r`; both are well
/// formed, as deep as the node, and lie below and at or above that key.
#[verifier::spinoff_prover]
#[verifier::rlimit(60)]
proof fn lemma_split_node<K: Key, V>(
    n: InternalNode<K, V>,
    l: InternalNode<K, V>,
    r: InternalNode<K, V>,
    m: K,
)
    requires
        n.node_ok(),
        n.keys@.len() == MAX_KEYS + 1,
        m == n.keys@[SPLIT_AT as int],
        l.keys@ == n.keys@.subrange(0, SPLIT_AT as int),
        r.keys@ == n.keys@.subrange(SPLIT_AT + 1, n.keys@.len() as int),
        l.children@ == n.children@.subrange(0, SPLIT_AT + 1),
        r.children@ == n.children@.subrange(SPLIT_AT + 1, n.children@.len() as int),
    ensures
        l.wf(),
        r.wf(),
        l.depth() == n.depth(),
        r.depth() == n.depth(),
        l.entries() + r.entries() == n.entries(),
        l.entries().len() > 0,
        r.entries().len() > 0,
        all_below(l.entries(), m.rank()),
        all_at_least(r.entries(), m.rank()),
{
    let ks = n.keys@;
    let cs = n.children@;
    let h = SPLIT_AT as int;
    let lk = l.keys@;
    let rk = r.keys@;
    let lc = l.children@;
    let rc = r.children@;
    assert(cs =~= lc + rc);
    lemma_flatten_concat(lc, rc);
    let le = flatten_children(lc);
    let re = flatten_children(rc);
    let e = flatten_children(cs);
    assert(e == le + re);
    assert forall|i: int, j: int| #![trigger le[i], le[j]] 0 <= i < j < le.len() implies le[i].0.rank()
        < le[j].0.rank() by {
        assert(le[i] == e[i] && le[j] == e[j]);
    }
    assert forall|i: int, j: int| #![trigger re[i], re[j]] 0 <= i < j < re.len() implies re[i].0.rank()
        < re[j].0.rank() by {
        assert(re[i] == e[le.len() + i] && re[j] == e[le.len() + j]);
    }
    assert forall|i: int, j: int| #![trigger lk[i], lk[j]] 0 <= i < j < lk.len() implies lk[i].rank()
        < lk[j].rank() by {
        assert(lk[i] == ks[i] && lk[j] == ks[j]);
    }
    assert forall|i: int, j: int| #![trigger rk[i], rk[j]] 0 <= i < j < rk.len() implies rk[i].rank()
        < rk[j].rank() by {
        assert(rk[i] == ks[h + 1 + i] && rk[j] == ks[h + 1 + j]);
    }
    assert forall|i: int| 0 <= i < lc.len() implies (#[trigger] lc[i]).wf() && lc[i].depth()
        == lc[0].depth() && lc[i].entries().len() > 0 by {
        assert(lc[i] == cs[i] && lc[0] == cs[0]);
    }
    assert forall|i: int| 0 <= i < rc.len() implies (#[trigger] rc[i]).wf() && rc[i].depth()
        == rc[0].depth() && rc[i].entries().len() > 0 by {
        assert(rc[i] == cs[h + 1 + i] && rc[0] == cs[h + 1]);
        assert(cs[h + 1].depth() == cs[0].depth());
    }
    assert forall|i: int| 0 <= i < lk.len() implies all_below((#[trigger] lc[i]).entries(), lk[i].rank())
        by {
        assert(lc[i] == cs[i] && lk[i] == ks[i]);
    }
    assert forall|i: int| 0 <= i < lk.len() implies all_at_least(
        lc[i + 1].entries(),
        (#[trigger] lk[i]).rank(),
    ) by {
        assert(lc[i + 1] == cs[i + 1] && lk[i] == ks[i]);
    }
    assert forall|i: int| 0 <= i < rk.len() implies all_below((#[trigger] rc[i]).entries(), rk[i].rank())
        by {
        assert(rc[i] == cs[h + 1 + i] && rk[i] == ks[h + 1 + i]);
    }
    assert forall|i: int| 0 <= i < rk.len() implies all_at_least(
        rc[i + 1].entries(),
        (#[trigger] rk[i]).rank(),
    ) by {
        assert(rc[i + 1] == cs[h + 2 + i] && rk[i] == ks[h + 1 + i]);
    }
    assert forall|i: int| 0 <= i < lc.len() implies all_below(#[trigger] lc[i].entries(), m.rank()) by {
        assert(lc[i] == cs[i]);
        if i < h {
            assert(ks[i].rank() < ks[h].rank());
            let x = cs[i].entries();
            assert(all_below(x, ks[i].rank()));
            assert forall|j: int| 0 <= j < x.len() implies #[trigger] x[j].0.rank() < m.rank() by {
            }
        }
    }
    lemma_flatten_all_below(lc, m.rank());
    assert forall|i: int| 0 <= i < rc.len() implies all_at_least(#[trigger] rc[i].entries(), m.rank()) by {
        assert(rc[i] == cs[h + 1 + i]);
        if i > 0 {
            assert(ks[h].rank() < ks[h + i].rank());
        }
        let x = cs[h + 1 + i].entries();
        assert(all_at_least(x, ks[h + i].rank()));
        assert forall|j: int| 0 <= j < x.len() implies #[trigger] x[j].0.rank() >= m.rank() by {
        }
    }
    lemma_flatten_all_at_least(rc, m.rank());
    lemma_flatten_split(lc, 0);
    lemma_flatten_split(rc, 0);
    assert(cs[h + 1].depth() == cs[0].depth());
}

/// The child index that `find_key`'s answer routes `key` to.
proof fn lemma_route_index<K: Key>(keys: Seq<K>, key: K, res: Result<usize, usize>, idx: int)
    requires
        sorted_keys(keys),
        match res {
            Ok(i) => i < keys.len() && keys[i as int].rank() == key.rank() && idx == i + 1,
            Err(i) => {
                &&& i <= keys.len()
                &&& forall|j: int| 0 <= j < i ==> #[trigger] keys[j].rank() < key.rank()
                &&& forall|j: int| i <= j < keys.len() ==> #[trigger] keys[j].rank() > key.rank()
                &&& idx == i
            },
        },
    ensures
        0 <= idx <= keys.len(),
        forall|j: int| 0 <= j < idx ==> #[trigger] keys[j].rank() <= key.rank(),
        forall|j: int| idx <= j < keys.len() ==> #[trigger] keys[j].rank() > key.rank(),
        count_keys_at_most(keys, key.rank()) == idx,
{
    if let Ok(i) = res {
        assert forall|j: int| 0 <= j < idx implies #[trigger] keys[j].rank() <= key.rank() by {
            if j < i {
                assert(keys[j].rank() < keys[i as int].rank());
            }
        }
        assert forall|j: int| idx <= j < keys.len() implies #[trigger] keys[j].rank() > key.rank() by {
            assert(keys[i as int].rank() < keys[j].rank());
        }
    }
    lemma_count_keys_at_most_exact(keys, idx, key.rank());
}

impl<K: Key, V: Copy> InternalNode<K, V> {
    /// A node with no key above the single `child`.
    pub fn new(child: NodeRef<K, V>) -> (r: Self)
        ensures
            r.separators() == Seq::<K>::empty(),
            r.child_nodes() == seq![child],
            r.entries() == child.entries(),
            r.depth() == child.depth() + 1,
            child.wf() && child.entries().len() > 0 ==> r.wf(),
    {
        let children = vec![child];
        let r = Self { keys: Vec::new(), children };
        proof {
            lemma_flatten_single(child);
            assert(r.children@ =~= seq![child]);
            if child.wf() && child.entries().len() > 0 {
                lemma_wf_sorted(child);
            }
        }
        r
    }

    /// Splits a node with one key too many around its key at `SPLIT_AT`:
    /// the node keeps the keys before it and their children, and the rest
    /// goes to the node given back with that key.
    #[verifier::spinoff_prover]
    #[verifier::rlimit(60)]
    fn split_full(&mut self) -> (res: (InternalNode<K, V>, K))
        requires
            old(self).node_ok(),
            old(self).keys@.len() == MAX_KEYS + 1,
        ensures
            final(self).wf(),
            res.0.wf(),
            final(self).depth() == old(self).depth(),
            res.0.depth() == old(self).depth(),
            final(self).keys@.len() == SPLIT_AT,
            final(self).entries() + res.0.entries() == old(self).entries(),
            final(self).entries().len() > 0,
            res.0.entries().len() > 0,
            all_below(final(self).entries(), res.1.rank()),
            all_at_least(res.0.entries(), res.1.rank()),
    {
        let ghost whole = *self;
        let right_keys = self.keys.split_off(SPLIT_AT + 1);
        let median = self.keys.pop().unwrap();
        let right_children = self.children.split_off(SPLIT_AT + 1);
        let right = InternalNode { keys: right_keys, children: right_children };
        proof {
            assert(self.keys@ =~= whole.keys@.subrange(0, SPLIT_AT as int));
            assert(median == whole.keys@[SPLIT_AT as int]);
            lemma_split_node(whole, *self, right, median);
        }
        (right, median)
    }

    /// Inserts the pair into the child that covers its key. A child that
    /// splits leaves its right half, and the separator key before it, here;
    /// a node that then holds one key too many splits around its key at
    /// `SPLIT_AT`, keeps the part before it and gives back the part after it
    /// with that key.
    #[verifier::spinoff_prover]
    #[verifier::rlimit(100)]
    pub fn insert(&mut self, key: K, val: V) -> (res: Result<(), (NodeRef<K, V>, K)>)
        requires
            old(self).wf(),
            !has_key(old(self).entries(), key),
        ensures
            final(self).wf(),
            final(self).depth() == old(self).depth(),
            match res {
                Ok(()) => {
                    &&& final(self).entries() == insert_sorted(old(self).entries(), key, val)
                    &&& final(self).separators().len() <= MAX_KEYS
                    &&& old(self).insert_safe(key) ==> forall|k: K| #[trigger] old(self).reaches(k)
                        ==> final(self).reaches(k)
                    &&& old(self).route(key) < old(self).child_nodes().len()
                    &&& if final(self).separators().len() == old(self).separators().len() {
                        // the child that covers the key took it in place
                        &&& final(self).separators() == old(self).separators()
                        &&& final(self).child_nodes() == old(self).child_nodes().update(
                            old(self).route(key),
                            final(self).child_nodes()[old(self).route(key)],
                        )
                    } else {
                        // that child split; its right half and the half's
                        // first key came in after it
                        &&& final(self).separators() == old(self).separators().insert(
                            old(self).route(key),
                            final(self).separators()[old(self).route(key)],
                        )
                        &&& final(self).child_nodes() == old(self).child_nodes().update(
                            old(self).route(key),
                            final(self).child_nodes()[old(self).route(key)],
                        ).insert(
                            old(self).route(key) + 1,
                            final(self).child_nodes()[old(self).route(key) + 1],
                        )
                        &&& all_below(
                            final(self).child_nodes()[old(self).route(key)].entries(),
                            final(self).separators()[old(self).route(key)].rank(),
                        )
                        &&& all_at_least(
                            final(self).child_nodes()[old(self).route(key) + 1].entries(),
                            final(self).separators()[old(self).route(key)].rank(),
                        )
                        &&& old(self).child_nodes()[old(self).route(key)] is Leaf
                            ==> final(self).separators()[old(self).route(key)]
                            == old(self).child_nodes()[old(self).route(key)].entries()[((MAX_KEYS
                            + 1) / 2) as int].0
                    }
                },
                Err((node, median)) => {
                    &&& !old(self).insert_safe(key)
                    &&& old(self).separators().len() == MAX_KEYS
                    &&& node is Internal
                    &&& node.wf()
                    &&& node.depth() == old(self).depth()
                    &&& final(self).separators().len() == SPLIT_AT
                    &&& final(self).entries() + node.entries() == insert_sorted(
                        old(self).entries(),
                        key,
                        val,
                    )
                    &&& final(self).entries().len() > 0
                    &&& node.entries().len() > 0
                    &&& all_below(final(self).entries(), median.rank())
                    &&& all_at_least(node.entries(), median.rank())
                },
            },
        decreases old(self).depth(),
    {
        let ghost o = *self;
        let found = find_key(&self.keys, &key);
        let index = match found {
            Ok(i) => i + 1,
            Err(i) => i,
        };
        proof {
            lemma_route_index(self.keys@, key, found, index as int);
            lemma_route_bounds(o, index as int, key);
            lemma_has_key_middle(
                flatten_children(o.children@.take(index as int)),
                o.children@[index as int].entries(),
                flatten_children(o.children@.skip(index as int + 1)),
                key,
            );
            assert(o.children@[index as int].depth() == o.children@[0].depth());
        }
        proof {
            if o.insert_safe(key) {
                assert(o.children@[index as int].insert_safe(key));
            }
        }
        let child_insert_result = match &mut self.children[index] {
            NodeRef::Internal(the_node) => the_node.insert(key, val),
            NodeRef::Leaf(leaf) => leaf.insert(key, val),
        };
        let ghost c2 = self.children@[index as int];
        proof {
            if o.insert_safe(key) {
                assert forall|k: K| o.children@[index as int].reaches(k) implies #[trigger] c2.reaches(
                    k,
                ) by {
                    if let NodeRef::Internal(n2) = c2 {
                        if let NodeRef::Internal(n1) = o.children@[index as int] {
                            assert(n1.reaches(k));
                        }
                    }
                }
                if c2 is Internal {
                    assert(child_insert_result is Ok);
                }
            }
        }
        match child_insert_result {
            Ok(()) => {
                proof {
                    lemma_replace_child(o, *self, index as int, key, val);
                    if o.insert_safe(key) {
                        lemma_reaches_replace(o, *self, index as int);
                    }
                }
                Ok(())
            },
            Err((new_child_node, child_median_key)) => {
                let ghost left = self.children@[index as int];
                self.keys.insert(index, child_median_key);
                self.children.insert(index + 1, new_child_node);
                proof {
                    assert(self.children@ =~= o.children@.update(index as int, left).insert(
                        index + 1,
                        new_child_node,
                    ));
                    lemma_split_child(
                        o,
                        *self,
                        index as int,
                        key,
                        val,
                        left,
                        new_child_node,
                        child_median_key,
                    );
                }
                if self.keys.len() <= MAX_KEYS {
                    proof {
                        lemma_node_ok_wf(*self);
                        assert(self.keys@[index as int] == child_median_key);
                        assert(self.children@[index as int] == left);
                        assert(self.children@[index + 1] == new_child_node);
                        if o.insert_safe(key) {
                            lemma_reaches_split(
                                o,
                                *self,
                                index as int,
                                left,
                                new_child_node,
                                child_median_key,
                            );
                        }
                    }
                    Ok(())
                } else {
                    proof {
                        assert(!o.insert_safe(key));
                    }
                    let (right, median) = self.split_full();
                    Err((NodeRef::Internal(right), median))
                }
            },
        }
    }

    /// The value stored under `key`, looked up in the child that covers it;
    /// a key below the first separator finds nothing.
    pub fn search(&self, key: K) -> (r: Option<V>)
        requires
            self.wf(),
        ensures
            r == if self.reaches(key) {
                lookup(self.entries(), key)
            } else {
                None
            },
        decreases self.depth(),
    {
        let found = find_key(&self.keys, &key);
        let index = match found {
            Ok(idx) => idx,
            Err(idx) => if idx == 0 {
                proof {
                    lemma_route_index(self.keys@, key, found, 0);
                }
                return None;
            } else {
                idx - 1
            },
        };
        proof {
            lemma_route_index(self.keys@, key, found, index + 1);
            lemma_route_bounds(*self, index + 1, key);
            assert(self.children@[index + 1].depth() == self.children@[0].depth());
            let cs = self.children@;
            let a = flatten_children(cs.take(index + 1));
            let b = flatten_children(cs.skip(index + 2));
            assert forall|i: int| 0 <= i < a.len() implies #[trigger] a[i].0.rank() != key.rank() by {
            }
            assert forall|i: int| 0 <= i < b.len() implies #[trigger] b[i].0.rank() != key.rank() by {
            }
            lemma_lookup_middle(a, cs[index + 1].entries(), b, key);
        }
        match &self.children[index + 1] {
            NodeRef::Internal(node_ref) => node_ref.search(key),
            NodeRef::Leaf(leaf_ref) => leaf_ref.search(key),
        }
    }
}

// ---------------------------------------------------------------------------
// The tree.

/// A B+ tree that maps keys to values.
pub struct BTree<K, V> {
    root: Option<NodeRef<K, V>>,
}

impl<K: Key, V> BTree<K, V> {
    /// The tree has a well-formed root.
    pub closed spec fn wf(&self) -> bool {
        &&& self.root is Some
        &&& self.root.unwrap().wf()
    }

    /// The pairs of the tree, in key order.
    pub closed spec fn entries(&self) -> Seq<(K, V)> {
        match self.root {
            Some(r) => r.entries(),
            None => Seq::empty(),
        }
    }

    /// The number of levels of the tree, leaves included.
    pub closed spec fn height_spec(&self) -> nat {
        match self.root {
            Some(r) => r.depth() + 1,
            None => 0,
        }
    }

    /// A search for `k` reaches a leaf (see `NodeRef::reaches`).
    pub closed spec fn reaches(&self, k: K) -> bool {
        match self.root {
            Some(r) => r.reaches(k),
            None => false,
        }
    }

    /// Inserting `k` splits no internal node (see `NodeRef::insert_safe`).
    pub closed spec fn insert_safe(&self, k: K) -> bool {
        match self.root {
            Some(r) => r.insert_safe(k),
            None => false,
        }
    }

    /// The separator keys of the root: none while the root is a leaf.
    pub closed spec fn root_separators(&self) -> Seq<K> {
        match self.root {
            Some(NodeRef::Internal(n)) => n.keys@,
            _ => Seq::empty(),
        }
    }

    /// The map from keys to values that the tree holds.
    pub open spec fn view(&self) -> Map<K, V> {
        Map::new(|k: K| has_key(self.entries(), k), |k: K| lookup(self.entries(), k).unwrap())
    }
}

/// The pairs of a well-formed tree are sorted by key.
pub proof fn lemma_entries_sorted<K: Key, V>(t: &BTree<K, V>)
    requires
        t.wf(),
    ensures
        sorted_pairs(t.entries()),
{
    lemma_wf_sorted(t.root.unwrap());
}

impl<K: Key, V> BTree<K, V> {
    /// The text of the first `m` levels, each level's labels followed by a
    /// blank line.
    pub closed spec fn levels_text(&self, m: nat) -> Seq<char>
        decreases m,
    {
        if m == 0 {
            Seq::empty()
        } else {
            self.levels_text((m - 1) as nat) + self.root.unwrap().level_text((m - 1) as nat) + seq![
                '\n',
                '\n',
            ]
        }
    }

    /// The tree drawn level by level: a newline, then for each level the
    /// labels of its nodes, each followed by `" | "`, and a blank line.
    pub closed spec fn text(&self) -> Seq<char> {
        seq!['\n'] + self.levels_text(self.height_spec())
    }
}

impl<K: Key, V> BTree<K, V> {
    /// The root's keys (see `NodeRef::node_keys`).
    pub closed spec fn root_keys(&self) -> Seq<K> {
        match self.root {
            Some(r) => r.node_keys(),
            None => Seq::empty(),
        }
    }
}

/// The first `m` levels are drawn before the rest.
proof fn lemma_levels_prefix<K: Key, V>(t: &BTree<K, V>, m: nat)
    requires
        m >= 1,
    ensures
        t.levels_text(1).is_prefix_of(t.levels_text(m)),
    decreases m,
{
    if m > 1 {
        lemma_levels_prefix(t, (m - 1) as nat);
        lemma_prefix_extend(
            t.levels_text(1),
            t.levels_text((m - 1) as nat),
            t.root.unwrap().level_text((m - 1) as nat) + seq!['\n', '\n'],
        );
        assert(t.levels_text(m) =~= t.levels_text((m - 1) as nat) + (t.root.unwrap().level_text(
            (m - 1) as nat,
        ) + seq!['\n', '\n']));
    } else {
        assert(t.levels_text(1).is_prefix_of(t.levels_text(1)));
    }
}

/// The drawing starts with the root alone on its line: every key of the
/// root, in increasing order, each in decimal with a comma.
pub proof fn lemma_text_first_line<K: Key, V>(t: &BTree<K, V>)
    requires
        t.wf(),
    ensures
        sorted_keys(t.root_keys()),
        first_line(t.root_keys()).is_prefix_of(t.text()),
{
    let r = t.root.unwrap();
    lemma_label_lists_keys(r);
    lemma_levels_prefix(t, t.height_spec());
    assert(t.levels_text(0) =~= Seq::<char>::empty());
    let l1 = t.levels_text(1);
    assert(l1 =~= r.label() + seq![' ', '|', ' '] + seq!['\n', '\n']);
    assert(first_line(t.root_keys()) =~= seq!['\n'] + l1);
    lemma_prefix_extend(seq!['\n'], seq!['\n'], Seq::<char>::empty());
    assert((seq!['\n'] + l1).is_prefix_of(seq!['\n'] + t.levels_text(t.height_spec()))) by {
        let big = seq!['\n'] + t.levels_text(t.height_spec());
        assert((seq!['\n'] + l1) =~= big.subrange(0, (seq!['\n'] + l1).len() as int));
    }
}

impl<K: Key, V> BTree<K, V> {
    /// Every leaf lies `height_spec() - 1` levels below the root.
    pub closed spec fn leaves_level(&self) -> bool {
        match self.root {
            Some(r) => r.leaves_at((self.height_spec() - 1) as nat),
            None => true,
        }
    }
}

/// All leaves of a well-formed tree lie at the same depth: one level above
/// the height counted down the first children.
pub proof fn lemma_leaves_level<K: Key, V>(t: &BTree<K, V>)
    requires
        t.wf(),
    ensures
        t.leaves_level(),
{
    lemma_leaves_at(t.root.unwrap());
}

/// A tree whose root is a leaf is drawn as one line: the leaf's keys in
/// parentheses, each followed by a comma, then `" | "` and a blank line.
pub proof fn lemma_text_one_leaf<K: Key, V>(t: &BTree<K, V>)
    requires
        t.wf(),
        t.height_spec() == 1,
    ensures
        t.text() == seq!['\n', '('] + keys_text(keys_of_pairs(t.entries())) + seq![
            ')',
            ' ',
            '|',
            ' ',
            '\n',
            '\n',
        ],
{
    let r = t.root.unwrap();
    assert(r is Leaf);
    assert(t.levels_text(0) == Seq::<char>::empty());
    assert(t.levels_text(1) == t.levels_text(0) + r.level_text(0) + seq!['\n', '\n']);
    assert(t.text() =~= seq!['\n', '('] + keys_text(keys_of_pairs(t.entries())) + seq![
        ')',
        ' ',
        '|',
        ' ',
        '\n',
        '\n',
    ]);
}

/// An insertion of a new key `k` with `v` makes the tree map `k` to `v`
/// and keeps every other key's value; a search for `k` that reaches a leaf
/// then gives `v`.
pub proof fn lemma_insert_then_search<K: Key, V>(
    before: &BTree<K, V>,
    after: &BTree<K, V>,
    k: K,
    v: V,
)
    requires
        before.wf(),
        !has_key(before.entries(), k),
        after.entries() == insert_sorted(before.entries(), k, v),
    ensures
        after@ == before@.insert(k, v),
        lookup(after.entries(), k) == Some(v),
{
    let e = before.entries();
    lemma_wf_sorted(before.root.unwrap());
    assert forall|k2: K| #[trigger] has_key(after.entries(), k2) <==> (has_key(e, k2) || k2 == k) by {
        lemma_has_key_insert_sorted(e, k, v, k2);
    }
    assert forall|k2: K| #[trigger] lookup(after.entries(), k2) == if k2 == k {
        Some(v)
    } else {
        lookup(e, k2)
    } by {
        lemma_lookup_insert_sorted(e, k, v, k2);
    }
    assert(after@ =~= before@.insert(k, v));
}

/// A tree whose root is a leaf sends every search to that leaf.
pub proof fn lemma_one_level_reaches<K: Key, V>(t: &BTree<K, V>, k: K)
    requires
        t.wf(),
        t.height_spec() == 1,
    ensures
        t.reaches(k),
{
}

/// Into a tree whose root is a leaf, every insertion is safe.
pub proof fn lemma_one_level_insert_safe<K: Key, V>(t: &BTree<K, V>, k: K)
    requires
        t.wf(),
        t.height_spec() == 1,
    ensures
        t.insert_safe(k),
{
}

/// A root above the two halves, split around `m`, of the old root.
proof fn lemma_new_root<K: Key, V>(l: NodeRef<K, V>, r: NodeRef<K, V>, m: K, n: InternalNode<K, V>)
    requires
        l.depth() == r.depth(),
        l.wf(),
        r.wf(),
        l.entries().len() > 0,
        r.entries().len() > 0,
        all_below(l.entries(), m.rank()),
        all_at_least(r.entries(), m.rank()),
        sorted_pairs(l.entries() + r.entries()),
        n.keys@ == seq![m],
        n.children@ == seq![l, r],
    ensures
        n.wf(),
        n.entries() == l.entries() + r.entries(),
        n.depth() == l.depth() + 1,
{
    let cs = n.children@;
    assert(cs =~= seq![l] + seq![r]);
    lemma_flatten_concat(seq![l], seq![r]);
    lemma_flatten_single(l);
    lemma_flatten_single(r);
    assert(cs[0] == l && cs[1] == r);
    assert(n.keys@[0] == m);
    assert forall|i: int| 0 <= i < cs.len() implies (#[trigger] cs[i]).wf() && cs[i].depth()
        == cs[0].depth() && cs[i].entries().len() > 0 by {
        assert(i == 0 || i == 1);
    }
    assert(all_below(cs[0].entries(), n.keys@[0].rank()));
    assert(all_at_least(cs[1].entries(), n.keys@[0].rank()));
}

/// Whether `key` is in the subtree, found by descending to the child that
/// covers it, the first child included.
fn node_contains<K: Key, V>(node: &NodeRef<K, V>, key: &K) -> (r: bool)
    requires
        node.wf(),
    ensures
        r == has_key(node.entries(), *key),
    decreases node.depth(),
{
    match node {
        NodeRef::Leaf(l) => {
            let found = find_pair(&l.key_val_pairs, key);
            proof {
                match found {
                    Ok(i) => {
                        K::lemma_rank_injective(l.key_val_pairs@[i as int].0, *key);
                        assert(l.key_val_pairs@[i as int].0 == *key);
                    },
                    Err(i) => {
                        assert forall|j: int| 0 <= j < l.key_val_pairs@.len() implies #[trigger] l.key_val_pairs@[j].0.rank()
                            != key.rank() by {
                        }
                        lemma_lookup_rank_absent(l.key_val_pairs@, *key);
                    },
                }
            }
            found.is_ok()
        },
        NodeRef::Internal(n) => {
            let found = find_key(&n.keys, key);
            let index = match found {
                Ok(i) => i + 1,
                Err(i) => i,
            };
            proof {
                lemma_route_index(n.keys@, *key, found, index as int);
                lemma_route_bounds(*n, index as int, *key);
                assert(n.children@[index as int].depth() == n.children@[0].depth());
                let cs = n.children@;
                let a = flatten_children(cs.take(index as int));
                let c = cs[index as int].entries();
                let b = flatten_children(cs.skip(index as int + 1));
                assert(n.entries() == a + c + b);
                if has_key(a + c + b, *key) {
                    let j = choose|j: int| 0 <= j < (a + c + b).len() && #[trigger] (a + c + b)[j].0 == *key;
                    if j < a.len() {
                        assert((a + c + b)[j] == a[j]);
                        assert(a[j].0.rank() < key.rank());
                    } else if j >= a.len() + c.len() {
                        assert((a + c + b)[j] == b[j - a.len() - c.len()]);
                        assert(b[j - a.len() - c.len()].0.rank() >= key.rank() + 1);
                    } else {
                        assert((a + c + b)[j] == c[j - a.len()]);
                    }
                }
                if has_key(c, *key) {
                    let j = choose|j: int| 0 <= j < c.len() && #[trigger] c[j].0 == *key;
                    assert((a + c + b)[a.len() + j] == c[j]);
                }
            }
            node_contains(&n.children[index], key)
        },
    }
}

fn collect_pairs<K: Key, V: Copy>(node: &NodeRef<K, V>, out: &mut Vec<(K, V)>)
    requires
        node.wf(),
    ensures
        final(out)@ == old(out)@ + node.entries(),
    decreases node.depth(),
{
    match node {
        NodeRef::Leaf(l) => {
            let mut i: usize = 0;
            while i < l.key_val_pairs.len()
                invariant
                    i <= l.key_val_pairs@.len(),
                    out@ == old(out)@ + l.key_val_pairs@.take(i as int),
                decreases l.key_val_pairs@.len() - i,
            {
                out.push(l.key_val_pairs[i]);
                proof {
                    assert(l.key_val_pairs@.take(i + 1) =~= l.key_val_pairs@.take(i as int).push(
                        l.key_val_pairs@[i as int],
                    ));
                }
                i += 1;
            }
            proof {
                assert(l.key_val_pairs@.take(i as int) =~= l.key_val_pairs@);
            }
        },
        NodeRef::Internal(n) => {
            let mut i: usize = 0;
            proof {
                assert(n.children@.take(0) =~= Seq::<NodeRef<K, V>>::empty());
                assert(old(out)@ + flatten_children(n.children@.take(0)) =~= old(out)@);
            }
            while i < n.children.len()
                invariant
                    n.wf(),
                    node.depth() == n.depth(),
                    i <= n.children@.len(),
                    out@ == old(out)@ + flatten_children(n.children@.take(i as int)),
                decreases n.children@.len() - i,
            {
                proof {
                    assert(n.children@[i as int].wf());
                    assert(n.children@[i as int].depth() == n.children@[0].depth());
                }
                collect_pairs(&n.children[i], out);
                proof {
                    let t = n.children@.take(i + 1);
                    assert(t.drop_last() =~= n.children@.take(i as int));
                    assert(t.last() == n.children@[i as int]);
                    assert(out@ =~= old(out)@ + flatten_children(t));
                }
                i += 1;
            }
            proof {
                assert(n.children@.take(i as int) =~= n.children@);
            }
        },
    }
}

impl<K: Key, V: Copy> BTree<K, V> {
    /// An empty tree: a single empty leaf.
    pub fn new() -> (t: Self)
        ensures
            t.wf(),
            t.entries() == Seq::<(K, V)>::empty(),
            t.height_spec() == 1,
    {
        Self { root: Some(NodeRef::Leaf(LeafNode::new())) }
    }

    /// Inserts the pair. A root that splits gets a new root above its two
    /// halves.
    #[verifier::spinoff_prover]
    #[verifier::rlimit(60)]
    pub fn insert(&mut self, key: K, val: V)
        requires
            old(self).wf(),
            !has_key(old(self).entries(), key),
        ensures
            final(self).wf(),
            final(self).entries() == insert_sorted(old(self).entries(), key, val),
            old(self).height_spec() <= final(self).height_spec() <= old(self).height_spec() + 1,
            old(self).height_spec() == 1 ==> (final(self).height_spec() == 1 <==> old(
                self,
            ).entries().len() < MAX_KEYS),
            // the height grows only when the root splits, under a new root
            // with one separator
            final(self).height_spec() == old(self).height_spec() + 1
                ==> final(self).root_separators().len() == 1,
            final(self).height_spec() == old(self).height_spec() + 1 && old(self).height_spec() == 1
                ==> forall|k: K| final(self).root_separators()[0].rank() <= k.rank()
                ==> #[trigger] final(self).reaches(k),
            // an insertion that splits no internal node, and not the root,
            // keeps every search that reached a leaf reaching one
            old(self).insert_safe(key) && final(self).height_spec() == old(self).height_spec()
                ==> forall|k: K| #[trigger] old(self).reaches(k) ==> final(self).reaches(k),
    {
        let ghost o_root = old(self).root.unwrap();
        let mut root = self.root.take().unwrap();
        let res = match &mut root {
            NodeRef::Internal(the_node) => the_node.insert(key, val),
            NodeRef::Leaf(leaf) => leaf.insert(key, val),
        };
        match res {
            Ok(()) => {
                self.root = Some(root);
                proof {
                    if old(self).insert_safe(key) {
                        assert forall|k: K| #[trigger] old(self).reaches(k) implies self.reaches(k) by {
                            assert(o_root.reaches(k));
                            if let NodeRef::Internal(n0) = o_root {
                                assert(n0.insert_safe(key));
                                assert(n0.reaches(k));
                                if let NodeRef::Internal(n1) = root {
                                    assert(n1.reaches(k));
                                }
                            }
                        }
                    }
                }
            },
            Err((root_split, median)) => {
                let new_root = InternalNode { keys: vec![median], children: vec![root, root_split] };
                proof {
                    lemma_wf_sorted(old(self).root.unwrap());
                    lemma_insert_sorted_sorted(old(self).entries(), key, val);
                    assert(new_root.keys@ =~= seq![median]);
                    assert(new_root.children@ =~= seq![root, root_split]);
                    lemma_new_root(root, root_split, median, new_root);
                    if old(self).height_spec() == 1 {
                        assert(old(self).root.unwrap() is Leaf);
                        assert(root_split is Leaf);
                        assert(new_root.keys@[0] == median);
                        assert forall|k: K| median.rank() <= k.rank() implies #[trigger] new_root.reaches(
                            k,
                        ) by {
                            crate::ordered::lemma_count_keys_at_most_exact(
                                new_root.keys@,
                                1,
                                k.rank(),
                            );
                            assert(new_root.children@[1] == root_split);
                        }
                    }
                }
                self.root = Some(NodeRef::Internal(new_root));
                proof {
                    assert(self.root_separators() == new_root.keys@);
                    if old(self).height_spec() == 1 {
                        assert forall|k: K| self.root_separators()[0].rank() <= k.rank() implies #[trigger] self.reaches(
                            k,
                        ) by {
                            assert(new_root.reaches(k));
                        }
                    }
                }
            },
        }
    }

    /// The value stored under `key`, found by descending from the root.
    pub fn search(&self, key: K) -> (r: Option<V>)
        requires
            self.wf(),
        ensures
            r == if self.reaches(key) {
                lookup(self.entries(), key)
            } else {
                None
            },
    {
        match self.root.as_ref().unwrap() {
            NodeRef::Internal(node) => node.search(key),
            NodeRef::Leaf(node) => node.search(key),
        }
    }

    /// The number of levels, counted down the first child of each node.
    pub fn height(&self) -> (h: usize)
        requires
            self.wf(),
            self.height_spec() <= usize::MAX,
        ensures
            h == self.height_spec(),
    {
        let mut height: usize = 0;
        let mut cur: Option<&NodeRef<K, V>> = self.root.as_ref();
        loop
            invariant
                self.wf(),
                self.height_spec() <= usize::MAX,
                match cur {
                    Some(c) => c.wf() && height + c.depth() + 1 == self.height_spec(),
                    None => height == self.height_spec(),
                },
            ensures
                height == self.height_spec(),
            decreases
                match cur {
                    Some(c) => c.depth() + 1,
                    None => 0,
                },
        {
            match cur {
                None => break,
                Some(NodeRef::Internal(the_node)) => {
                    proof {
                        assert(the_node.children@[0].wf());
                    }
                    cur = Some(&the_node.children[0]);
                },
                Some(NodeRef::Leaf(_)) => {
                    cur = None;
                },
            }
            height += 1;
        }
        height
    }

    /// The tree drawn level by level (see `text`).
    pub fn to_string(&self) -> (s: String)
        requires
            self.wf(),
            self.height_spec() <= usize::MAX,
        ensures
            s@ == self.text(),
            first_line(self.root_keys()).is_prefix_of(s@),
            sorted_keys(self.root_keys()),
    {
        proof {
            lemma_text_first_line(self);
        }
        let h = self.height();
        let mut out = String::new();
        out.append("\n");
        let mut d: usize = 0;
        proof {
            reveal_strlit("\n");
            assert(out@ =~= seq!['\n'] + self.levels_text(0));
        }
        while d < h
            invariant
                self.wf(),
                h == self.height_spec(),
                d <= h,
                out@ == seq!['\n'] + self.levels_text(d as nat),
            decreases h - d,
        {
            write_level(self.root.as_ref().unwrap(), d, &mut out);
            out.append("\n\n");
            proof {
                reveal_strlit("\n\n");
                assert(out@ =~= seq!['\n'] + self.levels_text((d + 1) as nat));
            }
            d += 1;
        }
        out
    }

    /// Whether the tree holds `key`.
    pub fn contains_key(&self, key: K) -> (r: bool)
        requires
            self.wf(),
        ensures
            r == has_key(self.entries(), key),
    {
        node_contains(self.root.as_ref().unwrap(), &key)
    }

    /// The pairs of the tree, in key order.
    pub fn pairs(&self) -> (r: Vec<(K, V)>)
        requires
            self.wf(),
        ensures
            r@ == self.entries(),
    {
        let mut pairs: Vec<(K, V)> = Vec::new();
        collect_pairs(self.root.as_ref().unwrap(), &mut pairs);
        proof {
            assert(pairs@ =~= self.entries());
        }
        pairs
    }

    /// An iterator over the values, in key order.
    pub fn iter(&self) -> (it: BTreeIter<K, V>)
        requires
            self.wf(),
        ensures
            it.remaining() == values_of(self.entries()),
            it.wf() == (self.entries().len() > 0),
    {
        let mut pairs: Vec<(K, V)> = Vec::new();
        collect_pairs(self.root.as_ref().unwrap(), &mut pairs);
        proof {
            assert(pairs@ =~= self.entries());
            assert(pairs@.skip(0) =~= pairs@);
        }
        BTreeIter { pairs, current_index: 0 }
    }
}

/// An iterator over the values of a tree, in key order.
pub struct BTreeIter<K, V> {
    pairs: Vec<(K, V)>,
    current_index: usize,
}

impl<K, V> BTreeIter<K, V> {
    /// The values that the iterator has yet to give.
    pub closed spec fn remaining(&self) -> Seq<V> {
        values_of(self.pairs@.skip(self.current_index as int))
    }

    /// The iterator can be advanced: its tree was not empty.
    pub closed spec fn wf(&self) -> bool {
        &&& self.pairs@.len() > 0
        &&& self.current_index <= self.pairs@.len()
    }
}

impl<K, V: Copy> BTreeIter<K, V> {
    /// The next value, if any is left.
    pub fn next(&mut self) -> (r: Option<V>)
        requires
            old(self).wf(),
        ensures
            final(self).wf(),
            old(self).remaining().len() == 0 ==> r is None && final(self).remaining()
                == old(self).remaining(),
            old(self).remaining().len() > 0 ==> r == Some(old(self).remaining()[0])
                && final(self).remaining() == old(self).remaining().drop_first(),
    {
        if self.current_index < self.pairs.len() {
            let v = self.pairs[self.current_index].1;
            self.current_index = self.current_index + 1;
            proof {
                assert(old(self).pairs@.skip(old(self).current_index as int).drop_first()
                    =~= self.pairs@.skip(self.current_index as int));
                assert(self.remaining() =~= old(self).remaining().drop_first());
            }
            Some(v)
        } else {
            None
        }
    }
}

} // verus!
