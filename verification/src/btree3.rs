//! A B+ tree from `u32` keys to `char` values, sized to pages. A leaf takes
//! new pairs at its end, unsorted ("dirty"), and sorts them when it has to
//! split or when the whole tree is fixed.
use vstd::prelude::*;
use crate::ordered::{
    Key, sorted_pairs, sorted_keys, all_below, all_at_least, has_key, distinct_keys,
    count_keys_at_most, lemma_count_keys_at_most_exact, keys_text, keys_of_pairs, write_pair_keys,
    first_line, lemma_prefix_extend,
};
use crate::page::{PAGE_SIZE, PAGE_HEADER_SIZE};

verus! {

/// The bytes that one key and one child reference take in a node.
pub const KEY_AND_CHILD_SIZE: usize = 24;

/// The most entries a node holds: as many key/child slots as fit in a page
/// after its header.
pub const MAX_KEYS: usize = (PAGE_SIZE - PAGE_HEADER_SIZE) / KEY_AND_CHILD_SIZE;

pub enum NodeRef {
    Internal(InternalNode),
    Leaf(LeafNode),
}

/// A node whose entry `i` pairs the smallest key that child `i` may hold
/// with that child.
pub struct InternalNode {
    data: Vec<(u32, NodeRef)>,
}

/// A node that holds key/value pairs; they are sorted by key unless the
/// leaf is dirty.
pub struct LeafNode {
    data: Vec<(u32, char)>,
    dirty: bool,
}

/// The pairs of the children in `d`, from the first child to the last.
pub closed spec fn flatten(d: Seq<(u32, NodeRef)>) -> Seq<(u32, char)>
    decreases d,
{
    if d.len() == 0 {
        Seq::empty()
    } else {
        flatten(d.drop_last()) + d.last().1.entries()
    }
}

/// The keys of the entries of an internal node.
pub open spec fn data_keys(d: Seq<(u32, NodeRef)>) -> Seq<u32> {
    Seq::new(d.len(), |i: int| d[i].0)
}

/// The map that a sequence of pairs with distinct keys stands for.
pub open spec fn pair_map(e: Seq<(u32, char)>) -> Map<u32, char> {
    Map::new(
        |k: u32| exists|c: char| e.contains((k, c)),
        |k: u32| choose|c: char| e.contains((k, c)),
    )
}

/// `n` holds the pairs of `o` and the pair `x`, and no other.
pub open spec fn pairs_plus(n: Seq<(u32, char)>, o: Seq<(u32, char)>, x: (u32, char)) -> bool {
    forall|y: (u32, char)| n.contains(y) <==> (o.contains(y) || y == x)
}

/// `n` holds exactly the pairs of `o`.
pub open spec fn same_pairs(n: Seq<(u32, char)>, o: Seq<(u32, char)>) -> bool {
    forall|y: (u32, char)| n.contains(y) <==> o.contains(y)
}

impl NodeRef {
    /// The node's keys in parentheses, each followed by a comma.
    pub closed spec fn label(self) -> Seq<char> {
        match self {
            NodeRef::Internal(n) => seq!['('] + keys_text(data_keys(n.data@)) + seq![')'],
            NodeRef::Leaf(l) => seq!['('] + keys_text(keys_of_pairs(l.data@)) + seq![')'],
        }
    }

    /// The labels of the nodes `d` levels below this one, from left to
    /// right, each followed by `" | "`.
    pub closed spec fn level_text(self, d: nat) -> Seq<char>
        decreases self,
    {
        if d == 0 {
            self.label() + seq![' ', '|', ' ']
        } else {
            match self {
                NodeRef::Internal(n) => children_level_text(n.data@, (d - 1) as nat),
                NodeRef::Leaf(_) => Seq::empty(),
            }
        }
    }
}

impl NodeRef {
    /// The node's keys: the key of each entry of an internal node, the keys
    /// of the pairs of a leaf, in the order they are stored.
    pub closed spec fn node_keys(self) -> Seq<u32> {
        match self {
            NodeRef::Internal(n) => data_keys(n.data@),
            NodeRef::Leaf(l) => keys_of_pairs(l.data@),
        }
    }
}

/// A node is drawn as all its keys, in the order they are stored, in
/// parentheses, each in decimal with a comma; the keys of a well-formed
/// internal node increase, and those of a well-formed leaf are distinct.
pub proof fn lemma_label_lists_keys(n: NodeRef)
    ensures
        n.label() == seq!['('] + keys_text(n.node_keys()) + seq![')'],
        n is Leaf ==> n.node_keys() == keys_of_pairs(n.entries()),
        n matches NodeRef::Internal(i) ==> n.node_keys() == data_keys(i.entries_data()),
        n.wf() && n is Internal ==> sorted_keys(n.node_keys()),
        n.wf() ==> forall|a: int, b: int|
            0 <= a < b < n.node_keys().len() ==> #[trigger] n.node_keys()[a] != #[trigger] n.node_keys()[b],
{
    if n.wf() {
        lemma_node_facts(n);
        match n {
            NodeRef::Internal(i) => {
                lemma_internal_wf(n);
                lemma_data_wf_child(i.data@, 0);
            },
            NodeRef::Leaf(l) => {
                let ks = n.node_keys();
                let ps = l.data@;
                assert forall|a: int, b: int| 0 <= a < b < ks.len() implies #[trigger] ks[a] != #[trigger] ks[b] by {
                    assert(ks[a] == ps[a].0 && ks[b] == ps[b].0);
                    assert(ps[a].0.rank() != ps[b].0.rank());
                }
            },
        }
    }
}

/// The nodes below the children `a + b` are drawn as those below `a`, then
/// those below `b`.
pub proof fn lemma_children_level_concat(a: Seq<(u32, NodeRef)>, b: Seq<(u32, NodeRef)>, d: nat)
    ensures
        children_level_text(a + b, d) == children_level_text(a, d) + children_level_text(b, d),
    decreases b.len(),
{
    if b.len() == 0 {
        assert(a + b =~= a);
        assert(children_level_text(a, d) + children_level_text(b, d) =~= children_level_text(a, d));
    } else {
        assert((a + b).drop_last() =~= a + b.drop_last());
        assert((a + b).last() == b.last());
        lemma_children_level_concat(a, b.drop_last(), d);
        assert(children_level_text(a + b, d) =~= children_level_text(a, d) + children_level_text(b, d));
    }
}

/// The children are drawn from left to right: those before the `i`-th, then
/// the `i`-th, then those after it.
pub proof fn lemma_children_drawn_in_order(cs: Seq<(u32, NodeRef)>, i: int, d: nat)
    requires
        0 <= i < cs.len(),
    ensures
        children_level_text(cs, d) == children_level_text(cs.take(i), d) + cs[i].1.level_text(d)
            + children_level_text(cs.skip(i + 1), d),
{
    let s1 = seq![cs[i]];
    assert(cs =~= cs.take(i) + s1 + cs.skip(i + 1));
    lemma_children_level_concat(cs.take(i) + s1, cs.skip(i + 1), d);
    lemma_children_level_concat(cs.take(i), s1, d);
    assert(s1.drop_last() =~= Seq::<(u32, NodeRef)>::empty());
    assert(s1.drop_last() == Seq::<(u32, NodeRef)>::empty());
    assert(s1.last() == cs[i]);
    assert(children_level_text(Seq::<(u32, NodeRef)>::empty(), d) == Seq::<char>::empty());
    assert(children_level_text(s1, d) == children_level_text(s1.drop_last(), d) + s1.last().1.level_text(d));
    assert(children_level_text(s1, d) =~= cs[i].1.level_text(d));
}

/// The labels of the nodes `d` levels below the children in `cs`, from the
/// first child to the last.
pub closed spec fn children_level_text(cs: Seq<(u32, NodeRef)>, d: nat) -> Seq<char>
    decreases cs,
{
    if cs.len() == 0 {
        Seq::empty()
    } else {
        children_level_text(cs.drop_last(), d) + cs.last().1.level_text(d)
    }
}

/// Appends the key of each entry of `d` in decimal, followed by a comma.
fn write_data_keys(d: &Vec<(u32, NodeRef)>, out: &mut String)
    ensures
        final(out)@ == old(out)@ + keys_text(data_keys(d@)),
{
    let ghost o = out@;
    let ghost ks = data_keys(d@);
    let mut i: usize = 0;
    proof {
        reveal_strlit(",");
        assert(ks.take(0) =~= Seq::<u32>::empty());
    }
    while i < d.len()
        invariant
            i <= d@.len(),
            ks == data_keys(d@),
            out@ == o + keys_text(ks.take(i as int)),
        decreases d@.len() - i,
    {
        let t = d[i].0.to_text();
        out.append(t.as_str());
        out.append(",");
        proof {
            reveal_strlit(",");
            assert(ks.take(i + 1).drop_last() =~= ks.take(i as int));
            assert(ks.take(i + 1).last() == d@[i as int].0);
        }
        i += 1;
    }
    proof {
        assert(ks.take(i as int) =~= ks);
    }
}

/// Appends the labels of the nodes `d` levels below `node`.
fn write_level(node: &NodeRef, d: usize, out: &mut String)
    ensures
        final(out)@ == old(out)@ + node.level_text(d as nat),
    decreases d,
{
    if d == 0 {
        match node {
            NodeRef::Internal(n) => {
                out.append("(");
                write_data_keys(&n.data, out);
                out.append(")");
            },
            NodeRef::Leaf(l) => {
                out.append("(");
                write_pair_keys(&l.data, out);
                out.append(")");
            },
        }
        out.append(" | ");
        proof {
            reveal_strlit("(");
            reveal_strlit(")");
            reveal_strlit(" | ");
        }
    } else {
        match node {
            NodeRef::Internal(n) => {
                let ghost o = out@;
                let ghost cs = n.data@;
                let mut i: usize = 0;
                proof {
                    assert(cs.take(0) =~= Seq::<(u32, NodeRef)>::empty());
                }
                while i < n.data.len()
                    invariant
                        cs == n.data@,
                        i <= cs.len(),
                        d > 0,
                        out@ == o + children_level_text(cs.take(i as int), (d - 1) as nat),
                    decreases cs.len() - i,
                {
                    write_level(&n.data[i].1, d - 1, out);
                    proof {
                        assert(cs.take(i + 1).drop_last() =~= cs.take(i as int));
                        assert(cs.take(i + 1).last() == cs[i as int]);
                    }
                    i += 1;
                }
                proof {
                    assert(cs.take(i as int) =~= cs);
                }
            },
            NodeRef::Leaf(_) => {
                proof {
                    assert(out@ =~= out@ + Seq::<char>::empty());
                }
            },
        }
    }
}

impl NodeRef {
    /// The two subtrees have the same nodes: internal nodes with the same
    /// keys over children of the same shape, and leaves that hold the same
    /// pairs, in whatever order.
    pub closed spec fn same_shape(self, other: NodeRef) -> bool
        decreases self,
    {
        match (self, other) {
            (NodeRef::Internal(a), NodeRef::Internal(b)) => {
                &&& a.data@.len() == b.data@.len()
                &&& forall|i: int|
                    0 <= i < a.data@.len() ==> (#[trigger] a.data@[i]).0 == b.data@[i].0
                        && a.data@[i].1.same_shape(b.data@[i].1)
            },
            (NodeRef::Leaf(a), NodeRef::Leaf(b)) => same_pairs(a.data@, b.data@),
            _ => false,
        }
    }
}

impl NodeRef {
    /// The pairs of this subtree, leaf after leaf, each leaf in its own order.
    pub closed spec fn entries(self) -> Seq<(u32, char)>
        decreases self,
    {
        match self {
            NodeRef::Internal(n) => flatten(n.data@),
            NodeRef::Leaf(l) => l.data@,
        }
    }

    /// The number of internal levels above the leaves.
    pub closed spec fn depth(self) -> nat
        decreases self,
    {
        match self {
            NodeRef::Internal(n) => if n.data@.len() > 0 {
                n.data@[0].1.depth() + 1
            } else {
                1
            },
            NodeRef::Leaf(_) => 0,
        }
    }

    /// The first key of the node.
    pub closed spec fn lower(self) -> u32 {
        match self {
            NodeRef::Internal(n) => n.data@[0].0,
            NodeRef::Leaf(l) => l.data@[0].0,
        }
    }

    /// The subtree is well formed.
    pub closed spec fn wf(self) -> bool
        decreases self,
    {
        match self {
            NodeRef::Internal(n) => 1 <= n.data@.len() <= MAX_KEYS && data_wf(n.data@),
            NodeRef::Leaf(l) => l.wf(),
        }
    }

    /// No leaf of the subtree is dirty.
    pub closed spec fn fixed(self) -> bool
        decreases self,
    {
        match self {
            NodeRef::Internal(n) => n.fixed(),
            NodeRef::Leaf(l) => !l.dirty,
        }
    }

    /// A search for `k` reaches a leaf: on its way, `k` is never below the
    /// first key of an internal node.
    pub closed spec fn reaches(self, k: u32) -> bool
        decreases self,
    {
        match self {
            NodeRef::Internal(n) => n.reaches(k),
            NodeRef::Leaf(_) => true,
        }
    }

    /// A search for `k` meets no dirty leaf.
    pub closed spec fn ready(self, k: u32) -> bool
        decreases self,
    {
        match self {
            NodeRef::Internal(n) => n.ready(k),
            NodeRef::Leaf(l) => !l.dirty,
        }
    }
}

/// The entries `d` of an internal node fit together: keys increase, each
/// child is well formed, holds pairs, sits at the same depth, and holds the
/// keys from its own key up to the next one.
pub closed spec fn data_wf(d: Seq<(u32, NodeRef)>) -> bool
    decreases d,
{
    &&& sorted_keys(data_keys(d))
    &&& distinct_keys(flatten(d))
    &&& forall|i: int| 0 <= i < d.len() ==> (#[trigger] d[i]).1.wf()
    &&& forall|i: int| 0 <= i < d.len() ==> (#[trigger] d[i]).1.depth() == d[0].1.depth()
    &&& forall|i: int| 0 <= i < d.len() ==> (#[trigger] d[i]).1.entries().len() > 0
    &&& forall|i: int| 0 <= i < d.len() ==> all_at_least((#[trigger] d[i]).1.entries(), d[i].0 as int)
    &&& forall|i: int|
        0 <= i < d.len() - 1 ==> all_below(#[trigger] d[i].1.entries(), d[i + 1].0 as int)
    &&& forall|i: int|
        0 <= i < d.len() ==> (#[trigger] d[i]).1 is Internal ==> d[i].1.lower() <= d[i].0
}

/// Each entry's key is a key of its child, and so on down: with `data_wf`,
/// which puts every key of a child at or above its entry's key, each
/// entry's key is the least key below it.
pub closed spec fn keys_least_data(d: Seq<(u32, NodeRef)>) -> bool
    decreases d,
{
    forall|i: int|
        0 <= i < d.len() ==> has_key((#[trigger] d[i]).1.entries(), d[i].0) && d[i].1.keys_least()
}

impl NodeRef {
    /// In every internal node of the subtree, each entry's key is a key of
    /// its child.
    pub closed spec fn keys_least(self) -> bool
        decreases self,
    {
        match self {
            NodeRef::Internal(n) => keys_least_data(n.data@),
            NodeRef::Leaf(_) => true,
        }
    }
}

/// A key of some pairs is a key of the pairs with one more.
proof fn lemma_has_key_plus(n: Seq<(u32, char)>, o: Seq<(u32, char)>, x: (u32, char), k: u32)
    requires
        pairs_plus(n, o, x),
        has_key(o, k),
    ensures
        has_key(n, k),
{
    let j = choose|j: int| 0 <= j < o.len() && #[trigger] o[j].0 == k;
    assert(o.contains(o[j]));
    assert(n.contains(o[j]));
    let q = choose|q: int| 0 <= q < n.len() && n[q] == o[j];
}

/// A key of a split's pairs that lies below the separator is a key of the
/// left half.
proof fn lemma_has_key_left(
    l: Seq<(u32, char)>,
    r: Seq<(u32, char)>,
    o: Seq<(u32, char)>,
    x: (u32, char),
    k: u32,
    m: u32,
)
    requires
        pairs_plus(l + r, o, x),
        has_key(o, k),
        all_at_least(r, m as int),
        k < m,
    ensures
        has_key(l, k),
{
    lemma_has_key_plus(l + r, o, x, k);
    let j = choose|j: int| 0 <= j < (l + r).len() && #[trigger] (l + r)[j].0 == k;
    if j >= l.len() {
        assert((l + r)[j] == r[j - l.len()]);
        assert(r[j - l.len()].0.rank() >= m);
    } else {
        assert((l + r)[j] == l[j]);
    }
}

/// A key of the child at `i` is a key of all the children's pairs.
proof fn lemma_has_key_flatten(d: Seq<(u32, NodeRef)>, i: int, k: u32)
    requires
        0 <= i < d.len(),
        has_key(d[i].1.entries(), k),
    ensures
        has_key(flatten(d), k),
{
    lemma_flatten_split(d, i);
    let a = flatten(d.take(i));
    let c = d[i].1.entries();
    let b = flatten(d.skip(i + 1));
    let j = choose|j: int| 0 <= j < c.len() && #[trigger] c[j].0 == k;
    assert((a + c + b)[a.len() + j] == c[j]);
}

/// A leaf's first key is one of its keys.
proof fn lemma_leaf_lower(c: NodeRef)
    requires
        c is Leaf,
        c.entries().len() > 0,
    ensures
        has_key(c.entries(), c.lower()),
{
    assert(c.entries()[0].0 == c.lower());
}

/// Two sequences with the same pairs have the same keys.
proof fn lemma_has_key_same(n: Seq<(u32, char)>, o: Seq<(u32, char)>, k: u32)
    requires
        same_pairs(n, o),
        has_key(o, k),
    ensures
        has_key(n, k),
{
    let j = choose|j: int| 0 <= j < o.len() && #[trigger] o[j].0 == k;
    assert(o.contains(o[j]));
    assert(n.contains(o[j]));
    let q = choose|q: int| 0 <= q < n.len() && n[q] == o[j];
}

/// Replacing the child at `idx` by one that keeps the entry's key and the
/// property, and inserting after it an entry whose key is a key of its
/// child, keeps the property.
proof fn lemma_keys_least_insert(d: Seq<(u32, NodeRef)>, idx: int, c2: NodeRef, nw: Option<(u32, NodeRef)>)
    requires
        keys_least_data(d),
        0 <= idx < d.len(),
        has_key(c2.entries(), d[idx].0),
        c2.keys_least(),
        nw matches Some(e) ==> has_key(e.1.entries(), e.0) && e.1.keys_least(),
    ensures
        keys_least_data(
            match nw {
                Some(e) => d.update(idx, (d[idx].0, c2)).insert(idx + 1, e),
                None => d.update(idx, (d[idx].0, c2)),
            },
        ),
{
    let u = d.update(idx, (d[idx].0, c2));
    match nw {
        Some(e) => {
            let n = u.insert(idx + 1, e);
            assert forall|i: int| 0 <= i < n.len() implies has_key((#[trigger] n[i]).1.entries(), n[i].0)
                && n[i].1.keys_least() by {
                if i < idx {
                    assert(n[i] == d[i]);
                } else if i > idx + 1 {
                    assert(n[i] == d[i - 1]);
                }
            }
        },
        None => {
            assert forall|i: int| 0 <= i < u.len() implies has_key((#[trigger] u[i]).1.entries(), u[i].0)
                && u[i].1.keys_least() by {
                if i != idx {
                    assert(u[i] == d[i]);
                }
            }
        },
    }
}

/// The property holds of every run of entries of a sequence that has it.
proof fn lemma_keys_least_sub(d: Seq<(u32, NodeRef)>, lo: int, hi: int)
    requires
        keys_least_data(d),
        0 <= lo <= hi <= d.len(),
    ensures
        keys_least_data(d.subrange(lo, hi)),
{
    let n = d.subrange(lo, hi);
    assert forall|i: int| 0 <= i < n.len() implies has_key((#[trigger] n[i]).1.entries(), n[i].0)
        && n[i].1.keys_least() by {
        assert(n[i] == d[lo + i]);
    }
}

impl InternalNode {
    pub closed spec fn entries(self) -> Seq<(u32, char)> {
        flatten(self.data@)
    }

    pub closed spec fn depth(self) -> nat {
        if self.data@.len() > 0 {
            self.data@[0].1.depth() + 1
        } else {
            1
        }
    }

    /// The first key of the node.
    pub closed spec fn lower(self) -> u32 {
        self.data@[0].0
    }

    /// The entries: each child with the least key it may hold.
    pub closed spec fn entries_data(self) -> Seq<(u32, NodeRef)> {
        self.data@
    }

    /// One more than the index of the child that covers `k`.
    pub closed spec fn route(self, k: u32) -> int {
        count_keys_at_most(data_keys(self.data@), k as int) as int
    }

    pub closed spec fn wf(self) -> bool {
        &&& 1 <= self.data@.len() <= MAX_KEYS
        &&& data_wf(self.data@)
    }

    pub closed spec fn fixed(self) -> bool
        decreases self,
    {
        forall|i: int| 0 <= i < self.data@.len() ==> (#[trigger] self.data@[i]).1.fixed()
    }

    pub closed spec fn reaches(self, k: u32) -> bool
        decreases self,
    {
        let i = self.route(k);
        if 1 <= i <= self.data@.len() {
            self.data@[i - 1].1.reaches(k)
        } else {
            false
        }
    }

    pub closed spec fn ready(self, k: u32) -> bool
        decreases self,
    {
        let i = self.route(k);
        if 1 <= i <= self.data@.len() {
            self.data@[i - 1].1.ready(k)
        } else {
            true
        }
    }
}

impl LeafNode {
    pub closed spec fn entries(self) -> Seq<(u32, char)> {
        self.data@
    }

    pub closed spec fn is_dirty(self) -> bool {
        self.dirty
    }

    pub closed spec fn wf(self) -> bool {
        &&& self.data@.len() <= MAX_KEYS
        &&& distinct_keys(self.data@)
        &&& !self.dirty ==> sorted_pairs(self.data@)
    }
}

/// What the map gives for `k`, if anything.
pub open spec fn map_get(m: Map<u32, char>, k: u32) -> Option<char> {
    if m.contains_key(k) {
        Some(m[k])
    } else {
        None
    }
}

// ---------------------------------------------------------------------------
// Lemmas on the pairs of a sequence of children.

proof fn lemma_flatten_concat(a: Seq<(u32, NodeRef)>, b: Seq<(u32, NodeRef)>)
    ensures
        flatten(a + b) == flatten(a) + flatten(b),
    decreases b.len(),
{
    if b.len() == 0 {
        assert(a + b =~= a);
        assert(flatten(b) =~= Seq::<(u32, char)>::empty());
        assert(flatten(a) + flatten(b) =~= flatten(a));
    } else {
        assert((a + b).drop_last() =~= a + b.drop_last());
        assert((a + b).last() == b.last());
        lemma_flatten_concat(a, b.drop_last());
        assert(flatten(a + b) =~= flatten(a) + flatten(b));
    }
}

proof fn lemma_flatten_single(x: (u32, NodeRef))
    ensures
        flatten(seq![x]) == x.1.entries(),
{
    let s = seq![x];
    assert(s.drop_last() =~= Seq::<(u32, NodeRef)>::empty());
    assert(s.last() == x);
    assert(flatten(s.drop_last()) =~= Seq::<(u32, char)>::empty());
    assert(flatten(s) =~= x.1.entries());
}

proof fn lemma_flatten_split(d: Seq<(u32, NodeRef)>, i: int)
    requires
        0 <= i < d.len(),
    ensures
        flatten(d) == flatten(d.take(i)) + d[i].1.entries() + flatten(d.skip(i + 1)),
{
    assert(d =~= d.take(i) + seq![d[i]] + d.skip(i + 1));
    lemma_flatten_concat(d.take(i) + seq![d[i]], d.skip(i + 1));
    lemma_flatten_concat(d.take(i), seq![d[i]]);
    lemma_flatten_single(d[i]);
}

proof fn lemma_flatten_all_below(d: Seq<(u32, NodeRef)>, r: int)
    requires
        forall|i: int| 0 <= i < d.len() ==> all_below(#[trigger] d[i].1.entries(), r),
    ensures
        all_below(flatten(d), r),
    decreases d.len(),
{
    if d.len() > 0 {
        let p = d.drop_last();
        assert forall|i: int| 0 <= i < p.len() implies all_below(#[trigger] p[i].1.entries(), r) by {
            assert(p[i] == d[i]);
        }
        lemma_flatten_all_below(p, r);
        assert(all_below(d[d.len() - 1].1.entries(), r));
        let f = flatten(d);
        let a = flatten(p);
        let b = d.last().1.entries();
        assert(f == a + b);
        assert forall|j: int| 0 <= j < f.len() implies #[trigger] f[j].0.rank() < r by {
            if j < a.len() {
                assert(f[j] == a[j]);
            } else {
                assert(f[j] == b[j - a.len()]);
            }
        }
    }
}

proof fn lemma_flatten_all_at_least(d: Seq<(u32, NodeRef)>, r: int)
    requires
        forall|i: int| 0 <= i < d.len() ==> all_at_least(#[trigger] d[i].1.entries(), r),
    ensures
        all_at_least(flatten(d), r),
    decreases d.len(),
{
    if d.len() > 0 {
        let p = d.drop_last();
        assert forall|i: int| 0 <= i < p.len() implies all_at_least(#[trigger] p[i].1.entries(), r) by {
            assert(p[i] == d[i]);
        }
        lemma_flatten_all_at_least(p, r);
        assert(all_at_least(d[d.len() - 1].1.entries(), r));
        let f = flatten(d);
        let a = flatten(p);
        let b = d.last().1.entries();
        assert(f == a + b);
        assert forall|j: int| 0 <= j < f.len() implies #[trigger] f[j].0.rank() >= r by {
            if j < a.len() {
                assert(f[j] == a[j]);
            } else {
                assert(f[j] == b[j - a.len()]);
            }
        }
    }
}

/// Two sequences with distinct keys, every key of the first below every key
/// of the second, concatenate to one with distinct keys.
proof fn lemma_distinct_concat(x: Seq<(u32, char)>, y: Seq<(u32, char)>, r: int)
    requires
        distinct_keys(x),
        distinct_keys(y),
        all_below(x, r),
        all_at_least(y, r),
    ensures
        distinct_keys(x + y),
{
    let z = x + y;
    assert forall|i: int, j: int| #![trigger z[i], z[j]] 0 <= i < j < z.len() implies z[i].0.rank()
        != z[j].0.rank() by {
        if j < x.len() {
            assert(z[i] == x[i] && z[j] == x[j]);
        } else if i >= x.len() {
            assert(z[i] == y[i - x.len()] && z[j] == y[j - x.len()]);
        } else {
            assert(z[i] == x[i] && z[j] == y[j - x.len()]);
        }
    }
}

proof fn lemma_sorted_subrange(e: Seq<(u32, char)>, lo: int, hi: int)
    requires
        sorted_pairs(e),
        0 <= lo <= hi <= e.len(),
    ensures
        sorted_pairs(e.subrange(lo, hi)),
{
    let s = e.subrange(lo, hi);
    assert forall|i: int, j: int| #![trigger s[i], s[j]] 0 <= i < j < s.len() implies s[i].0.rank()
        < s[j].0.rank() by {
        assert(s[i] == e[lo + i] && s[j] == e[lo + j]);
    }
}

proof fn lemma_has_key_contains(e: Seq<(u32, char)>, k: u32)
    ensures
        has_key(e, k) <==> exists|c: char| e.contains((k, c)),
{
    if has_key(e, k) {
        let i = choose|i: int| 0 <= i < e.len() && #[trigger] e[i].0 == k;
        assert(e.contains((k, e[i].1)));
    }
    if exists|c: char| e.contains((k, c)) {
        let c = choose|c: char| e.contains((k, c));
        let i = choose|i: int| 0 <= i < e.len() && e[i] == (k, c);
        assert(e[i].0 == k);
    }
}

/// A sequence with distinct keys holds at most one pair per key.
proof fn lemma_distinct_unique(e: Seq<(u32, char)>, k: u32, c1: char, c2: char)
    requires
        distinct_keys(e),
        e.contains((k, c1)),
        e.contains((k, c2)),
    ensures
        c1 == c2,
{
    let i = choose|i: int| 0 <= i < e.len() && e[i] == (k, c1);
    let j = choose|j: int| 0 <= j < e.len() && e[j] == (k, c2);
    if i < j {
        assert(e[i].0.rank() != e[j].0.rank());
    } else if j < i {
        assert(e[j].0.rank() != e[i].0.rank());
    }
}

/// The map of a sequence that holds the pairs of another plus one pair of a
/// new key.
proof fn lemma_pair_map_plus(n: Seq<(u32, char)>, o: Seq<(u32, char)>, k: u32, v: char)
    requires
        distinct_keys(n),
        distinct_keys(o),
        !has_key(o, k),
        pairs_plus(n, o, (k, v)),
    ensures
        pair_map(n) == pair_map(o).insert(k, v),
{
    let a = pair_map(n);
    let b = pair_map(o).insert(k, v);
    lemma_has_key_contains(o, k);
    assert forall|q: u32| #[trigger] a.contains_key(q) <==> b.contains_key(q) by {
        if a.contains_key(q) {
            let c = choose|c: char| n.contains((q, c));
            assert(o.contains((q, c)) || (q, c) == (k, v));
        }
        if b.contains_key(q) && q != k {
            let c = choose|c: char| o.contains((q, c));
            assert(n.contains((q, c)));
        }
        if q == k {
            assert(n.contains((k, v)));
        }
    }
    assert forall|q: u32| #[trigger] a.contains_key(q) implies a[q] == b[q] by {
        let c = choose|c: char| n.contains((q, c));
        assert(n.contains((q, c)));
        if q == k {
            assert(n.contains((k, v)));
            lemma_distinct_unique(n, k, c, v);
        } else {
            assert(o.contains((q, c)));
            let c2 = choose|c2: char| o.contains((q, c2));
            assert(o.contains((q, c2)));
            lemma_distinct_unique(o, q, c, c2);
        }
    }
    assert(a =~= b);
}

/// Sequences with distinct keys and the same pairs stand for the same map.
proof fn lemma_pair_map_same(n: Seq<(u32, char)>, o: Seq<(u32, char)>)
    requires
        distinct_keys(n),
        distinct_keys(o),
        same_pairs(n, o),
    ensures
        pair_map(n) == pair_map(o),
{
    let a = pair_map(n);
    let b = pair_map(o);
    assert forall|q: u32| #[trigger] a.contains_key(q) <==> b.contains_key(q) by {
        if a.contains_key(q) {
            let c = choose|c: char| n.contains((q, c));
            assert(o.contains((q, c)));
        }
        if b.contains_key(q) {
            let c = choose|c: char| o.contains((q, c));
            assert(n.contains((q, c)));
        }
    }
    assert forall|q: u32| #[trigger] a.contains_key(q) implies a[q] == b[q] by {
        let c = choose|c: char| n.contains((q, c));
        assert(n.contains((q, c)));
        let c2 = choose|c2: char| o.contains((q, c2));
        assert(o.contains((q, c2)));
        assert(n.contains((q, c2)));
        lemma_distinct_unique(n, q, c, c2);
    }
    assert(a =~= b);
}

/// Where a pair lies in a sequence with distinct keys, the map gives its value.
proof fn lemma_pair_map_at(e: Seq<(u32, char)>, i: int)
    requires
        distinct_keys(e),
        0 <= i < e.len(),
    ensures
        map_get(pair_map(e), e[i].0) == Some(e[i].1),
{
    let k = e[i].0;
    assert(e.contains((k, e[i].1)));
    let c = choose|c: char| e.contains((k, c));
    lemma_distinct_unique(e, k, c, e[i].1);
}

/// A sequence with no pair of key `k` gives nothing for it.
proof fn lemma_pair_map_absent(e: Seq<(u32, char)>, k: u32)
    requires
        forall|i: int| 0 <= i < e.len() ==> #[trigger] e[i].0 != k,
    ensures
        map_get(pair_map(e), k) is None,
{
    if exists|c: char| e.contains((k, c)) {
        let c = choose|c: char| e.contains((k, c));
        let i = choose|i: int| 0 <= i < e.len() && e[i] == (k, c);
        assert(e[i].0 == k);
    }
}

// ---------------------------------------------------------------------------
// Sorting a leaf.

/// Pairs in ascending order: by key, then by value.
pub open spec fn pair_le(a: (u32, char), b: (u32, char)) -> bool {
    a.0 < b.0 || (a.0 == b.0 && (a.1 as u32) <= (b.1 as u32))
}

/// Sorts the pairs in place with `slice::sort`. std documents it as sorting
/// the slice in ascending order, keeping every element; tuples order
/// lexicographically and `char`s by code point. The contract states that
/// the result is a permutation in that order.
#[verifier::external_body]
fn sort_pairs(data: &mut Vec<(u32, char)>)
    ensures
        final(data)@.to_multiset() == old(data)@.to_multiset(),
        forall|i: int, j: int|
            0 <= i < j < final(data)@.len() ==> pair_le(final(data)@[i], final(data)@[j]),
{
    data.sort();
}

proof fn lemma_distinct_no_duplicates(e: Seq<(u32, char)>)
    requires
        distinct_keys(e),
    ensures
        e.no_duplicates(),
{
    assert forall|i: int, j: int| 0 <= i < e.len() && 0 <= j < e.len() && i != j implies e[i]
        != e[j] by {
        if i < j {
            assert(e[i].0.rank() != e[j].0.rank());
        } else {
            assert(e[j].0.rank() != e[i].0.rank());
        }
    }
}

/// A permutation in ascending order of a sequence with distinct keys is
/// sorted by key and holds the same pairs.
proof fn lemma_sorted_permutation(n: Seq<(u32, char)>, o: Seq<(u32, char)>)
    requires
        distinct_keys(o),
        n.to_multiset() == o.to_multiset(),
        forall|i: int, j: int| 0 <= i < j < n.len() ==> pair_le(n[i], n[j]),
    ensures
        sorted_pairs(n),
        distinct_keys(n),
        same_pairs(n, o),
        n.len() == o.len(),
{
    broadcast use vstd::seq_lib::to_multiset_contains, vstd::seq_lib::to_multiset_len;

    assert(n.to_multiset().len() == n.len());
    assert(o.to_multiset().len() == o.len());
    assert forall|y: (u32, char)| n.contains(y) <==> o.contains(y) by {
        assert(n.contains(y) <==> n.to_multiset().count(y) > 0);
        assert(o.contains(y) <==> o.to_multiset().count(y) > 0);
    }
    lemma_distinct_no_duplicates(o);
    o.lemma_multiset_has_no_duplicates();
    n.lemma_multiset_has_no_duplicates_conv();
    assert forall|i: int, j: int| #![trigger n[i], n[j]] 0 <= i < j < n.len() implies n[i].0.rank()
        != n[j].0.rank() by {
        if n[i].0 == n[j].0 {
            assert(n[i] != n[j]);
            assert(n.contains(n[i]) && n.contains(n[j]));
            assert(o.contains(n[i]) && o.contains(n[j]));
            let p = choose|p: int| 0 <= p < o.len() && o[p] == n[i];
            let q = choose|q: int| 0 <= q < o.len() && o[q] == n[j];
            if p < q {
                assert(o[p].0.rank() != o[q].0.rank());
            } else {
                assert(o[q].0.rank() != o[p].0.rank());
            }
        }
    }
    assert forall|i: int, j: int| #![trigger n[i], n[j]] 0 <= i < j < n.len() implies n[i].0.rank()
        < n[j].0.rank() by {
        assert(pair_le(n[i], n[j]));
    }
}

proof fn lemma_insert_pairs(e: Seq<(u32, char)>, i: int, x: (u32, char))
    requires
        0 <= i <= e.len(),
    ensures
        pairs_plus(e.insert(i, x), e, x),
{
    let n = e.insert(i, x);
    assert forall|y: (u32, char)| n.contains(y) <==> (e.contains(y) || y == x) by {
        if n.contains(y) {
            let j = choose|j: int| 0 <= j < n.len() && n[j] == y;
            if j < i {
                assert(e[j] == y);
            } else if j > i {
                assert(e[j - 1] == y);
            }
        }
        if e.contains(y) {
            let j = choose|j: int| 0 <= j < e.len() && e[j] == y;
            if j < i {
                assert(n[j] == y);
            } else {
                assert(n[j + 1] == y);
            }
        }
        if y == x {
            assert(n[i] == x);
        }
    }
}

proof fn lemma_push_pairs(e: Seq<(u32, char)>, x: (u32, char))
    ensures
        pairs_plus(e.push(x), e, x),
{
    lemma_insert_pairs(e, e.len() as int, x);
    assert(e.insert(e.len() as int, x) =~= e.push(x));
}

// ---------------------------------------------------------------------------
// Leaves.

impl LeafNode {
    /// An empty, clean leaf.
    pub fn new() -> (r: Self)
        ensures
            r.wf(),
            !r.is_dirty(),
            r.entries() == Seq::<(u32, char)>::empty(),
    {
        Self { data: Vec::with_capacity(MAX_KEYS), dirty: false }
    }

    /// Sorts a dirty leaf, then inserts the pair at its place by key. A full
    /// leaf first splits in two halves; the pair goes to the half that
    /// covers its key, and the right half comes back with its first key.
    #[verifier::spinoff_prover]
    #[verifier::rlimit(60)]
    pub fn insert(&mut self, key: u32, val: char) -> (res: Result<(), (NodeRef, u32)>)
        requires
            old(self).wf(),
            !has_key(old(self).entries(), key),
        ensures
            final(self).wf(),
            !final(self).is_dirty(),
            sorted_pairs(final(self).entries()),
            match res {
                Ok(()) => {
                    &&& old(self).entries().len() < MAX_KEYS
                    &&& pairs_plus(final(self).entries(), old(self).entries(), (key, val))
                },
                Err((node, median)) => {
                    &&& old(self).entries().len() >= MAX_KEYS
                    &&& node is Leaf
                    &&& node.wf()
                    &&& node.fixed()
                    &&& node.lower() == median
                    &&& !old(self).is_dirty() ==> median == old(self).entries()[((MAX_KEYS + 1)
                        / 2) as int].0
                    &&& sorted_pairs(node.entries())
                    &&& pairs_plus(
                        final(self).entries() + node.entries(),
                        old(self).entries(),
                        (key, val),
                    )
                    &&& final(self).entries().len() > 0
                    &&& node.entries().len() > 0
                    &&& all_below(final(self).entries(), median as int)
                    &&& all_at_least(node.entries(), median as int)
                },
            },
        decreases old(self).entries().len(),
    {
        let ghost o = self.data@;
        if self.dirty {
            sort_pairs(&mut self.data);
            self.dirty = false;
            proof {
                lemma_sorted_permutation(self.data@, o);
            }
        }
        let ghost e = self.data@;
        proof {
            assert(same_pairs(e, o));
            assert(!has_key(e, key)) by {
                if has_key(e, key) {
                    let j = choose|j: int| 0 <= j < e.len() && #[trigger] e[j].0 == key;
                    assert(e.contains(e[j]));
                    let q = choose|q: int| 0 <= q < o.len() && o[q] == e[j];
                    assert(o[q].0 == key);
                }
            }
        }
        if self.data.len() < MAX_KEYS {
            let index = match crate::storage_engine::btree2::find_pair(&self.data, &key) {
                Ok(i) => {
                    proof {
                        assert(e[i as int].0 == key);
                    }
                    i
                },
                Err(i) => i,
            };
            self.data.insert(index, (key, val));
            proof {
                crate::ordered::lemma_insert_sorted_at(e, index as int, key, val);
                lemma_insert_pairs(e, index as int, (key, val));
                crate::ordered::lemma_sorted_distinct(self.data@);
                assert forall|y: (u32, char)| self.data@.contains(y) <==> (o.contains(y) || y == (
                    key,
                    val,
                )) by {
                    assert(e.contains(y) <==> o.contains(y));
                }
                assert(o.len() < MAX_KEYS);
                assert(pairs_plus(self.data@, o, (key, val)));
            }
            Ok(())
        } else {
            let right_split = self.data.split_off((MAX_KEYS + 1) / 2);
            let median_key = right_split[0].0;
            let mut new_leaf = LeafNode { data: right_split, dirty: false };
            let ghost left = self.data@;
            let ghost right = new_leaf.data@;
            proof {
                let h = (MAX_KEYS + 1) / 2;
                lemma_sorted_subrange(e, 0, h as int);
                lemma_sorted_subrange(e, h as int, e.len() as int);
                crate::ordered::lemma_sorted_distinct(left);
                crate::ordered::lemma_sorted_distinct(right);
                assert(e =~= left + right);
                assert(!has_key(left, key)) by {
                    if has_key(left, key) {
                        let j = choose|j: int| 0 <= j < left.len() && #[trigger] left[j].0 == key;
                        assert(e[j] == left[j]);
                    }
                }
                assert(!has_key(right, key)) by {
                    if has_key(right, key) {
                        let j = choose|j: int| 0 <= j < right.len() && #[trigger] right[j].0 == key;
                        assert(e[h + j] == right[j]);
                    }
                }
                assert(all_below(left, median_key as int)) by {
                    assert forall|j: int| 0 <= j < left.len() implies #[trigger] left[j].0.rank()
                        < median_key as int by {
                        assert(left[j] == e[j] && right[0] == e[h as int]);
                    }
                }
                assert(all_at_least(right, median_key as int)) by {
                    assert forall|j: int| 0 <= j < right.len() implies #[trigger] right[j].0.rank()
                        >= median_key as int by {
                        if j > 0 {
                            assert(right[j] == e[h + j] && right[0] == e[h as int]);
                        }
                    }
                }
            }
            if key > median_key {
                let r = new_leaf.insert(key, val);
                proof {
                    assert(r is Ok);
                    let nr = new_leaf.data@;
                    assert forall|j: int| 0 <= j < nr.len() implies #[trigger] nr[j].0.rank()
                        >= median_key as int by {
                        assert(nr.contains(nr[j]));
                        if nr[j] != (key, val) {
                            assert(right.contains(nr[j]));
                            let q = choose|q: int| 0 <= q < right.len() && right[q] == nr[j];
                        }
                    }
                    assert forall|y: (u32, char)| (left + nr).contains(y) <==> (o.contains(y) || y
                        == (key, val)) by {
                        broadcast use vstd::seq_lib::lemma_seq_concat_contains_all_elements;

                        assert(e.contains(y) <==> (left.contains(y) || right.contains(y)));
                    }
                    assert(pairs_plus(self.data@ + new_leaf.data@, o, (key, val)));
                    assert(new_leaf.data@.contains((key, val)));
                    assert(right.contains(right[0]));
                    assert(nr.contains(right[0]));
                    let q = choose|q: int| 0 <= q < nr.len() && nr[q] == right[0];
                    if q > 0 {
                        assert(nr[0].0 < nr[q].0);
                        assert(nr.contains(nr[0]));
                        if nr[0] != (key, val) {
                            assert(right.contains(nr[0]));
                            let p = choose|p: int| 0 <= p < right.len() && right[p] == nr[0];
                        }
                    }
                    assert(nr[0] == right[0]);
                }
            } else if key < median_key {
                let r = self.insert(key, val);
                proof {
                    assert(r is Ok);
                    let nl = self.data@;
                    assert forall|j: int| 0 <= j < nl.len() implies #[trigger] nl[j].0.rank()
                        < median_key as int by {
                        assert(nl.contains(nl[j]));
                        if nl[j] != (key, val) {
                            assert(left.contains(nl[j]));
                            let q = choose|q: int| 0 <= q < left.len() && left[q] == nl[j];
                        }
                    }
                    assert forall|y: (u32, char)| (nl + right).contains(y) <==> (o.contains(y) || y
                        == (key, val)) by {
                        broadcast use vstd::seq_lib::lemma_seq_concat_contains_all_elements;

                        assert(e.contains(y) <==> (left.contains(y) || right.contains(y)));
                    }
                    assert(pairs_plus(self.data@ + new_leaf.data@, o, (key, val)));
                    assert(self.data@.contains((key, val)));
                }
            } else {
                proof {
                    let h = (MAX_KEYS + 1) / 2;
                    assert(e[h as int].0 == key);
                    assert(has_key(e, key));
                }
            }
            Err((NodeRef::Leaf(new_leaf), median_key))
        }
    }

    /// Appends the pair, leaving the leaf dirty, while there is room, without
    /// looking for its key; a full leaf takes the pair through `insert`. The
    /// leaf stays well formed when the key is new to it.
    pub fn insert_dirty(&mut self, key: u32, val: char) -> (res: Result<(), (NodeRef, u32)>)
        requires
            old(self).wf(),
            old(self).entries().len() >= MAX_KEYS ==> !has_key(old(self).entries(), key),
        ensures
            !has_key(old(self).entries(), key) ==> final(self).wf(),
            match res {
                Ok(()) => {
                    &&& old(self).entries().len() < MAX_KEYS
                    &&& final(self).entries() == old(self).entries().push((key, val))
                    &&& final(self).is_dirty()
                },
                Err((node, median)) => {
                    &&& old(self).entries().len() >= MAX_KEYS
                    &&& !final(self).is_dirty()
                    &&& sorted_pairs(final(self).entries())
                    &&& node is Leaf
                    &&& node.wf()
                    &&& node.fixed()
                    &&& node.lower() == median
                    &&& !old(self).is_dirty() ==> median == old(self).entries()[((MAX_KEYS + 1)
                        / 2) as int].0
                    &&& sorted_pairs(node.entries())
                    &&& pairs_plus(
                        final(self).entries() + node.entries(),
                        old(self).entries(),
                        (key, val),
                    )
                    &&& final(self).entries().len() > 0
                    &&& node.entries().len() > 0
                    &&& all_below(final(self).entries(), median as int)
                    &&& all_at_least(node.entries(), median as int)
                },
            },
    {
        if self.data.len() < MAX_KEYS {
            let ghost o = self.data@;
            self.data.push((key, val));
            self.dirty = true;
            proof {
                let n = self.data@;
                if !has_key(o, key) {
                    assert forall|i: int, j: int| #![trigger n[i], n[j]] 0 <= i < j < n.len() implies n[i].0.rank()
                        != n[j].0.rank() by {
                        if j < o.len() {
                            assert(n[i] == o[i] && n[j] == o[j]);
                        } else {
                            assert(n[i] == o[i]);
                            assert(o[i].0 != key);
                        }
                    }
                }
            }
            Ok(())
        } else {
            self.insert(key, val)
        }
    }

    /// The value stored under `key` in a clean leaf.
    pub fn search(&self, key: u32) -> (r: Option<char>)
        requires
            self.wf(),
            !self.is_dirty(),
        ensures
            r == map_get(pair_map(self.entries()), key),
    {
        match crate::storage_engine::btree2::find_pair(&self.data, &key) {
            Ok(idx) => {
                proof {
                    lemma_pair_map_at(self.data@, idx as int);
                }
                Some(self.data[idx].1)
            },
            Err(_) => {
                proof {
                    assert forall|i: int| 0 <= i < self.data@.len() implies #[trigger] self.data@[i].0
                        != key by {
                        assert(self.data@[i].0.rank() != key.rank());
                    }
                    lemma_pair_map_absent(self.data@, key);
                }
                None
            },
        }
    }
}

// ---------------------------------------------------------------------------
// Lemmas on the entries of internal nodes.

proof fn lemma_node_facts(c: NodeRef)
    requires
        c.wf(),
    ensures
        distinct_keys(c.entries()),
        c is Internal ==> c.entries().len() > 0 && all_at_least(c.entries(), c.lower() as int),
{
    reveal(data_wf);
    match c {
        NodeRef::Internal(n) => {
            assert(n.wf());
            let d = n.data@;
            lemma_flatten_split(d, 0);
            assert forall|i: int| 0 <= i < d.len() implies all_at_least(
                #[trigger] d[i].1.entries(),
                d[0].0 as int,
            ) by {
                if i > 0 {
                    assert(data_keys(d)[0] == d[0].0 && data_keys(d)[i] == d[i].0);
                }
            }
            lemma_flatten_all_at_least(d, d[0].0 as int);
        },
        NodeRef::Leaf(l) => {},
    }
}

/// Children with distinct keys, each within the bounds of its entry, hold
/// distinct keys together.
proof fn lemma_flatten_distinct(d: Seq<(u32, NodeRef)>)
    requires
        sorted_keys(data_keys(d)),
        forall|i: int| 0 <= i < d.len() ==> (#[trigger] d[i]).1.wf(),
        forall|i: int| 0 <= i < d.len() ==> all_at_least((#[trigger] d[i]).1.entries(), d[i].0 as int),
        forall|i: int|
            0 <= i < d.len() - 1 ==> all_below(#[trigger] d[i].1.entries(), d[i + 1].0 as int),
    ensures
        distinct_keys(flatten(d)),
    decreases d.len(),
{
    if d.len() > 0 {
        let p = d.drop_last();
        let last = d.len() - 1;
        assert(data_keys(p) =~= data_keys(d).drop_last());
        assert forall|i: int| 0 <= i < p.len() implies all_below(
            #[trigger] p[i].1.entries(),
            d[last].0 as int,
        ) by {
            assert(p[i] == d[i]);
            if i + 1 < last {
                assert(data_keys(d)[i + 1] == d[i + 1].0 && data_keys(d)[last] == d[last].0);
            }
        }
        assert forall|i: int| 0 <= i < p.len() implies (#[trigger] p[i]).1.wf() by {
            assert(p[i] == d[i]);
        }
        assert forall|i: int| 0 <= i < p.len() implies all_at_least(
            (#[trigger] p[i]).1.entries(),
            p[i].0 as int,
        ) by {
            assert(p[i] == d[i]);
        }
        assert forall|i: int| 0 <= i < p.len() - 1 implies all_below(
            #[trigger] p[i].1.entries(),
            p[i + 1].0 as int,
        ) by {
            assert(p[i] == d[i] && p[i + 1] == d[i + 1]);
        }
        lemma_flatten_distinct(p);
        lemma_flatten_all_below(p, d[last].0 as int);
        lemma_node_facts(d[last].1);
        lemma_distinct_concat(flatten(p), d[last].1.entries(), d[last].0 as int);
    }
}

/// The entries keep fitting together when the child at `idx` is replaced by
/// one that holds its pairs and `x`.
proof fn lemma_replace_entry(d: Seq<(u32, NodeRef)>, idx: int, c2: NodeRef, x: (u32, char))
    requires
        data_wf(d),
        0 <= idx < d.len(),
        d[idx].0 <= x.0,
        idx + 1 < d.len() ==> x.0 < d[idx + 1].0,
        c2.wf(),
        c2.depth() == d[idx].1.depth(),
        c2 is Internal ==> c2.lower() <= d[idx].0,
        pairs_plus(c2.entries(), d[idx].1.entries(), x),
    ensures
        data_wf(d.update(idx, (d[idx].0, c2))),
        pairs_plus(flatten(d.update(idx, (d[idx].0, c2))), flatten(d), x),
{
    reveal(data_wf);
    broadcast use vstd::seq_lib::lemma_seq_concat_contains_all_elements;

    let nd = d.update(idx, (d[idx].0, c2));
    let c = d[idx].1.entries();
    let ce = c2.entries();
    assert(data_keys(nd) =~= data_keys(d));
    assert(ce.contains(x));
    assert forall|j: int| 0 <= j < ce.len() implies #[trigger] ce[j].0.rank() >= d[idx].0 as int
        && (idx + 1 < d.len() ==> ce[j].0.rank() < d[idx + 1].0 as int) by {
        assert(ce.contains(ce[j]));
        if ce[j] != x {
            let q = choose|q: int| 0 <= q < c.len() && c[q] == ce[j];
            assert(all_at_least(c, d[idx].0 as int));
            if idx + 1 < d.len() {
                assert(all_below(c, d[idx + 1].0 as int));
            }
        }
    }
    assert forall|i: int| 0 <= i < nd.len() implies (#[trigger] nd[i]).1.wf() && nd[i].1.depth()
        == nd[0].1.depth() && nd[i].1.entries().len() > 0 && all_at_least(
        nd[i].1.entries(),
        nd[i].0 as int,
    ) && (nd[i].1 is Internal ==> nd[i].1.lower() <= nd[i].0) by {
        if idx != 0 {
            assert(nd[0] == d[0]);
        }
    }
    assert forall|i: int| 0 <= i < nd.len() - 1 implies all_below(
        #[trigger] nd[i].1.entries(),
        nd[i + 1].0 as int,
    ) by {
        assert(nd[i + 1].0 == d[i + 1].0);
    }
    lemma_flatten_distinct(nd);
    lemma_flatten_split(d, idx);
    lemma_flatten_split(nd, idx);
    assert(nd.take(idx) =~= d.take(idx));
    assert(nd.skip(idx + 1) =~= d.skip(idx + 1));
}

/// The entries keep fitting together when the child at `idx` is replaced by
/// the two halves of its split around `m`, with the pairs of the child and
/// `x`.
#[verifier::spinoff_prover]
#[verifier::rlimit(60)]
proof fn lemma_insert_entry(
    d: Seq<(u32, NodeRef)>,
    idx: int,
    c2: NodeRef,
    nw: NodeRef,
    m: u32,
    x: (u32, char),
)
    requires
        data_wf(d),
        0 <= idx < d.len(),
        d[idx].0 <= x.0,
        idx + 1 < d.len() ==> x.0 < d[idx + 1].0,
        c2.wf(),
        nw.wf(),
        c2.depth() == d[idx].1.depth(),
        nw.depth() == d[idx].1.depth(),
        c2 is Internal ==> c2.lower() <= d[idx].0,
        nw is Internal ==> nw.lower() <= m,
        c2.entries().len() > 0,
        nw.entries().len() > 0,
        all_below(c2.entries(), m as int),
        all_at_least(nw.entries(), m as int),
        pairs_plus(c2.entries() + nw.entries(), d[idx].1.entries(), x),
    ensures
        d[idx].0 < m,
        idx + 1 < d.len() ==> m < d[idx + 1].0,
        data_wf(d.update(idx, (d[idx].0, c2)).insert(idx + 1, (m, nw))),
        pairs_plus(flatten(d.update(idx, (d[idx].0, c2)).insert(idx + 1, (m, nw))), flatten(d), x),
{
    reveal(data_wf);
    broadcast use vstd::seq_lib::lemma_seq_concat_contains_all_elements;

    let nd = d.update(idx, (d[idx].0, c2)).insert(idx + 1, (m, nw));
    let hi: Option<u32> = if idx + 1 < d.len() { Some(d[idx + 1].0) } else { None };
    lemma_halves_bounds(d[idx].1.entries(), x, c2.entries(), nw.entries(), d[idx].0, hi, m);
    let ks = data_keys(d);
    let nk = data_keys(nd);
    assert(nk =~= ks.insert(idx + 1, m));
    assert(ks[idx] == d[idx].0);
    assert(idx + 1 < d.len() ==> ks[idx + 1] == d[idx + 1].0);
    crate::storage_engine::btree2::lemma_keys_insert_sorted(ks, idx + 1, m);
    // The children.
    assert(d[idx].1.depth() == d[0].1.depth());
    assert forall|i: int| 0 <= i < nd.len() implies (#[trigger] nd[i]).1.wf() && nd[i].1.depth()
        == nd[0].1.depth() && nd[i].1.entries().len() > 0 && all_at_least(
        nd[i].1.entries(),
        nd[i].0 as int,
    ) && (nd[i].1 is Internal ==> nd[i].1.lower() <= nd[i].0) by {
        if i < idx {
            assert(nd[i] == d[i]);
        } else if i > idx + 1 {
            assert(nd[i] == d[i - 1]);
        }
        if idx != 0 {
            assert(nd[0] == d[0]);
        }
    }
    assert forall|i: int| 0 <= i < nd.len() - 1 implies all_below(
        #[trigger] nd[i].1.entries(),
        nd[i + 1].0 as int,
    ) by {
        if i < idx {
            assert(nd[i] == d[i] && nd[i + 1].0 == d[i + 1].0);
        } else if i == idx + 1 {
            assert(nd[i + 1] == d[idx + 1]);
        } else if i > idx + 1 {
            assert(nd[i] == d[i - 1] && nd[i + 1] == d[i]);
        }
    }
    lemma_flatten_distinct(nd);
    // The pairs.
    assert(nd =~= d.take(idx) + (seq![(d[idx].0, c2)] + seq![(m, nw)]) + d.skip(idx + 1));
    lemma_flatten_concat(d.take(idx) + (seq![(d[idx].0, c2)] + seq![(m, nw)]), d.skip(idx + 1));
    lemma_flatten_concat(d.take(idx), seq![(d[idx].0, c2)] + seq![(m, nw)]);
    lemma_flatten_concat(seq![(d[idx].0, c2)], seq![(m, nw)]);
    lemma_flatten_single((d[idx].0, c2));
    lemma_flatten_single((m, nw));
    lemma_flatten_split(d, idx);
}

/// The halves of a split child keep the bounds of the child, and the key
/// between them lies strictly inside them.
proof fn lemma_halves_bounds(
    c: Seq<(u32, char)>,
    x: (u32, char),
    ce: Seq<(u32, char)>,
    ne: Seq<(u32, char)>,
    lo: u32,
    hi: Option<u32>,
    m: u32,
)
    requires
        all_at_least(c, lo as int),
        hi matches Some(h) ==> all_below(c, h as int),
        lo <= x.0,
        hi matches Some(h) ==> x.0 < h,
        ce.len() > 0,
        ne.len() > 0,
        all_below(ce, m as int),
        all_at_least(ne, m as int),
        pairs_plus(ce + ne, c, x),
    ensures
        lo < m,
        hi matches Some(h) ==> m < h,
        all_at_least(ce, lo as int),
        all_at_least(ne, lo as int),
        hi matches Some(h) ==> all_below(ce, h as int) && all_below(ne, h as int),
{
    broadcast use vstd::seq_lib::lemma_seq_concat_contains_all_elements;

    let both = ce + ne;
    assert forall|j: int| 0 <= j < both.len() implies #[trigger] both[j].0.rank() >= lo as int && (
    hi matches Some(h) ==> both[j].0.rank() < h as int) by {
        assert(both.contains(both[j]));
        if both[j] != x {
            let q = choose|q: int| 0 <= q < c.len() && c[q] == both[j];
        }
    }
    assert forall|j: int| 0 <= j < ce.len() implies #[trigger] ce[j].0.rank() >= lo as int && (
    hi matches Some(h) ==> ce[j].0.rank() < h as int) by {
        assert(both[j] == ce[j]);
    }
    assert forall|j: int| 0 <= j < ne.len() implies #[trigger] ne[j].0.rank() >= lo as int && (
    hi matches Some(h) ==> ne[j].0.rank() < h as int) by {
        assert(both[ce.len() + j] == ne[j]);
    }
    assert(ce[0].0.rank() >= lo as int);
    assert(ce[0].0.rank() < m as int);
    if let Some(h) = hi {
        assert(ne[0].0.rank() < h as int);
        assert(ne[0].0.rank() >= m as int);
    }
}

/// The two halves of a full node whose child at `idx` split, cut at `cut`.
#[verifier::spinoff_prover]
#[verifier::rlimit(100)]
proof fn lemma_split_result(
    d: Seq<(u32, NodeRef)>,
    idx: int,
    c2: NodeRef,
    nw: NodeRef,
    m: u32,
    cut: int,
)
    requires
        data_wf(d),
        d.len() == MAX_KEYS,
        0 <= idx < d.len(),
        c2.depth() == d[idx].1.depth(),
        data_wf(d.update(idx, (d[idx].0, c2)).insert(idx + 1, (m, nw))),
        cut == (MAX_KEYS / 2) as int || cut == (MAX_KEYS / 2) as int + 1,
    ensures
        ({
            let d2 = d.update(idx, (d[idx].0, c2)).insert(idx + 1, (m, nw));
            &&& data_wf(d2.take(cut))
            &&& data_wf(d2.skip(cut))
            &&& flatten(d2) == flatten(d2.take(cut)) + flatten(d2.skip(cut))
            &&& all_below(flatten(d2.take(cut)), d2[cut].0 as int)
            &&& all_at_least(flatten(d2.skip(cut)), d2[cut].0 as int)
            &&& d2.take(cut)[0].0 == d[0].0
            &&& d2.take(cut)[0].1.depth() == d[0].1.depth()
            &&& d2.skip(cut)[0].1.depth() == d[0].1.depth()
            &&& d2.skip(cut)[0].0 == d2[cut].0
            &&& d[0].0 < d[(MAX_KEYS / 2) as int].0
        }),
{
    let d2 = d.update(idx, (d[idx].0, c2)).insert(idx + 1, (m, nw));
    let h = (MAX_KEYS / 2) as int;
    lemma_cut(d2, cut);
    lemma_cut(d, h);
    lemma_data_wf_child(d, idx);
    if idx != 0 {
        assert(d2[0] == d[0]);
    }
}

proof fn lemma_internal_wf(c: NodeRef)
    requires
        c.wf(),
    ensures
        c matches NodeRef::Internal(n) ==> n.wf() && n.depth() == c.depth() && n.entries()
            == c.entries() && n.lower() == c.lower(),
{
    match c {
        NodeRef::Internal(n) => {
            assert(n.wf());
        },
        NodeRef::Leaf(_) => {},
    }
}

proof fn lemma_wrap_internal(n: InternalNode)
    ensures
        NodeRef::Internal(n).wf() == n.wf(),
        NodeRef::Internal(n).depth() == n.depth(),
        NodeRef::Internal(n).entries() == n.entries(),
        NodeRef::Internal(n).lower() == n.lower(),
{
    reveal_with_fuel(NodeRef::wf, 1);
}

/// What `data_wf` says of the child at `i`.
proof fn lemma_data_wf_child(d: Seq<(u32, NodeRef)>, i: int)
    requires
        data_wf(d),
        0 <= i < d.len(),
    ensures
        d[i].1.wf(),
        d[i].1.depth() == d[0].1.depth(),
        d[i].1.entries().len() > 0,
        all_at_least(d[i].1.entries(), d[i].0 as int),
        i + 1 < d.len() ==> all_below(d[i].1.entries(), d[i + 1].0 as int),
        d[i].1 is Internal ==> d[i].1.lower() <= d[i].0,
        sorted_keys(data_keys(d)),
        distinct_keys(flatten(d)),
{
    reveal(data_wf);
}

/// Entries that fit together, cut at `j`, give two runs that fit together,
/// the second starting at the key of entry `j`.
proof fn lemma_cut(d: Seq<(u32, NodeRef)>, j: int)
    requires
        data_wf(d),
        1 <= j < d.len(),
    ensures
        data_wf(d.take(j)),
        data_wf(d.skip(j)),
        flatten(d) == flatten(d.take(j)) + flatten(d.skip(j)),
        all_below(flatten(d.take(j)), d[j].0 as int),
        all_at_least(flatten(d.skip(j)), d[j].0 as int),
        d.take(j)[0] == d[0],
        d.skip(j)[0] == d[j],
        d[j].1.depth() == d[0].1.depth(),
        d[0].0 < d[j].0,
{
    reveal(data_wf);
    let a = d.take(j);
    let b = d.skip(j);
    assert(d =~= a + b);
    lemma_flatten_concat(a, b);
    let ks = data_keys(d);
    assert(data_keys(a) =~= ks.take(j));
    assert(data_keys(b) =~= ks.skip(j));
    assert forall|i: int| 0 <= i < a.len() implies (#[trigger] a[i]).1.wf() && a[i].1.depth()
        == a[0].1.depth() && a[i].1.entries().len() > 0 && all_at_least(a[i].1.entries(), a[i].0 as int)
        && (a[i].1 is Internal ==> a[i].1.lower() <= a[i].0) && all_below(a[i].1.entries(), d[j].0 as int) by {
        assert(a[i] == d[i]);
        if i + 1 < j {
            assert(ks[i + 1] == d[i + 1].0 && ks[j] == d[j].0);
        }
    }
    assert forall|i: int| 0 <= i < a.len() - 1 implies all_below(
        #[trigger] a[i].1.entries(),
        a[i + 1].0 as int,
    ) by {
        assert(a[i] == d[i] && a[i + 1] == d[i + 1]);
    }
    assert forall|i: int| 0 <= i < b.len() implies (#[trigger] b[i]).1.wf() && b[i].1.depth()
        == b[0].1.depth() && b[i].1.entries().len() > 0 && all_at_least(b[i].1.entries(), b[i].0 as int)
        && (b[i].1 is Internal ==> b[i].1.lower() <= b[i].0) && all_at_least(b[i].1.entries(), d[j].0 as int) by {
        assert(b[i] == d[j + i]);
        assert(b[0] == d[j]);
        if i > 0 {
            assert(ks[j] == d[j].0 && ks[j + i] == d[j + i].0);
        }
    }
    assert forall|i: int| 0 <= i < b.len() - 1 implies all_below(
        #[trigger] b[i].1.entries(),
        b[i + 1].0 as int,
    ) by {
        assert(b[i] == d[j + i] && b[i + 1] == d[j + i + 1]);
    }
    lemma_flatten_distinct(a);
    lemma_flatten_distinct(b);
    assert(ks[0] == d[0].0 && ks[j] == d[j].0);
    lemma_flatten_all_below(a, d[j].0 as int);
    lemma_flatten_all_at_least(b, d[j].0 as int);
}

// ---------------------------------------------------------------------------
// Internal nodes.

/// Where `key` stands among the keys of the entries: `Ok` with the index of
/// an equal key, or `Err` with the index at which it would go.
fn find_entry(data: &Vec<(u32, NodeRef)>, key: u32) -> (res: Result<usize, usize>)
    requires
        sorted_keys(data_keys(data@)),
    ensures
        match res {
            Ok(i) => i < data@.len() && data@[i as int].0 == key,
            Err(i) => {
                &&& i <= data@.len()
                &&& forall|j: int| 0 <= j < i ==> #[trigger] data@[j].0 < key
                &&& forall|j: int| i <= j < data@.len() ==> #[trigger] data@[j].0 > key
            },
        },
{
    let ghost ks = data_keys(data@);
    let mut lo: usize = 0;
    let mut hi: usize = data.len();
    while lo < hi
        invariant
            lo <= hi <= data@.len(),
            ks == data_keys(data@),
            sorted_keys(ks),
            forall|j: int| 0 <= j < lo ==> #[trigger] data@[j].0 < key,
            forall|j: int| hi <= j < data@.len() ==> #[trigger] data@[j].0 > key,
        decreases hi - lo,
    {
        let mid = lo + (hi - lo) / 2;
        let k = data[mid].0;
        if k < key {
            assert forall|j: int| 0 <= j < mid + 1 implies #[trigger] data@[j].0 < key by {
                if j < mid {
                    assert(ks[j] < ks[mid as int]);
                }
            }
            lo = mid + 1;
        } else if k == key {
            return Ok(mid);
        } else {
            assert forall|j: int| mid <= j < data@.len() implies #[trigger] data@[j].0 > key by {
                if j > mid {
                    assert(ks[mid as int] < ks[j]);
                }
            }
            hi = mid;
        }
    }
    Err(lo)
}

/// The child that `find_entry`'s answer sends `key` to.
proof fn lemma_route_entry(d: Seq<(u32, NodeRef)>, key: u32, res: Result<usize, usize>, idx: int)
    requires
        sorted_keys(data_keys(d)),
        match res {
            Ok(i) => i < d.len() && d[i as int].0 == key && idx == i,
            Err(i) => {
                &&& i <= d.len()
                &&& forall|j: int| 0 <= j < i ==> #[trigger] d[j].0 < key
                &&& forall|j: int| i <= j < d.len() ==> #[trigger] d[j].0 > key
                &&& idx == i - 1
            },
        },
    ensures
        count_keys_at_most(data_keys(d), key as int) == idx + 1,
        0 <= idx < d.len() ==> d[idx].0 <= key && (idx + 1 < d.len() ==> key < d[idx + 1].0),
{
    let ks = data_keys(d);
    assert forall|j: int| 0 <= j < idx + 1 implies #[trigger] ks[j].rank() <= key as int by {
        if let Ok(i) = res {
            if j < i {
                assert(ks[j] < ks[i as int]);
            }
        }
    }
    assert forall|j: int| idx + 1 <= j < ks.len() implies #[trigger] ks[j].rank() > key as int by {
        if let Ok(i) = res {
            assert(ks[i as int] < ks[j]);
        }
    }
    lemma_count_keys_at_most_exact(ks, idx + 1, key as int);
    if 0 <= idx < d.len() {
        assert(ks[idx] == d[idx].0);
        if idx + 1 < d.len() {
            assert(ks[idx + 1] == d[idx + 1].0);
        }
    }
}

/// The pairs of `a + c + b` that have key `k` are those of `c`, when `a`
/// and `b` hold no such key.
proof fn lemma_pair_map_middle(a: Seq<(u32, char)>, c: Seq<(u32, char)>, b: Seq<(u32, char)>, k: u32)
    requires
        distinct_keys(a + c + b),
        distinct_keys(c),
        forall|i: int| 0 <= i < a.len() ==> #[trigger] a[i].0 != k,
        forall|i: int| 0 <= i < b.len() ==> #[trigger] b[i].0 != k,
    ensures
        map_get(pair_map(a + c + b), k) == map_get(pair_map(c), k),
{
    broadcast use vstd::seq_lib::lemma_seq_concat_contains_all_elements;

    let e = a + c + b;
    if exists|v: char| c.contains((k, v)) {
        let v = choose|v: char| c.contains((k, v));
        let i = choose|i: int| 0 <= i < c.len() && c[i] == (k, v);
        assert(e[a.len() + i] == c[i]);
        lemma_pair_map_at(e, a.len() + i);
        lemma_pair_map_at(c, i);
    } else {
        assert forall|i: int| 0 <= i < e.len() implies #[trigger] e[i].0 != k by {
            if i >= a.len() && i < a.len() + c.len() {
                assert(e[i] == c[i - a.len()]);
                assert(c.contains(c[i - a.len()]));
                if c[i - a.len()].0 == k {
                    assert(c.contains((k, c[i - a.len()].1)));
                }
            } else if i < a.len() {
                assert(e[i] == a[i]);
            } else {
                assert(e[i] == b[i - a.len() - c.len()]);
            }
        }
        lemma_pair_map_absent(e, k);
        assert(!pair_map(c).contains_key(k));
    }
}

impl InternalNode {
    /// A node with no entry yet.
    pub fn new() -> (r: Self)
        ensures
            r.entries() == Seq::<(u32, char)>::empty(),
            r.num_entries() == 0,
    {
        Self { data: Vec::with_capacity(MAX_KEYS) }
    }

    /// The number of entries.
    pub closed spec fn num_entries(self) -> nat {
        self.data@.len()
    }

    #[verifier::spinoff_prover]
    #[verifier::rlimit(100)]
    /// Inserts the pair into the child that covers its key: a leaf child
    /// takes it unsorted while it has room. A split child leaves its right
    /// half here; a full node then splits in turn, and its right half comes
    /// back with its first key.
    pub fn insert(&mut self, key: u32, val: char) -> (res: Result<(), (NodeRef, u32)>)
        requires
            old(self).wf(),
            !has_key(old(self).entries(), key),
            old(self).lower() <= key,
            NodeRef::Internal(*old(self)).keys_least(),
        ensures
            final(self).wf(),
            final(self).depth() == old(self).depth(),
            final(self).lower() == old(self).lower(),
            NodeRef::Internal(*final(self)).keys_least(),
            match res {
                Ok(()) => {
                    &&& pairs_plus(final(self).entries(), old(self).entries(), (key, val))
                    &&& 1 <= old(self).route(key) <= old(self).entries_data().len()
                    // only the child that covers the key changed, or it split
                    // and its right half came in after it
                    &&& ({
                        let i = old(self).route(key) - 1;
                        let od = old(self).entries_data();
                        let nd = final(self).entries_data();
                        ||| nd == od.update(i, (od[i].0, nd[i].1))
                        ||| nd == od.update(i, (od[i].0, nd[i].1)).insert(i + 1, nd[i + 1])
                    })
                },
                Err((node, median)) => {
                    &&& node is Internal
                    &&& node.wf()
                    &&& node.keys_least()
                    &&& has_key(node.entries(), median)
                    &&& node.depth() == old(self).depth()
                    &&& node.lower() == median
                    &&& old(self).lower() < median
                    &&& pairs_plus(
                        final(self).entries() + node.entries(),
                        old(self).entries(),
                        (key, val),
                    )
                    &&& all_below(final(self).entries(), median as int)
                    &&& all_at_least(node.entries(), median as int)
                },
            },
        decreases old(self).depth(),
    {
        let ghost d = self.data@;
        proof {
            assert(old(self).wf());
            assert(d == old(self).data@);
            assert(data_wf(old(self).data@));
            lemma_data_wf_child(d, 0);
        }
        let found = find_entry(&self.data, key);
        let index = match found {
            Ok(i) => i,
            Err(i) => {
                proof {
                    if i == 0 {
                        assert(d[0].0 > key);
                    }
                }
                i - 1
            },
        };
        proof {
            lemma_route_entry(d, key, found, index as int);
            lemma_flatten_split(d, index as int);
            crate::storage_engine::btree2::lemma_has_key_middle(
                flatten(d.take(index as int)),
                d[index as int].1.entries(),
                flatten(d.skip(index + 1)),
                key,
            );
            lemma_data_wf_child(d, index as int);
            lemma_internal_wf(d[index as int].1);
            assert(keys_least_data(d));
            assert(has_key(d[index as int].1.entries(), d[index as int].0));
            assert(d[index as int].1.keys_least());
        }
        let res = match &mut self.data[index].1 {
            NodeRef::Internal(the_node) => the_node.insert(key, val),
            NodeRef::Leaf(rc) => rc.insert_dirty(key, val),
        };
        let ghost c2 = self.data@[index as int].1;
        proof {
            if let NodeRef::Internal(n) = c2 {
                lemma_wrap_internal(n);
            }
            assert(self.data@ =~= d.update(index as int, (d[index as int].0, c2)));
        }
        match res {
            Ok(()) => {
                proof {
                    if c2 is Leaf {
                        lemma_push_pairs(d[index as int].1.entries(), (key, val));
                    }
                    lemma_replace_entry(d, index as int, c2, (key, val));
                    assert(self.data@[0].0 == d[0].0);
                    lemma_has_key_plus(
                        c2.entries(),
                        d[index as int].1.entries(),
                        (key, val),
                        d[index as int].0,
                    );
                    lemma_keys_least_insert(d, index as int, c2, None);
                }
                Ok(())
            },
            Err((new_node_ref, child_median_key)) => {
                proof {
                    lemma_node_facts(c2);
                    lemma_node_facts(new_node_ref);
                    lemma_insert_entry(
                        d,
                        index as int,
                        c2,
                        new_node_ref,
                        child_median_key,
                        (key, val),
                    );
                    lemma_has_key_left(
                        c2.entries(),
                        new_node_ref.entries(),
                        d[index as int].1.entries(),
                        (key, val),
                        d[index as int].0,
                        child_median_key,
                    );
                    if new_node_ref is Leaf {
                        lemma_leaf_lower(new_node_ref);
                    }
                    lemma_keys_least_insert(
                        d,
                        index as int,
                        c2,
                        Some((child_median_key, new_node_ref)),
                    );
                }
                let ghost d2 = d.update(index as int, (d[index as int].0, c2)).insert(
                    index + 1,
                    (child_median_key, new_node_ref),
                );
                if self.data.len() < MAX_KEYS {
                    self.data.insert(index + 1, (child_median_key, new_node_ref));
                    proof {
                        assert(self.data@ =~= d2);
                        assert(self.data@[0].0 == d[0].0);
                    }
                    Ok(())
                } else {
                    proof {
                        assert(data_keys(self.data@) =~= data_keys(d));
                    }
                    let (right, median_key) = self.split_insert(index, child_median_key, new_node_ref);
                    let ghost cut: int = if child_median_key > d[(MAX_KEYS / 2) as int].0 {
                        (MAX_KEYS / 2) as int
                    } else {
                        (MAX_KEYS / 2) as int + 1
                    };
                    proof {
                        lemma_split_result(d, index as int, c2, new_node_ref, child_median_key, cut);
                        lemma_keys_least_sub(d2, 0, cut);
                        lemma_keys_least_sub(d2, cut, d2.len() as int);
                        assert(d2.take(cut) =~= d2.subrange(0, cut));
                        assert(d2.skip(cut) =~= d2.subrange(cut, d2.len() as int));
                        let ghost rg = right;
                        if let NodeRef::Internal(rn) = rg {
                            assert(rn.data@[0] == d2[cut]);
                            lemma_has_key_flatten(rn.data@, 0, median_key);
                            lemma_wrap_internal(rn);
                        }
                    }
                    Err((right, median_key))
                }
            },
        }
    }

    /// Splits a full node whose child at `index` split around `child_median_key`:
    /// the right half moves to a new node, and the new entry goes to the
    /// half that covers its key.
    fn split_insert(&mut self, index: usize, child_median_key: u32, new_node_ref: NodeRef) -> (r: (
        NodeRef,
        u32,
    ))
        requires
            old(self).data@.len() == MAX_KEYS,
            index < MAX_KEYS,
            sorted_keys(data_keys(old(self).data@)),
            old(self).data@[index as int].0 < child_median_key,
            index + 1 < MAX_KEYS ==> child_median_key < old(self).data@[index + 1].0,
        ensures
            ({
                let d = old(self).data@;
                let d2 = d.insert(index + 1, (child_median_key, new_node_ref));
                let h = (MAX_KEYS / 2) as int;
                let cut = if child_median_key > d[h].0 {
                    h
                } else {
                    h + 1
                };
                &&& child_median_key != d[h].0
                &&& final(self).data@ == d2.take(cut)
                &&& r.0 matches NodeRef::Internal(n) && n.data@ == d2.skip(cut)
                &&& r.1 == d2[cut].0
                &&& r.1 == d[h].0
            }),
    {
        let ghost d = self.data@;
        let ghost d2 = d.insert(index + 1, (child_median_key, new_node_ref));
        let right_split = self.data.split_off(MAX_KEYS / 2);
        let median_key = right_split[0].0;
        let mut right = InternalNode { data: right_split };
        let ghost h = (MAX_KEYS / 2) as int;
        proof {
            let ks = data_keys(d);
            assert(median_key == d[h].0);
        }
        if child_median_key > median_key {
            proof {
                let ks = data_keys(d);
                if index + 1 <= h {
                    if index < h {
                        assert(ks[index as int] < ks[h]);
                    }
                    if index + 1 < h {
                        assert(ks[index + 1] < ks[h]);
                    }
                    assert(ks[index + 1] == d[index + 1].0);
                }
                assert(data_keys(right.data@) =~= ks.skip(h));
            }
            let found2 = find_entry(&right.data, child_median_key);
            let idx = match found2 {
                Ok(i) => {
                    proof {
                        let ks = data_keys(d);
                        assert(right.data@[i as int] == d[h + i]);
                        assert(ks[h + i] == d[h + i].0);
                        assert(ks[index as int] == d[index as int].0);
                        if h + i <= index {
                            if h + i < index {
                                assert(ks[h + i] < ks[index as int]);
                            }
                        } else {
                            assert(ks[index + 1] == d[index + 1].0);
                            if h + i > index + 1 {
                                assert(ks[index + 1] < ks[h + i]);
                            }
                        }
                    }
                    i
                },
                Err(i) => i,
            };
            proof {
                let ks = data_keys(d);
                let rd = right.data@;
                if idx < index + 1 - h {
                    assert(rd[idx as int] == d[h + idx]);
                    assert(ks[h + idx] == d[h + idx].0);
                    assert(ks[index as int] == d[index as int].0);
                    if h + idx < index {
                        assert(ks[h + idx] < ks[index as int]);
                    }
                }
                if idx > index + 1 - h {
                    assert(rd[index + 1 - h] == d[index + 1]);
                }
                assert(idx == index + 1 - h);
            }
            right.data.insert(idx, (child_median_key, new_node_ref));
            proof {
                assert(self.data@ =~= d2.take(h));
                assert(right.data@ =~= d2.skip(h));
            }
        } else if child_median_key < median_key {
            proof {
                let ks = data_keys(d);
                if index >= h {
                    if index > h {
                        assert(ks[h] < ks[index as int]);
                    }
                    assert(ks[index as int] == d[index as int].0);
                }
                assert(data_keys(self.data@) =~= ks.take(h));
            }
            let found2 = find_entry(&self.data, child_median_key);
            let idx = match found2 {
                Ok(i) => {
                    proof {
                        let ks = data_keys(d);
                        assert(self.data@[i as int] == d[i as int]);
                        assert(ks[i as int] == d[i as int].0);
                        assert(ks[index as int] == d[index as int].0);
                        if i < index {
                            assert(ks[i as int] < ks[index as int]);
                        } else if i > index + 1 {
                            assert(ks[index + 1] == d[index + 1].0);
                            assert(ks[index + 1] < ks[i as int]);
                        } else if i == index + 1 {
                            assert(ks[index + 1] == d[index + 1].0);
                        }
                    }
                    i
                },
                Err(i) => i,
            };
            proof {
                let ks = data_keys(d);
                let ld = self.data@;
                if idx < index + 1 {
                    assert(ld[idx as int] == d[idx as int]);
                    assert(ks[idx as int] == d[idx as int].0);
                    assert(ks[index as int] == d[index as int].0);
                    if idx < index {
                        assert(ks[idx as int] < ks[index as int]);
                    }
                }
                if idx > index + 1 {
                    assert(ld[index + 1] == d[index + 1]);
                }
                assert(idx == index + 1);
            }
            self.data.insert(idx, (child_median_key, new_node_ref));
            proof {
                assert(self.data@ =~= d2.take(h + 1));
                assert(right.data@ =~= d2.skip(h + 1));
            }
        } else {
            proof {
                let ks = data_keys(d);
                assert(ks[h] == d[h].0);
                assert(ks[index as int] == d[index as int].0);
                if index < h {
                    assert(ks[index + 1] == d[index + 1].0);
                    if index + 1 < h {
                        assert(ks[index + 1] < ks[h]);
                    }
                } else if index > h {
                    assert(ks[h] < ks[index as int]);
                }
                assert(false);
            }
        }
        (NodeRef::Internal(right), median_key)
    }

    /// The value stored under `key`, looked up in the child that covers it;
    /// a key below the first key of the node finds nothing.
    pub fn search(&self, key: u32) -> (r: Option<char>)
        requires
            self.wf(),
            self.ready(key),
        ensures
            r == if self.reaches(key) {
                map_get(pair_map(self.entries()), key)
            } else {
                None
            },
        decreases self.depth(),
    {
        proof {
            lemma_data_wf_child(self.data@, 0);
        }
        let found = find_entry(&self.data, key);
        let index = match found {
            Ok(idx) => idx,
            Err(idx) => if idx == 0 {
                proof {
                    lemma_route_entry(self.data@, key, found, -1);
                }
                return None;
            } else {
                idx - 1
            },
        };
        proof {
            let d = self.data@;
            lemma_route_entry(d, key, found, index as int);
            lemma_flatten_split(d, index as int);
            lemma_data_wf_child(d, index as int);
            lemma_internal_wf(d[index as int].1);
            let a = flatten(d.take(index as int));
            let b = flatten(d.skip(index + 1));
            let ks = data_keys(d);
            assert forall|i: int| 0 <= i < d.take(index as int).len() implies all_below(
                #[trigger] d.take(index as int)[i].1.entries(),
                d[index as int].0 as int,
            ) by {
                assert(d.take(index as int)[i] == d[i]);
                lemma_data_wf_child(d, i);
                if i + 1 < index {
                    assert(ks[i + 1] == d[i + 1].0 && ks[index as int] == d[index as int].0);
                }
            }
            lemma_flatten_all_below(d.take(index as int), d[index as int].0 as int);
            if index + 1 < d.len() {
                assert forall|i: int| 0 <= i < d.skip(index + 1).len() implies all_at_least(
                    #[trigger] d.skip(index + 1)[i].1.entries(),
                    d[index + 1].0 as int,
                ) by {
                    assert(d.skip(index + 1)[i] == d[index + 1 + i]);
                    lemma_data_wf_child(d, index + 1 + i);
                    if i > 0 {
                        assert(ks[index + 1] == d[index + 1].0 && ks[index + 1 + i] == d[index + 1 + i].0);
                    }
                }
                lemma_flatten_all_at_least(d.skip(index + 1), d[index + 1].0 as int);
            } else {
                assert(d.skip(index + 1).len() == 0);
                assert(flatten(d.skip(index + 1)) =~= Seq::<(u32, char)>::empty());
            }
            assert forall|i: int| 0 <= i < a.len() implies #[trigger] a[i].0 != key by {
                assert(a[i].0.rank() < d[index as int].0 as int);
            }
            assert forall|i: int| 0 <= i < b.len() implies #[trigger] b[i].0 != key by {
                assert(b[i].0.rank() >= d[index + 1].0 as int);
            }
            lemma_node_facts(d[index as int].1);
            lemma_pair_map_middle(a, d[index as int].1.entries(), b, key);
        }
        match &self.data[index].1 {
            NodeRef::Internal(node_ref) => node_ref.search(key),
            NodeRef::Leaf(leaf_ref) => leaf_ref.search(key),
        }
    }
}

// ---------------------------------------------------------------------------
// Fixing: sorting every leaf.

/// Children that keep their keys, shape and pairs keep the entries fitting.
proof fn lemma_same_children(o: Seq<(u32, NodeRef)>, n: Seq<(u32, NodeRef)>)
    requires
        data_wf(o),
        n.len() == o.len(),
        forall|i: int|
            0 <= i < o.len() ==> {
                &&& (#[trigger] n[i]).0 == o[i].0
                &&& n[i].1.wf()
                &&& n[i].1.depth() == o[i].1.depth()
                &&& same_pairs(n[i].1.entries(), o[i].1.entries())
                &&& (o[i].1 is Internal ==> n[i].1 is Internal && n[i].1.lower() == o[i].1.lower())
                &&& (o[i].1 is Leaf ==> n[i].1 is Leaf)
            },
    ensures
        data_wf(n),
        same_pairs(flatten(n), flatten(o)),
    decreases o.len(),
{
    broadcast use vstd::seq_lib::lemma_seq_concat_contains_all_elements;

    assert(data_keys(n) =~= data_keys(o));
    assert forall|i: int| 0 <= i < n.len() implies #[trigger] n[i].1.entries().len() > 0 && all_at_least(
        n[i].1.entries(),
        n[i].0 as int,
    ) && (i + 1 < n.len() ==> all_below(n[i].1.entries(), n[i + 1].0 as int)) by {
        lemma_data_wf_child(o, i);
        let oe = o[i].1.entries();
        let ne = n[i].1.entries();
        assert(oe.contains(oe[0]));
        assert(ne.contains(oe[0]));
        assert forall|j: int| 0 <= j < ne.len() implies #[trigger] ne[j].0.rank() >= n[i].0 as int
            && (i + 1 < n.len() ==> ne[j].0.rank() < n[i + 1].0 as int) by {
            assert(ne.contains(ne[j]));
            let q = choose|q: int| 0 <= q < oe.len() && oe[q] == ne[j];
        }
    }
    assert forall|i: int| 0 <= i < n.len() implies (#[trigger] n[i]).1.depth() == n[0].1.depth() by {
        lemma_data_wf_child(o, i);
    }
    lemma_flatten_distinct(n);
    if o.len() > 0 {
        let op = o.drop_last();
        let np = n.drop_last();
        assert(o =~= op + seq![o.last()]);
        lemma_cut_prefix(o);
        assert forall|i: int| 0 <= i < op.len() implies {
            &&& (#[trigger] np[i]).0 == op[i].0
            &&& np[i].1.wf()
            &&& np[i].1.depth() == op[i].1.depth()
            &&& same_pairs(np[i].1.entries(), op[i].1.entries())
            &&& (op[i].1 is Internal ==> np[i].1 is Internal && np[i].1.lower() == op[i].1.lower())
            &&& (op[i].1 is Leaf ==> np[i].1 is Leaf)
        } by {
            assert(np[i] == n[i] && op[i] == o[i]);
        }
        lemma_same_children(op, np);
        let l = o.len() - 1;
        assert(same_pairs(n[l].1.entries(), o[l].1.entries()));
    }
    reveal(data_wf);
}

/// Dropping the last entry keeps the entries fitting.
proof fn lemma_cut_prefix(d: Seq<(u32, NodeRef)>)
    requires
        data_wf(d),
        d.len() > 0,
    ensures
        data_wf(d.drop_last()),
{
    reveal(data_wf);
    let p = d.drop_last();
    assert(data_keys(p) =~= data_keys(d).drop_last());
    assert forall|i: int| 0 <= i < p.len() implies (#[trigger] p[i]) == d[i] by {
    }
    assert forall|i: int| 0 <= i < p.len() - 1 implies all_below(
        #[trigger] p[i].1.entries(),
        p[i + 1].0 as int,
    ) by {
        assert(p[i] == d[i] && p[i + 1] == d[i + 1]);
    }
    lemma_flatten_distinct(p);
}

/// Sorted children, each within the bounds of its entry, hold sorted pairs
/// together.
proof fn lemma_flatten_sorted(d: Seq<(u32, NodeRef)>)
    requires
        sorted_keys(data_keys(d)),
        forall|i: int| 0 <= i < d.len() ==> sorted_pairs((#[trigger] d[i]).1.entries()),
        forall|i: int| 0 <= i < d.len() ==> all_at_least((#[trigger] d[i]).1.entries(), d[i].0 as int),
        forall|i: int|
            0 <= i < d.len() - 1 ==> all_below(#[trigger] d[i].1.entries(), d[i + 1].0 as int),
    ensures
        sorted_pairs(flatten(d)),
    decreases d.len(),
{
    if d.len() > 0 {
        let p = d.drop_last();
        let last = d.len() - 1;
        assert(data_keys(p) =~= data_keys(d).drop_last());
        assert forall|i: int| 0 <= i < p.len() implies all_below(
            #[trigger] p[i].1.entries(),
            d[last].0 as int,
        ) by {
            assert(p[i] == d[i]);
            if i + 1 < last {
                assert(data_keys(d)[i + 1] == d[i + 1].0 && data_keys(d)[last] == d[last].0);
            }
        }
        assert forall|i: int| 0 <= i < p.len() implies sorted_pairs((#[trigger] p[i]).1.entries())
            && all_at_least(p[i].1.entries(), p[i].0 as int) by {
            assert(p[i] == d[i]);
        }
        assert forall|i: int| 0 <= i < p.len() - 1 implies all_below(
            #[trigger] p[i].1.entries(),
            p[i + 1].0 as int,
        ) by {
            assert(p[i] == d[i] && p[i + 1] == d[i + 1]);
        }
        lemma_flatten_sorted(p);
        lemma_flatten_all_below(p, d[last].0 as int);
        let x = flatten(p);
        let y = d[last].1.entries();
        let z = x + y;
        assert(flatten(d) == z);
        assert forall|i: int, j: int| #![trigger z[i], z[j]] 0 <= i < j < z.len() implies z[i].0.rank()
            < z[j].0.rank() by {
            if j < x.len() {
                assert(z[i] == x[i] && z[j] == x[j]);
            } else if i >= x.len() {
                assert(z[i] == y[i - x.len()] && z[j] == y[j - x.len()]);
            } else {
                assert(z[i] == x[i] && z[j] == y[j - x.len()]);
            }
        }
    }
}

/// A subtree without dirty leaves holds its pairs sorted.
pub proof fn lemma_fixed_sorted(n: NodeRef)
    requires
        n.wf(),
        n.fixed(),
    ensures
        sorted_pairs(n.entries()),
    decreases n,
{
    match n {
        NodeRef::Internal(node) => {
            let d = node.data@;
            assert forall|i: int| 0 <= i < d.len() implies sorted_pairs((#[trigger] d[i]).1.entries())
                && all_at_least(d[i].1.entries(), d[i].0 as int) by {
                lemma_data_wf_child(d, i);
                assert(d[i].1.fixed());
                lemma_fixed_sorted(d[i].1);
            }
            lemma_data_wf_child(d, 0);
            assert forall|i: int| 0 <= i < d.len() - 1 implies all_below(
                #[trigger] d[i].1.entries(),
                d[i + 1].0 as int,
            ) by {
                lemma_data_wf_child(d, i);
            }
            lemma_flatten_sorted(d);
        },
        NodeRef::Leaf(l) => {},
    }
}

/// The child that a key goes to.
proof fn lemma_route_facts(n: InternalNode, k: u32)
    requires
        n.wf(),
        n.lower() <= k,
    ensures
        1 <= n.route(k) <= n.data@.len(),
        n.data@[n.route(k) - 1].0 <= k,
        n.data@[n.route(k) - 1].1.wf(),
        n.data@[n.route(k) - 1].1 is Internal ==> n.data@[n.route(k) - 1].1.lower() <= k,
{
    let d = n.data@;
    lemma_data_wf_child(d, 0);
    let ks = data_keys(d);
    crate::ordered::lemma_count_keys_at_most_split(ks, k as int);
    assert(ks[0] == d[0].0);
    let c = n.route(k);
    assert(c >= 1);
    assert(ks[c - 1] == d[c - 1].0);
    lemma_data_wf_child(d, c - 1);
}

/// A search for `k` reaches a leaf from any node whose first key is at
/// most `k`.
pub proof fn lemma_reaches(n: NodeRef, k: u32)
    requires
        n.wf(),
        n is Internal ==> n.lower() <= k,
    ensures
        n.reaches(k),
    decreases n,
{
    if let NodeRef::Internal(node) = n {
        lemma_route_facts(node, k);
        lemma_reaches(node.data@[node.route(k) - 1].1, k);
    }
}

/// A search meets no dirty leaf in a subtree without dirty leaves.
pub proof fn lemma_fixed_ready(n: NodeRef, k: u32)
    requires
        n.wf(),
        n.fixed(),
    ensures
        n.ready(k),
    decreases n,
{
    if let NodeRef::Internal(node) = n {
        let c = node.route(k);
        if 1 <= c <= node.data@.len() {
            lemma_data_wf_child(node.data@, c - 1);
            assert(node.data@[c - 1].1.fixed());
            lemma_fixed_ready(node.data@[c - 1].1, k);
        }
    }
}

fn fix_node(node: &mut NodeRef)
    requires
        old(node).wf(),
    ensures
        final(node).wf(),
        final(node).fixed(),
        same_pairs(final(node).entries(), old(node).entries()),
        final(node).depth() == old(node).depth(),
        *old(node) is Internal ==> *final(node) is Internal && final(node).lower() == old(
            node,
        ).lower(),
        *old(node) is Leaf ==> *final(node) is Leaf,
        final(node).same_shape(*old(node)),
        old(node).keys_least() ==> final(node).keys_least(),
    decreases old(node).depth(),
{
    match node {
        NodeRef::Leaf(leaf) => {
            let ghost o = leaf.data@;
            sort_pairs(&mut leaf.data);
            leaf.dirty = false;
            proof {
                lemma_sorted_permutation(leaf.data@, o);
            }
        },
        NodeRef::Internal(n) => {
            let ghost o = n.data@;
            let mut i: usize = 0;
            proof {
                assert(old(node).depth() == o[0].1.depth() + 1);
            }
            while i < n.data.len()
                invariant
                    old(node).depth() == o[0].1.depth() + 1,
                    n.data@.len() == o.len(),
                    1 <= o.len() <= MAX_KEYS,
                    data_wf(o),
                    i <= o.len(),
                    forall|j: int| 0 <= j < o.len() ==> (#[trigger] n.data@[j]).0 == o[j].0,
                    forall|j: int|
                        0 <= j < i ==> {
                            &&& (#[trigger] n.data@[j]).1.wf()
                            &&& n.data@[j].1.fixed()
                            &&& n.data@[j].1.depth() == o[j].1.depth()
                            &&& same_pairs(n.data@[j].1.entries(), o[j].1.entries())
                            &&& (o[j].1 is Internal ==> n.data@[j].1 is Internal
                                && n.data@[j].1.lower() == o[j].1.lower())
                            &&& (o[j].1 is Leaf ==> n.data@[j].1 is Leaf)
                            &&& n.data@[j].1.same_shape(o[j].1)
                            &&& (keys_least_data(o) ==> has_key(n.data@[j].1.entries(), o[j].0)
                                && n.data@[j].1.keys_least())
                        },
                    forall|j: int| i <= j < o.len() ==> (#[trigger] n.data@[j]) == o[j],
                decreases o.len() - i,
            {
                proof {
                    lemma_data_wf_child(o, i as int);
                }
                fix_node(&mut n.data[i].1);
                proof {
                    if keys_least_data(o) {
                        assert(has_key(o[i as int].1.entries(), o[i as int].0));
                        lemma_has_key_same(
                            n.data@[i as int].1.entries(),
                            o[i as int].1.entries(),
                            o[i as int].0,
                        );
                    }
                }
                i += 1;
            }
            proof {
                assert forall|j: int| 0 <= j < o.len() implies {
                    &&& (#[trigger] n.data@[j]).0 == o[j].0
                    &&& n.data@[j].1.wf()
                    &&& n.data@[j].1.depth() == o[j].1.depth()
                    &&& same_pairs(n.data@[j].1.entries(), o[j].1.entries())
                    &&& (o[j].1 is Internal ==> n.data@[j].1 is Internal && n.data@[j].1.lower()
                        == o[j].1.lower())
                    &&& (o[j].1 is Leaf ==> n.data@[j].1 is Leaf)
                    &&& n.data@[j].1.same_shape(o[j].1)
                    &&& (keys_least_data(o) ==> has_key(n.data@[j].1.entries(), n.data@[j].0)
                        && n.data@[j].1.keys_least())
                } by {
                }
                lemma_same_children(o, n.data@);
                lemma_data_wf_child(n.data@, 0);
                lemma_data_wf_child(o, 0);
            }
        },
    }
}

fn collect_pairs(node: &NodeRef, out: &mut Vec<(u32, char)>)
    requires
        node.wf(),
    ensures
        final(out)@ == old(out)@ + node.entries(),
    decreases node.depth(),
{
    match node {
        NodeRef::Leaf(l) => {
            let mut i: usize = 0;
            while i < l.data.len()
                invariant
                    i <= l.data@.len(),
                    out@ == old(out)@ + l.data@.take(i as int),
                decreases l.data@.len() - i,
            {
                out.push(l.data[i]);
                proof {
                    assert(l.data@.take(i + 1) =~= l.data@.take(i as int).push(l.data@[i as int]));
                }
                i += 1;
            }
            proof {
                assert(l.data@.take(i as int) =~= l.data@);
            }
        },
        NodeRef::Internal(n) => {
            let mut i: usize = 0;
            proof {
                assert(n.data@.take(0) =~= Seq::<(u32, NodeRef)>::empty());
                assert(old(out)@ + flatten(n.data@.take(0)) =~= old(out)@);
            }
            while i < n.data.len()
                invariant
                    1 <= n.data@.len(),
                    data_wf(n.data@),
                    node.depth() == n.data@[0].1.depth() + 1,
                    i <= n.data@.len(),
                    out@ == old(out)@ + flatten(n.data@.take(i as int)),
                decreases n.data@.len() - i,
            {
                proof {
                    lemma_data_wf_child(n.data@, i as int);
                }
                collect_pairs(&n.data[i].1, out);
                proof {
                    let t = n.data@.take(i + 1);
                    assert(t.drop_last() =~= n.data@.take(i as int));
                    assert(t.last() == n.data@[i as int]);
                    assert(out@ =~= old(out)@ + flatten(t));
                }
                i += 1;
            }
            proof {
                assert(n.data@.take(i as int) =~= n.data@);
            }
        },
    }
}

// ---------------------------------------------------------------------------
// The tree.

/// A B+ tree from `u32` keys to `char` values. It always holds the key 0.
pub struct BTree {
    root: NodeRef,
}

impl BTree {
    /// The tree is well formed, each key of an internal node is the least
    /// key stored below it, the tree holds the key 0, and a root that is an
    /// internal node starts at key 0.
    pub closed spec fn wf(&self) -> bool {
        &&& self.root.wf()
        &&& self.root.keys_least()
        &&& has_key(self.root.entries(), 0)
        &&& self.root is Internal ==> self.root.lower() == 0
    }

    /// The pairs of the tree, leaf after leaf, each leaf in its own order.
    pub closed spec fn entries(&self) -> Seq<(u32, char)> {
        self.root.entries()
    }

    /// The map from keys to values that the tree holds.
    pub open spec fn view(&self) -> Map<u32, char> {
        pair_map(self.entries())
    }

    /// The number of internal levels above the leaves.
    pub closed spec fn height_spec(&self) -> nat {
        self.root.depth()
    }

    /// The two trees have the same nodes: the same keys in each internal
    /// node, and leaves with the same pairs (see `NodeRef::same_shape`).
    pub closed spec fn same_shape(&self, other: BTree) -> bool {
        self.root.same_shape(other.root)
    }

    /// No leaf is dirty.
    pub closed spec fn is_fixed(&self) -> bool {
        self.root.fixed()
    }

    /// A search for `k` meets no dirty leaf.
    pub closed spec fn ready(&self, k: u32) -> bool {
        self.root.ready(k)
    }
}

impl BTree {
    /// The text of the first `m` levels, each level's labels followed by a
    /// blank line.
    pub closed spec fn levels_text(&self, m: nat) -> Seq<char>
        decreases m,
    {
        if m == 0 {
            Seq::empty()
        } else {
            self.levels_text((m - 1) as nat) + self.root.level_text((m - 1) as nat) + seq![
                '\n',
                '\n',
            ]
        }
    }

    /// The tree drawn level by level: a newline, then for each level, from
    /// the root down to the leaves, the labels of its nodes, each followed by
    /// `" | "`, and a blank line.
    pub closed spec fn text(&self) -> Seq<char> {
        seq!['\n'] + self.levels_text(self.height_spec() + 1)
    }
}

impl BTree {
    /// The root's keys (see `NodeRef::node_keys`).
    pub closed spec fn root_keys(&self) -> Seq<u32> {
        self.root.node_keys()
    }
}

/// The first `m` levels are drawn before the rest.
proof fn lemma_levels_prefix(t: &BTree, m: nat)
    requires
        m >= 1,
    ensures
        t.levels_text(1).is_prefix_of(t.levels_text(m)),
    decreases m,
{
    if m > 1 {
        lemma_levels_prefix(t, (m - 1) as nat);
        lemma_prefix_extend(
            t.levels_text(1),
            t.levels_text((m - 1) as nat),
            t.root.level_text((m - 1) as nat) + seq!['\n', '\n'],
        );
        assert(t.levels_text(m) =~= t.levels_text((m - 1) as nat) + (t.root.level_text(
            (m - 1) as nat,
        ) + seq!['\n', '\n']));
    } else {
        assert(t.levels_text(1).is_prefix_of(t.levels_text(1)));
    }
}

/// The drawing starts with the root alone on its line: every key of the
/// root in the order it is stored, each in decimal with a comma. A root
/// that is an internal node lists its keys in increasing order, from 0.
pub proof fn lemma_text_first_line(t: &BTree)
    requires
        t.wf(),
    ensures
        first_line(t.root_keys()).is_prefix_of(t.text()),
        t.height_spec() > 0 ==> sorted_keys(t.root_keys()) && t.root_keys().len() >= 1
            && t.root_keys()[0] == 0,
{
    let r = t.root;
    lemma_label_lists_keys(r);
    lemma_levels_prefix(t, t.height_spec() + 1);
    assert(t.levels_text(0) =~= Seq::<char>::empty());
    let l1 = t.levels_text(1);
    assert(l1 =~= r.label() + seq![' ', '|', ' '] + seq!['\n', '\n']);
    assert(first_line(t.root_keys()) =~= seq!['\n'] + l1);
    assert((seq!['\n'] + l1).is_prefix_of(seq!['\n'] + t.levels_text(t.height_spec() + 1))) by {
        let big = seq!['\n'] + t.levels_text(t.height_spec() + 1);
        assert((seq!['\n'] + l1) =~= big.subrange(0, (seq!['\n'] + l1).len() as int));
    }
    if t.height_spec() > 0 {
        lemma_internal_wf(r);
        assert(r is Internal);
    }
}

/// A tree whose root is a leaf is drawn as one line: the leaf's keys in
/// parentheses, each followed by a comma, then `" | "` and a blank line.
pub proof fn lemma_text_one_leaf(t: &BTree)
    requires
        t.wf(),
        t.height_spec() == 0,
    ensures
        t.text() == seq!['\n', '('] + keys_text(keys_of_pairs(t.entries())) + seq![
            ')',
            ' ',
            '|',
            ' ',
            '\n',
            '\n',
        ],
{
    let r = t.root;
    assert(r is Leaf);
    assert(t.levels_text(0) == Seq::<char>::empty());
    assert(t.levels_text(1) == t.levels_text(0) + r.level_text(0) + seq!['\n', '\n']);
    assert(t.text() =~= seq!['\n', '('] + keys_text(keys_of_pairs(t.entries())) + seq![
        ')',
        ' ',
        '|',
        ' ',
        '\n',
        '\n',
    ]);
}

/// In a tree without dirty leaves every search is ready, and the pairs are
/// sorted by key.
pub proof fn lemma_fixed_tree(t: &BTree, k: u32)
    requires
        t.wf(),
        t.is_fixed(),
    ensures
        t.ready(k),
        sorted_pairs(t.entries()),
{
    lemma_fixed_ready(t.root, k);
    lemma_fixed_sorted(t.root);
}

/// A well-formed tree holds key 0 and pairs with distinct keys.
pub proof fn lemma_tree_facts(t: &BTree)
    requires
        t.wf(),
    ensures
        t@.contains_key(0),
        distinct_keys(t.entries()),
{
    lemma_node_facts(t.root);
    lemma_has_key_contains(t.entries(), 0);
}

impl BTree {
    /// A tree whose single, dirty leaf holds the pair `(0, 'a')`.
    pub fn new() -> (t: Self)
        ensures
            t.wf(),
            t.entries() == seq![(0u32, 'a')],
            t@ == Map::<u32, char>::empty().insert(0, 'a'),
            t.height_spec() == 0,
            !t.is_fixed(),
    {
        let mut leaf = LeafNode::new();
        let res = leaf.insert_dirty(0, 'a');
        proof {
            assert(res is Ok);
            assert(leaf.data@ =~= seq![(0u32, 'a')]);
            assert(leaf.data@[0].0 == 0);
            lemma_pair_map_plus(leaf.data@, Seq::empty(), 0, 'a');
            assert(pair_map(Seq::<(u32, char)>::empty()) =~= Map::<u32, char>::empty());
        }
        BTree { root: NodeRef::Leaf(leaf) }
    }

    /// Inserts a pair whose key the tree lacks. A root that splits gets a new
    /// root above its two halves, the first entry starting at the old root's
    /// first key.
    pub fn insert(&mut self, key: u32, val: char)
        requires
            old(self).wf(),
            !old(self)@.contains_key(key),
        ensures
            final(self).wf(),
            final(self)@ == old(self)@.insert(key, val),
            old(self).height_spec() <= final(self).height_spec() <= old(self).height_spec() + 1,
    {
        let ghost o = self.root;
        proof {
            lemma_has_key_contains(o.entries(), key);
            lemma_node_facts(o);
            lemma_internal_wf(o);
        }
        let res = match &mut self.root {
            NodeRef::Internal(the_node) => the_node.insert(key, val),
            NodeRef::Leaf(rc) => rc.insert_dirty(key, val),
        };
        let ghost r1 = self.root;
        proof {
            if let NodeRef::Internal(n) = r1 {
                lemma_wrap_internal(n);
            }
        }
        match res {
            Ok(()) => {
                proof {
                    if r1 is Leaf {
                        lemma_push_pairs(o.entries(), (key, val));
                    }
                    lemma_node_facts(r1);
                    lemma_pair_map_plus(r1.entries(), o.entries(), key, val);
                    assert(r1.entries().contains((0, choose|c: char| o.entries().contains((0, c))))) by {
                        lemma_has_key_contains(o.entries(), 0);
                    }
                    lemma_has_key_contains(r1.entries(), 0);
                }
            },
            Err((root_split, split_key)) => {
                let og_key = match &self.root {
                    NodeRef::Internal(the_node) => the_node.data[0].0,
                    NodeRef::Leaf(rc) => rc.data[0].0,
                };
                let mut temp = NodeRef::Internal(InternalNode::new());
                std::mem::swap(&mut self.root, &mut temp);
                let new_root = InternalNode { data: vec![(og_key, temp), (split_key, root_split)] };
                proof {
                    match r1 {
                        NodeRef::Internal(n1) => {
                            lemma_has_key_flatten(n1.data@, 0, og_key);
                        },
                        NodeRef::Leaf(_) => {
                            lemma_leaf_lower(r1);
                        },
                    }
                    if root_split is Leaf {
                        lemma_leaf_lower(root_split);
                    }
                    let nd = new_root.data@;
                    assert(nd =~= seq![(og_key, r1), (split_key, root_split)]);
                    assert forall|i: int| 0 <= i < nd.len() implies has_key(
                        (#[trigger] nd[i]).1.entries(),
                        nd[i].0,
                    ) && nd[i].1.keys_least() by {
                        assert(i == 0 || i == 1);
                    }
                    assert(keys_least_data(nd));
                    assert(temp == r1);
                    lemma_new_root(o, r1, root_split, og_key, split_key, key, val);
                    assert(new_root.data@ =~= seq![(og_key, r1), (split_key, root_split)]);
                    lemma_wrap_internal(new_root);
                }
                self.root = NodeRef::Internal(new_root);
                proof {
                    let ne = self.root.entries();
                    lemma_node_facts(self.root);
                    lemma_pair_map_plus(ne, o.entries(), key, val);
                    lemma_has_key_contains(o.entries(), 0);
                    let c0 = choose|c: char| o.entries().contains((0, c));
                    assert(ne.contains((0, c0)));
                    lemma_has_key_contains(ne, 0);
                }
            },
        }
    }

    /// The value stored under `key`.
    pub fn search(&self, key: u32) -> (r: Option<char>)
        requires
            self.wf(),
            self.ready(key),
        ensures
            r == map_get(self@, key),
    {
        proof {
            lemma_reaches(self.root, key);
            lemma_internal_wf(self.root);
        }
        match &self.root {
            NodeRef::Internal(node) => node.search(key),
            NodeRef::Leaf(node) => node.search(key),
        }
    }

    /// The number of internal levels, counted down the first child of each
    /// node.
    pub fn height(&self) -> (h: usize)
        requires
            self.wf(),
            self.height_spec() <= usize::MAX,
        ensures
            h == self.height_spec(),
    {
        let mut height: usize = 0;
        let mut cur = &self.root;
        loop
            invariant
                cur.wf(),
                height + cur.depth() == self.height_spec(),
                self.height_spec() <= usize::MAX,
            ensures
                height == self.height_spec(),
            decreases cur.depth(),
        {
            match cur {
                NodeRef::Internal(the_node) => {
                    proof {
                        lemma_internal_wf(*cur);
                        lemma_data_wf_child(the_node.data@, 0);
                    }
                    height += 1;
                    cur = &the_node.data[0].1;
                },
                NodeRef::Leaf(_) => {
                    break ;
                },
            }
        }
        height
    }

    /// The tree drawn level by level (see `text`).
    pub fn to_string(&self) -> (s: String)
        requires
            self.wf(),
            self.height_spec() < usize::MAX,
        ensures
            s@ == self.text(),
            first_line(self.root_keys()).is_prefix_of(s@),
    {
        proof {
            lemma_text_first_line(self);
        }
        let h = self.height() + 1;
        let mut out = String::new();
        out.append("\n");
        let mut d: usize = 0;
        proof {
            reveal_strlit("\n");
            assert(out@ =~= seq!['\n'] + self.levels_text(0));
        }
        while d < h
            invariant
                self.wf(),
                h == self.height_spec() + 1,
                d <= h,
                out@ == seq!['\n'] + self.levels_text(d as nat),
            decreases h - d,
        {
            write_level(&self.root, d, &mut out);
            out.append("\n\n");
            proof {
                reveal_strlit("\n\n");
                assert(out@ =~= seq!['\n'] + self.levels_text((d + 1) as nat));
            }
            d += 1;
        }
        out
    }

    /// An iterator over the values, leaf after leaf, each leaf in its own
    /// order: in key order once the tree is fixed.
    pub fn iter(&self) -> (it: BTreeIter)
        requires
            self.wf(),
        ensures
            it.remaining() == crate::ordered::values_of(self.entries()),
            it.wf(),
    {
        let mut pairs: Vec<(u32, char)> = Vec::new();
        collect_pairs(&self.root, &mut pairs);
        proof {
            assert(pairs@ =~= self.entries());
            assert(pairs@.skip(0) =~= pairs@);
        }
        BTreeIter { pairs, current_index: 0 }
    }

    /// Sorts every leaf and marks it clean.
    pub fn fix(&mut self)
        requires
            old(self).wf(),
        ensures
            final(self).wf(),
            final(self)@ == old(self)@,
            final(self).is_fixed(),
            sorted_pairs(final(self).entries()),
            final(self).height_spec() == old(self).height_spec(),
            final(self).same_shape(*old(self)),
    {
        let ghost o = self.root;
        fix_node(&mut self.root);
        proof {
            lemma_node_facts(o);
            lemma_node_facts(self.root);
            lemma_pair_map_same(self.root.entries(), o.entries());
            lemma_fixed_sorted(self.root);
            lemma_has_key_contains(o.entries(), 0);
            let c0 = choose|c: char| o.entries().contains((0, c));
            assert(self.root.entries().contains((0, c0)));
            lemma_has_key_contains(self.root.entries(), 0);
        }
    }
}

/// The new root above the two halves of a split root.
proof fn lemma_new_root(
    o: NodeRef,
    left: NodeRef,
    right: NodeRef,
    og_key: u32,
    split_key: u32,
    key: u32,
    val: char,
)
    requires
        o.wf(),
        has_key(o.entries(), 0),
        o is Internal ==> o.lower() == 0,
        left.wf(),
        right.wf(),
        left.depth() == o.depth(),
        right.depth() == o.depth(),
        o is Internal ==> left is Internal && right is Internal && left.lower() == o.lower()
            && right.lower() == split_key,
        o is Leaf ==> left is Leaf && right is Leaf && sorted_pairs(left.entries()),
        left.entries().len() > 0,
        right.entries().len() > 0,
        og_key == left.lower(),
        all_below(left.entries(), split_key as int),
        all_at_least(right.entries(), split_key as int),
        pairs_plus(left.entries() + right.entries(), o.entries(), (key, val)),
    ensures
        og_key == 0,
        data_wf(seq![(og_key, left), (split_key, right)]),
        flatten(seq![(og_key, left), (split_key, right)]) == left.entries() + right.entries(),
        seq![(og_key, left), (split_key, right)][0].1.depth() == o.depth(),
{
    broadcast use vstd::seq_lib::lemma_seq_concat_contains_all_elements;

    let d = seq![(og_key, left), (split_key, right)];
    lemma_node_facts(left);
    lemma_node_facts(right);
    let le = left.entries();
    if let NodeRef::Leaf(l) = left {
        assert forall|j: int| 0 <= j < le.len() implies #[trigger] le[j].0.rank() >= og_key as int by {
            if j > 0 {
                assert(le[0].0.rank() < le[j].0.rank());
            }
        }
    }
    assert(le[0].0.rank() >= og_key as int);
    assert(og_key < split_key);
    // The key 0 stays in the left half.
    if o is Leaf {
        lemma_has_key_contains(o.entries(), 0);
        let c0 = choose|c: char| o.entries().contains((0, c));
        assert((le + right.entries()).contains((0, c0)));
        if right.entries().contains((0, c0)) {
            let q = choose|q: int| 0 <= q < right.entries().len() && right.entries()[q] == (0u32, c0);
            assert(right.entries()[q].0.rank() >= split_key as int);
        }
        let q = choose|q: int| 0 <= q < le.len() && le[q] == (0u32, c0);
        assert(le[q].0.rank() >= og_key as int);
    }
    assert(data_keys(d) =~= seq![og_key, split_key]);
    assert(d.drop_last() =~= seq![(og_key, left)]);
    lemma_flatten_single((og_key, left));
    assert(flatten(d) =~= le + right.entries());
    assert(d[0] == (og_key, left) && d[1] == (split_key, right));
    assert forall|i: int| 0 <= i < d.len() implies (#[trigger] d[i]).1.wf() && d[i].1.depth()
        == d[0].1.depth() && d[i].1.entries().len() > 0 && all_at_least(d[i].1.entries(), d[i].0 as int)
        && (d[i].1 is Internal ==> d[i].1.lower() <= d[i].0) by {
        assert(i == 0 || i == 1);
    }
    lemma_flatten_distinct(d);
    reveal(data_wf);
}

/// An iterator over the values of a tree.
pub struct BTreeIter {
    pairs: Vec<(u32, char)>,
    current_index: usize,
}

impl BTreeIter {
    /// The values that the iterator has yet to give.
    pub closed spec fn remaining(&self) -> Seq<char> {
        crate::ordered::values_of(self.pairs@.skip(self.current_index as int))
    }

    /// The iterator can be advanced.
    pub closed spec fn wf(&self) -> bool {
        &&& self.pairs@.len() > 0
        &&& self.current_index <= self.pairs@.len()
    }

    /// The next value, if any is left.
    pub fn next(&mut self) -> (r: Option<char>)
        requires
            old(self).wf(),
        ensures
            final(self).wf(),
            old(self).remaining().len() == 0 ==> r is None && final(self).remaining()
                == old(self).remaining(),
            old(self).remaining().len() > 0 ==> r == Some(old(self).remaining()[0])
                && final(self).remaining() == old(self).remaining().drop_first(),
    {
        if self.current_index < self.pairs.len() {
            let v = self.pairs[self.current_index].1;
            self.current_index = self.current_index + 1;
            proof {
                assert(old(self).pairs@.skip(old(self).current_index as int).drop_first()
                    =~= self.pairs@.skip(self.current_index as int));
                assert(self.remaining() =~= old(self).remaining().drop_first());
            }
            Some(v)
        } else {
            None
        }
    }
}

} // verus!
