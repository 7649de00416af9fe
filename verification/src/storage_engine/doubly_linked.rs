//! A doubly linked list whose nodes live in slots of a vector and point to
//! their neighbours by slot number; emptied slots are kept for reuse.
use vstd::prelude::*;

verus! {

/// A node of the list: its value and the slots of its neighbours.
pub struct Node<T> {
    pub next: Option<usize>,
    pub data: T,
    pub prev: Option<usize>,
}

impl<T> Node<T> {
    /// A node holding `data`, linked to nothing.
    pub fn new(data: T) -> (r: Self)
        ensures
            r.next is None,
            r.prev is None,
            r.data == data,
    {
        Self { next: None, data, prev: None }
    }
}

/// A list that can grow and shrink at both ends.
pub struct DoublyLinkedList<T> {
    head: Option<usize>,
    tail: Option<usize>,
    len: usize,
    nodes: Vec<Option<Node<T>>>,
    free: Vec<usize>,
    order: Ghost<Seq<usize>>,
}

/// The entry at position `i` of `s`, or nothing outside it.
pub open spec fn entry_at(s: Seq<usize>, i: int) -> Option<usize> {
    if 0 <= i < s.len() {
        Some(s[i])
    } else {
        None
    }
}

/// Every slot listed in `free` is empty, and none is listed twice.
pub open spec fn free_slots_ok<T>(nodes: Seq<Option<Node<T>>>, free: Seq<usize>) -> bool {
    &&& forall|j: int|
        0 <= j < free.len() ==> #[trigger] free[j] < nodes.len() && nodes[free[j] as int] is None
    &&& forall|j: int, k: int| 0 <= j < k < free.len() ==> free[j] != free[k]
}

/// `nodes` with the node in slot `s` given the neighbour links `prev` and
/// `next`.
pub open spec fn relinked<T>(
    nodes: Seq<Option<Node<T>>>,
    s: int,
    prev: Option<usize>,
    next: Option<usize>,
) -> Seq<Option<Node<T>>> {
    nodes.update(s, Some(Node { next, data: nodes[s].unwrap().data, prev }))
}

impl<T> DoublyLinkedList<T> {
    /// The slots of the list's nodes, from front to back.
    pub closed spec fn order(&self) -> Seq<usize> {
        self.order@
    }

    /// The links of every node follow the order, the ends are the first and
    /// last node, and the free slots are empty.
    pub closed spec fn wf(&self) -> bool {
        let ord = self.order@;
        &&& self.len == ord.len()
        &&& forall|i: int|
            0 <= i < ord.len() ==> {
                &&& #[trigger] ord[i] < self.nodes@.len()
                &&& self.nodes@[ord[i] as int] is Some
                &&& self.nodes@[ord[i] as int].unwrap().prev == entry_at(ord, i - 1)
                &&& self.nodes@[ord[i] as int].unwrap().next == entry_at(ord, i + 1)
            }
        &&& forall|i: int, j: int| #![trigger ord[i], ord[j]] 0 <= i < j < ord.len() ==> ord[i] != ord[j]
        &&& self.head == entry_at(ord, 0)
        &&& self.tail == entry_at(ord, ord.len() - 1)
        &&& free_slots_ok(self.nodes@, self.free@)
    }
}

impl<T> View for DoublyLinkedList<T> {
    type V = Seq<T>;

    /// The values of the list, from front to back.
    closed spec fn view(&self) -> Seq<T> {
        Seq::new(self.order@.len(), |i: int| self.nodes@[self.order@[i] as int].unwrap().data)
    }
}

/// Gives the node in slot `s` the neighbour links `prev` and `next`.
fn relink<T>(nodes: &mut Vec<Option<Node<T>>>, s: usize, prev: Option<usize>, next: Option<usize>)
    requires
        s < old(nodes)@.len(),
        old(nodes)@[s as int] is Some,
    ensures
        final(nodes)@ == relinked(old(nodes)@, s as int, prev, next),
{
    let Node { next: _, data, prev: _ } = nodes[s].take().unwrap();
    nodes.set(s, Some(Node { next, data, prev }));
}

/// Empties slot `s` and gives back its node.
fn take_node<T>(nodes: &mut Vec<Option<Node<T>>>, s: usize) -> (n: Node<T>)
    requires
        s < old(nodes)@.len(),
        old(nodes)@[s as int] is Some,
    ensures
        Some(n) == old(nodes)@[s as int],
        final(nodes)@ == old(nodes)@.update(s as int, None),
{
    nodes[s].take().unwrap()
}

impl<T> DoublyLinkedList<T> {
    /// An empty list.
    pub fn new() -> (r: Self)
        ensures
            r.wf(),
            r@ == Seq::<T>::empty(),
    {
        let r = Self {
            head: None,
            tail: None,
            len: 0,
            nodes: Vec::new(),
            free: Vec::new(),
            order: Ghost(Seq::empty()),
        };
        proof {
            assert(r@ =~= Seq::<T>::empty());
        }
        r
    }

    /// Puts `node` in an empty slot, reusing a freed one where there is one,
    /// and gives the slot.
    fn place_node(&mut self, node: Node<T>) -> (s: usize)
        requires
            free_slots_ok(old(self).nodes@, old(self).free@),
        ensures
            free_slots_ok(final(self).nodes@, final(self).free@),
            s < final(self).nodes@.len(),
            s >= old(self).nodes@.len() || old(self).nodes@[s as int] is None,
            final(self).nodes@.len() >= old(self).nodes@.len(),
            final(self).nodes@[s as int] == Some(node),
            forall|i: int|
                0 <= i < old(self).nodes@.len() && i != s ==> #[trigger] final(self).nodes@[i]
                    == old(self).nodes@[i],
            final(self).head == old(self).head,
            final(self).tail == old(self).tail,
            final(self).len == old(self).len,
            final(self).order == old(self).order,
    {
        match self.free.pop() {
            Some(s) => {
                proof {
                    assert(old(self).free@[old(self).free@.len() - 1] == s);
                }
                self.nodes.set(s, Some(node));
                proof {
                    let f = self.free@;
                    let of = old(self).free@;
                    assert forall|j: int| 0 <= j < f.len() implies #[trigger] f[j] < self.nodes@.len()
                        && self.nodes@[f[j] as int] is None by {
                        assert(f[j] == of[j]);
                        assert(of[j] != of[of.len() - 1]);
                    }
                    assert forall|j: int, k: int| 0 <= j < k < f.len() implies f[j] != f[k] by {
                        assert(f[j] == of[j] && f[k] == of[k]);
                    }
                }
                s
            },
            None => {
                self.nodes.push(Some(node));
                proof {
                    assert forall|j: int| 0 <= j < self.free@.len() implies #[trigger] self.free@[j]
                        < self.nodes@.len() && self.nodes@[self.free@[j] as int] is None by {
                        assert(self.nodes@[self.free@[j] as int] == old(self).nodes@[self.free@[j] as int]);
                    }
                }
                self.nodes.len() - 1
            },
        }
    }

    /// Adds `new_val` at the front.
    pub fn push_front(&mut self, new_val: T)
        requires
            old(self).wf(),
            old(self)@.len() < usize::MAX,
        ensures
            final(self).wf(),
            final(self)@ == seq![new_val] + old(self)@,
    {
        let mut temp = Node::new(new_val);
        temp.next = self.head;
        let idx = self.place_node(temp);
        let ghost mid = self.nodes@;
        match self.head {
            Some(h) => {
                proof {
                    assert(self.order@[0] == h);
                }
                let nx = self.nodes[h].as_ref().unwrap().next;
                relink(&mut self.nodes, h, Some(idx), nx);
            },
            None => {},
        }
        self.head = Some(idx);
        if self.tail.is_none() {
            self.tail = Some(idx);
        }
        self.len = self.len + 1;
        let ghost o = self.order@;
        self.order = Ghost(seq![idx] + o);
        proof {
            let ord = self.order@;
            let on = old(self).nodes@;
            assert forall|i: int| 0 <= i < o.len() implies #[trigger] o[i] != idx by {
                if idx < on.len() {
                    assert(on[o[i] as int] is Some);
                }
            }
            assert forall|i: int| 0 <= i < ord.len() implies {
                &&& #[trigger] ord[i] < self.nodes@.len()
                &&& self.nodes@[ord[i] as int] is Some
                &&& self.nodes@[ord[i] as int].unwrap().prev == entry_at(ord, i - 1)
                &&& self.nodes@[ord[i] as int].unwrap().next == entry_at(ord, i + 1)
            } by {
                if i > 0 {
                    assert(ord[i] == o[i - 1]);
                    assert(mid[o[i - 1] as int] == on[o[i - 1] as int]);
                    if i > 1 {
                        assert(o[i - 1] != o[0]);
                    }
                }
            }
            assert forall|i: int, j: int| #![trigger ord[i], ord[j]] 0 <= i < j < ord.len() implies ord[i]
                != ord[j] by {
                if i > 0 {
                    assert(ord[i] == o[i - 1] && ord[j] == o[j - 1]);
                } else {
                    assert(ord[j] == o[j - 1]);
                }
            }
            assert forall|j: int| 0 <= j < self.free@.len() implies #[trigger] self.free@[j]
                < self.nodes@.len() && self.nodes@[self.free@[j] as int] is None by {
                if o.len() > 0 {
                    assert(mid[o[0] as int] is Some);
                }
            }
            assert(self@ =~= seq![new_val] + old(self)@) by {
                assert forall|i: int| 1 <= i < ord.len() implies self.nodes@[ord[i] as int].unwrap().data
                    == on[o[i - 1] as int].unwrap().data by {
                    assert(ord[i] == o[i - 1]);
                }
            }
        }
    }

    /// Adds `val` at the back of a list that holds at least one value.
    pub fn push_back(&mut self, val: T)
        requires
            old(self).wf(),
            0 < old(self)@.len() < usize::MAX,
        ensures
            final(self).wf(),
            final(self)@ == old(self)@.push(val),
    {
        let mut temp = Node::new(val);
        temp.prev = self.tail;
        let idx = self.place_node(temp);
        let ghost mid = self.nodes@;
        let ghost o = self.order@;
        match self.tail {
            Some(t) => {
                proof {
                    assert(o[o.len() - 1] == t);
                }
                let pv = self.nodes[t].as_ref().unwrap().prev;
                relink(&mut self.nodes, t, pv, Some(idx));
            },
            None => {},
        }
        self.tail = Some(idx);
        self.len = self.len + 1;
        self.order = Ghost(o.push(idx));
        proof {
            let ord = self.order@;
            let on = old(self).nodes@;
            let n = o.len() as int;
            assert forall|i: int| 0 <= i < n implies #[trigger] o[i] != idx by {
                if idx < on.len() {
                    assert(on[o[i] as int] is Some);
                }
            }
            assert forall|i: int| 0 <= i < ord.len() implies {
                &&& #[trigger] ord[i] < self.nodes@.len()
                &&& self.nodes@[ord[i] as int] is Some
                &&& self.nodes@[ord[i] as int].unwrap().prev == entry_at(ord, i - 1)
                &&& self.nodes@[ord[i] as int].unwrap().next == entry_at(ord, i + 1)
            } by {
                if i < n {
                    assert(ord[i] == o[i]);
                    assert(mid[o[i] as int] == on[o[i] as int]);
                    if i < n - 1 {
                        assert(o[i] != o[n - 1]);
                    }
                }
            }
            assert forall|i: int, j: int| #![trigger ord[i], ord[j]] 0 <= i < j < ord.len() implies ord[i]
                != ord[j] by {
                assert(ord[i] == o[i]);
                if j < n {
                    assert(ord[j] == o[j]);
                }
            }
            assert forall|j: int| 0 <= j < self.free@.len() implies #[trigger] self.free@[j]
                < self.nodes@.len() && self.nodes@[self.free@[j] as int] is None by {
                assert(mid[o[n - 1] as int] is Some);
            }
            assert(self@ =~= old(self)@.push(val)) by {
                assert forall|i: int| 0 <= i < n implies self.nodes@[ord[i] as int].unwrap().data
                    == on[o[i] as int].unwrap().data by {
                    assert(ord[i] == o[i]);
                }
            }
        }
    }

    /// Removes the front value and gives it, or nothing if the list is
    /// empty.
    pub fn pop_front(&mut self) -> (r: Option<T>)
        requires
            old(self).wf(),
        ensures
            final(self).wf(),
            old(self)@.len() == 0 ==> r is None && final(self)@ == old(self)@,
            old(self)@.len() > 0 ==> r == Some(old(self)@[0]) && final(self)@
                == old(self)@.drop_first(),
    {
        match self.head {
            None => None,
            Some(h) => {
                let ghost o = self.order@;
                let ghost on = self.nodes@;
                proof {
                    assert(o[0] == h);
                }
                let Node { next, data, prev: _ } = take_node(&mut self.nodes, h);
                let ghost mid = self.nodes@;
                match next {
                    Some(nx) => {
                        proof {
                            assert(o[1] == nx);
                            assert(mid[nx as int] == on[nx as int]);
                        }
                        let nn = self.nodes[nx].as_ref().unwrap().next;
                        relink(&mut self.nodes, nx, None, nn);
                    },
                    None => {},
                }
                if self.len == 1 {
                    self.tail = None;
                }
                self.head = next;
                self.len = self.len - 1;
                self.free.push(h);
                self.order = Ghost(o.drop_first());
                proof {
                    let ord = self.order@;
                    assert forall|i: int| 0 <= i < ord.len() implies {
                        &&& #[trigger] ord[i] < self.nodes@.len()
                        &&& self.nodes@[ord[i] as int] is Some
                        &&& self.nodes@[ord[i] as int].unwrap().prev == entry_at(ord, i - 1)
                        &&& self.nodes@[ord[i] as int].unwrap().next == entry_at(ord, i + 1)
                    } by {
                        assert(ord[i] == o[i + 1]);
                        assert(o[i + 1] != o[0]);
                        if i > 0 {
                            assert(o[i + 1] != o[1]);
                        }
                    }
                    assert forall|i: int, j: int| #![trigger ord[i], ord[j]] 0 <= i < j < ord.len()
                        implies ord[i] != ord[j] by {
                        assert(ord[i] == o[i + 1] && ord[j] == o[j + 1]);
                    }
                    let f = self.free@;
                    let of = old(self).free@;
                    assert forall|j: int| 0 <= j < f.len() implies #[trigger] f[j] < self.nodes@.len()
                        && self.nodes@[f[j] as int] is None by {
                        if j < of.len() {
                            assert(f[j] == of[j]);
                            if o.len() > 1 {
                                assert(on[o[1] as int] is Some);
                            }
                        }
                    }
                    assert forall|j: int, k: int| 0 <= j < k < f.len() implies f[j] != f[k] by {
                        assert(f[j] == of[j]);
                        if k < of.len() {
                            assert(f[k] == of[k]);
                        } else {
                            assert(on[of[j] as int] is None);
                        }
                    }
                    assert(self@ =~= old(self)@.drop_first()) by {
                        assert forall|i: int| 0 <= i < ord.len() implies self.nodes@[ord[i] as int].unwrap().data
                            == on[o[i + 1] as int].unwrap().data by {
                            assert(ord[i] == o[i + 1]);
                            assert(o[i + 1] != o[0]);
                        }
                    }
                }
                Some(data)
            },
        }
    }

    /// Removes the back value and gives it, or nothing if the list is
    /// empty.
    pub fn pop_back(&mut self) -> (r: Option<T>)
        requires
            old(self).wf(),
        ensures
            final(self).wf(),
            old(self)@.len() == 0 ==> r is None && final(self)@ == old(self)@,
            old(self)@.len() > 0 ==> r == Some(old(self)@.last()) && final(self)@
                == old(self)@.drop_last(),
    {
        match self.tail {
            None => None,
            Some(t) => {
                let ghost o = self.order@;
                let ghost on = self.nodes@;
                let ghost n = o.len() as int;
                proof {
                    assert(o[n - 1] == t);
                }
                let Node { next: _, data, prev } = take_node(&mut self.nodes, t);
                let ghost mid = self.nodes@;
                match prev {
                    Some(pv) => {
                        proof {
                            assert(o[n - 2] == pv);
                            assert(mid[pv as int] == on[pv as int]);
                        }
                        let pp = self.nodes[pv].as_ref().unwrap().prev;
                        relink(&mut self.nodes, pv, pp, None);
                    },
                    None => {},
                }
                if self.len == 1 {
                    self.head = None;
                }
                self.tail = prev;
                self.len = self.len - 1;
                self.free.push(t);
                self.order = Ghost(o.drop_last());
                proof {
                    let ord = self.order@;
                    assert forall|i: int| 0 <= i < ord.len() implies {
                        &&& #[trigger] ord[i] < self.nodes@.len()
                        &&& self.nodes@[ord[i] as int] is Some
                        &&& self.nodes@[ord[i] as int].unwrap().prev == entry_at(ord, i - 1)
                        &&& self.nodes@[ord[i] as int].unwrap().next == entry_at(ord, i + 1)
                    } by {
                        assert(ord[i] == o[i]);
                        assert(o[i] != o[n - 1]);
                        if i < n - 2 {
                            assert(o[i] != o[n - 2]);
                        }
                    }
                    assert forall|i: int, j: int| #![trigger ord[i], ord[j]] 0 <= i < j < ord.len()
                        implies ord[i] != ord[j] by {
                        assert(ord[i] == o[i] && ord[j] == o[j]);
                    }
                    let f = self.free@;
                    let of = old(self).free@;
                    assert forall|j: int| 0 <= j < f.len() implies #[trigger] f[j] < self.nodes@.len()
                        && self.nodes@[f[j] as int] is None by {
                        if j < of.len() {
                            assert(f[j] == of[j]);
                            if n > 1 {
                                assert(on[o[n - 2] as int] is Some);
                            }
                        }
                    }
                    assert forall|j: int, k: int| 0 <= j < k < f.len() implies f[j] != f[k] by {
                        assert(f[j] == of[j]);
                        if k < of.len() {
                            assert(f[k] == of[k]);
                        } else {
                            assert(on[of[j] as int] is None);
                        }
                    }
                    assert(self@ =~= old(self)@.drop_last()) by {
                        assert forall|i: int| 0 <= i < ord.len() implies self.nodes@[ord[i] as int].unwrap().data
                            == on[o[i] as int].unwrap().data by {
                            assert(ord[i] == o[i]);
                            assert(o[i] != o[n - 1]);
                        }
                    }
                }
                Some(data)
            },
        }
    }
}

/// What `push_front` adds, `pop_front` takes back first, leaving the list
/// as it was.
pub proof fn lemma_push_front_pop_front<T>(s: Seq<T>, v: T)
    ensures
        (seq![v] + s).len() > 0,
        (seq![v] + s)[0] == v,
        (seq![v] + s).drop_first() == s,
{
    assert((seq![v] + s).drop_first() =~= s);
}

/// What `push_back` adds, `pop_back` takes back first, leaving the list as
/// it was.
pub proof fn lemma_push_back_pop_back<T>(s: Seq<T>, v: T)
    ensures
        s.push(v).len() > 0,
        s.push(v).last() == v,
        s.push(v).drop_last() == s,
{
    assert(s.push(v).drop_last() =~= s);
}

} // verus!
