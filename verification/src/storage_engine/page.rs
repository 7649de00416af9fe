//! A slotted page: records are stored from the end of the page buffer
//! downwards, and a slot array at the front records where each one lies.
use vstd::prelude::*;

verus! {

/// The kind of node a page stores.
pub enum NodeType {
    Leaf,
    Internal,
}

/// Where a record ends in the buffer and how long it is.
#[derive(Clone, Copy)]
struct CellPointer {
    offset: u16,
    cell_size: u16,
}

/// A page whose records are laid out from the end of `data` downwards; the
/// free space ends at `free_end_offset`.
pub struct SlottedPage<const SORT: bool> {
    page_type: NodeType,
    free_end_offset: u16,
    pointers: Vec<Option<CellPointer>>,
    data: Vec<u8>,
}

/// `data` with the `len` bytes at `src` copied to `dest`, as `copy_within`
/// does.
pub open spec fn moved(data: Seq<u8>, src: int, len: int, dest: int) -> Seq<u8> {
    Seq::new(
        data.len(),
        |i: int|
            if dest <= i < dest + len {
                data[src + (i - dest)]
            } else {
                data[i]
            },
    )
}

/// One step of compaction: a live record that ends below `cur` moves to end
/// at `cur`, and `cur` drops by its size.
pub open spec fn compact_step(data: Seq<u8>, cur: int, slot: Option<(int, int)>) -> (Seq<u8>, int) {
    match slot {
        Some((offset, size)) => if offset < cur {
            (moved(data, offset - size, size, cur - size), cur - size)
        } else {
            (data, cur)
        },
        None => (data, cur),
    }
}

/// The buffer and free-space end after compacting the records of `slots` in
/// order, starting from the end `cur` of the buffer.
pub open spec fn compact_run(slots: Seq<Option<(int, int)>>, data: Seq<u8>, cur: int) -> (
    Seq<u8>,
    int,
)
    decreases slots.len(),
{
    if slots.len() == 0 {
        (data, cur)
    } else {
        let prev = compact_run(slots.drop_last(), data, cur);
        compact_step(prev.0, prev.1, slots.last())
    }
}

impl<const SORT: bool> SlottedPage<SORT> {
    /// The page buffer.
    pub closed spec fn bytes(&self) -> Seq<u8> {
        self.data@
    }

    /// Where the free space ends.
    pub closed spec fn free_end(&self) -> int {
        self.free_end_offset as int
    }

    /// Each slot: the end offset and size of its record, or nothing once the
    /// record is removed.
    pub closed spec fn slots(&self) -> Seq<Option<(int, int)>> {
        Seq::new(
            self.pointers@.len(),
            |i: int|
                match self.pointers@[i] {
                    Some(cp) => Some((cp.offset as int, cp.cell_size as int)),
                    None => None,
                },
        )
    }

    /// The record of a live slot.
    pub open spec fn record(&self, i: int) -> Option<Seq<u8>> {
        match self.slots()[i] {
            Some((offset, size)) => Some(self.bytes().subrange(offset - size, offset)),
            None => None,
        }
    }

    /// Every record lies inside the buffer, the free space too, and offsets
    /// fit in a `u16`.
    pub open spec fn wf(&self) -> bool {
        &&& self.bytes().len() <= u16::MAX
        &&& 0 <= self.free_end() <= self.bytes().len()
        &&& forall|i: int|
            0 <= i < self.slots().len() ==> (#[trigger] self.slots()[i] matches Some((offset, size))
                ==> 0 <= size <= offset <= self.bytes().len())
    }

    /// Every live record lies above the free space.
    pub open spec fn records_above_free_space(&self) -> bool {
        forall|i: int|
            0 <= i < self.slots().len() ==> (#[trigger] self.slots()[i] matches Some((offset, size))
                ==> self.free_end() <= offset - size)
    }

    /// The record in slot `index`, or nothing for a removed one.
    pub fn get(&self, index: usize) -> (r: Option<&[u8]>)
        requires
            self.wf(),
            index < self.slots().len(),
        ensures
            match self.record(index as int) {
                Some(rec) => r matches Some(s) && s@ == rec,
                None => r is None,
            },
    {
        let CellPointer { offset, cell_size } = match self.pointers[index] {
            Some(cp) => cp,
            None => {
                return None;
            },
        };
        proof {
            assert(self.slots()[index as int] == Some((offset as int, cell_size as int)));
        }
        let (l, r) = ((offset - cell_size) as usize, offset as usize);
        Some(slice_range(self.data.as_slice(), l, r))
    }

    /// A page of the given kind over `data`, with no record and the free
    /// space ending at `free_end_offset`.
    pub fn from_parts(page_type: NodeType, free_end_offset: u16, data: Vec<u8>) -> (r: Self)
        requires
            free_end_offset <= data@.len() <= u16::MAX,
        ensures
            r.wf(),
            r.records_above_free_space(),
            r.bytes() == data@,
            r.free_end() == free_end_offset,
            r.slots() == Seq::<Option<(int, int)>>::empty(),
    {
        let r = SlottedPage { page_type, free_end_offset, pointers: Vec::new(), data };
        proof {
            assert(r.slots() =~= Seq::<Option<(int, int)>>::empty());
        }
        r
    }

    /// Where the free space ends.
    pub fn free_end_offset(&self) -> (r: u16)
        ensures
            r == self.free_end(),
    {
        self.free_end_offset
    }
}

/// The bytes of `s` from `l` up to `r`.
fn slice_range(s: &[u8], l: usize, r: usize) -> (out: &[u8])
    requires
        l <= r <= s@.len(),
    ensures
        out@ == s@.subrange(l as int, r as int),
{
    &s[l..r]
}

/// Copies `len` bytes from `src` to `dest`, a later position, as
/// `copy_within` does.
fn move_bytes(data: &mut Vec<u8>, src: usize, len: usize, dest: usize)
    requires
        src <= dest,
        dest + len <= old(data)@.len(),
    ensures
        final(data)@ == moved(old(data)@, src as int, len as int, dest as int),
{
    let ghost o = data@;
    let n: usize = data.len();
    let mut i: usize = len;
    while i > 0
        invariant
            n == o.len(),
            i <= len,
            src <= dest,
            dest + len <= o.len(),
            data@.len() == o.len(),
            forall|j: int|
                0 <= j < o.len() ==> #[trigger] data@[j] == if dest + i <= j < dest + len {
                    o[src + (j - dest)]
                } else {
                    o[j]
                },
        decreases i,
    {
        i = i - 1;
        let b = data[src + i];
        data.set(dest + i, b);
    }
    proof {
        assert(data@ =~= moved(o, src as int, len as int, dest as int));
    }
}

impl SlottedPage<false> {
    /// Does nothing: a page is made with `from_parts`.
    pub fn new() {
    }

    /// Stores the record just below the free space and gives the index of
    /// its new slot.
    pub fn insert(&mut self, record: &[u8]) -> (index: usize)
        requires
            old(self).wf(),
            record@.len() <= old(self).free_end(),
            old(self).slots().len() < usize::MAX,
        ensures
            final(self).wf(),
            index == old(self).slots().len(),
            final(self).free_end() == old(self).free_end() - record@.len(),
            final(self).slots() == old(self).slots().push(
                Some((old(self).free_end(), record@.len() as int)),
            ),
            final(self).bytes() == old(self).bytes().subrange(0, final(self).free_end()) + record@
                + old(self).bytes().subrange(
                old(self).free_end(),
                old(self).bytes().len() as int,
            ),
            final(self).record(index as int) == Some(record@),
            old(self).records_above_free_space() ==> {
                &&& final(self).records_above_free_space()
                &&& forall|i: int|
                    0 <= i < old(self).slots().len() ==> #[trigger] final(self).record(i)
                        == old(self).record(i)
            },
    {
        let cell_size = record.len() as u16;
        self.free_end_offset = self.free_end_offset - cell_size;
        let start = self.free_end_offset as usize;
        let mut i: usize = 0;
        let ghost o = self.data@;
        let n: usize = self.data.len();
        while i < record.len()
            invariant
                n == o.len(),
                self.free_end_offset == start,
                start + cell_size == old(self).free_end_offset,
                cell_size == record@.len(),
                self.pointers == old(self).pointers,
                i <= record@.len(),
                start + record@.len() <= o.len(),
                self.data@.len() == o.len(),
                forall|j: int|
                    0 <= j < o.len() ==> #[trigger] self.data@[j] == if start <= j < start + i {
                        record@[j - start]
                    } else {
                        o[j]
                    },
            decreases record@.len() - i,
        {
            self.data.set(start + i, record[i]);
            i += 1;
        }
        let cell_pointer = CellPointer {
            offset: self.free_end_offset + cell_size,
            cell_size: cell_size,
        };
        self.pointers.push(Some(cell_pointer));
        proof {
            let n = self.data@;
            let fe = start as int;
            assert(n =~= o.subrange(0, fe) + record@ + o.subrange(
                fe + record@.len(),
                o.len() as int,
            ));
            assert(self.slots() =~= old(self).slots().push(
                Some((old(self).free_end(), record@.len() as int)),
            ));
            assert(n.subrange(fe, fe + record@.len()) =~= record@);
            if old(self).records_above_free_space() {
                assert forall|i: int|
                    0 <= i < old(self).slots().len() implies #[trigger] self.record(i)
                        == old(self).record(i) by {
                    assert(self.slots()[i] == old(self).slots()[i]);
                    if let Some((offset, size)) = old(self).slots()[i] {
                        assert(n.subrange(offset - size, offset) =~= o.subrange(
                            offset - size,
                            offset,
                        ));
                    }
                }
                assert forall|i: int| 0 <= i < self.slots().len() implies (
                #[trigger] self.slots()[i] matches Some((offset, size)) ==> self.free_end()
                    <= offset - size) by {
                    if i < old(self).slots().len() {
                        assert(self.slots()[i] == old(self).slots()[i]);
                    }
                }
            }
        }
        self.pointers.len() - 1
    }

    /// Empties slot `index`; its bytes stay in place.
    pub fn remove(&mut self, index: usize)
        requires
            old(self).wf(),
            index < old(self).slots().len(),
        ensures
            final(self).wf(),
            final(self).bytes() == old(self).bytes(),
            final(self).free_end() == old(self).free_end(),
            final(self).slots() == old(self).slots().update(index as int, None),
            final(self).record(index as int) is None,
            forall|i: int|
                0 <= i < old(self).slots().len() && i != index ==> #[trigger] final(self).record(i)
                    == old(self).record(i),
            old(self).records_above_free_space() ==> final(self).records_above_free_space(),
    {
        self.pointers.set(index, None);
        proof {
            assert(self.slots() =~= old(self).slots().update(index as int, None));
            assert forall|i: int|
                0 <= i < old(self).slots().len() && i != index implies #[trigger] self.record(i)
                    == old(self).record(i) by {
                assert(self.slots()[i] == old(self).slots()[i]);
            }
            if old(self).records_above_free_space() {
                assert forall|i: int| 0 <= i < self.slots().len() implies (
                #[trigger] self.slots()[i] matches Some((offset, size)) ==> self.free_end()
                    <= offset - size) by {
                    assert(i != index ==> self.slots()[i] == old(self).slots()[i]);
                }
            }
        }
    }

    /// Walks the slots in order and moves each live record that ends below
    /// the running end up against it, the running end starting at the end of
    /// the buffer; the free space then ends at the running end. The slots
    /// keep their offsets.
    pub fn compact(&mut self)
        requires
            old(self).wf(),
        ensures
            final(self).wf(),
            final(self).slots() == old(self).slots(),
            (final(self).bytes(), final(self).free_end()) == compact_run(
                old(self).slots(),
                old(self).bytes(),
                old(self).bytes().len() as int,
            ),
    {
        let ghost slots = self.slots();
        let ghost o = self.data@;
        let mut cur_offset = self.data.len();
        let mut k: usize = 0;
        proof {
            assert(slots.take(0) =~= Seq::<Option<(int, int)>>::empty());
        }
        while k < self.pointers.len()
            invariant
                slots == self.slots(),
                self.wf(),
                self.data@.len() == o.len(),
                k <= slots.len(),
                cur_offset <= o.len(),
                (self.data@, cur_offset as int) == compact_run(slots.take(k as int), o, o.len() as int),
            decreases slots.len() - k,
        {
            let cell_pointer = self.pointers[k];
            proof {
                let t = slots.take(k + 1);
                assert(t.drop_last() =~= slots.take(k as int));
                assert(t.last() == slots[k as int]);
            }
            if let Some(CellPointer { offset, cell_size }) = cell_pointer {
                let offset = offset as usize;
                let cell_size = cell_size as usize;
                proof {
                    assert(slots[k as int] == Some((offset as int, cell_size as int)));
                }
                if offset < cur_offset {
                    cur_offset -= cell_size;
                    move_bytes(&mut self.data, offset - cell_size, cell_size, cur_offset);
                }
            }
            k += 1;
        }
        proof {
            assert(slots.take(k as int) =~= slots);
        }
        self.free_end_offset = cur_offset as u16;
    }
}

} // verus!
