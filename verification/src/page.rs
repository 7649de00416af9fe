//! Pages of the storage files and where they lie.
use vstd::prelude::*;

verus! {

/// The size of a page in bytes.
pub const PAGE_SIZE: usize = 1024 * 32;

/// The size in bytes of a `PageHeader`: one `u32`.
pub const PAGE_HEADER_SIZE: usize = 4;

/// Which page of which file.
#[derive(Clone, Copy, Debug)]
pub struct PagePointer {
    pub file_id: u16,
    pub page_num: u16,
}

impl PagePointer {
    /// The byte offset of the page in its file.
    pub fn offset(&self) -> (r: usize)
        ensures
            r == PAGE_SIZE * self.page_num,
    {
        PAGE_SIZE * self.page_num as usize
    }
}

/// The header at the start of a page.
#[derive(Clone, Copy, Debug)]
pub struct PageHeader {
    pub typ: u32,
}

/// A page of a storage file.
pub trait Page {

}

} // verus!
