use storage_engine::page::{PageHeader, PagePointer, PAGE_SIZE};
use storage_engine::storage_engine::page::{NodeType, SlottedPage};

#[test]
fn page_test_basics() {
    const CAPACITY: usize = 200;

    let mut page: SlottedPage<false> =
        SlottedPage::from_parts(NodeType::Leaf, CAPACITY as u16, vec![0; CAPACITY]);

    let capacity: u16 = CAPACITY as u16;

    assert_eq!(page.free_end_offset(), capacity);

    let record = "samanthas tits".as_bytes().to_owned();
    let index = page.insert(&record);
    assert_eq!(page.get(index), Some(&record[..]));
    assert_eq!(page.free_end_offset(), capacity - record.len() as u16);

    let record2 = "ass".as_bytes().to_owned();
    let index2 = page.insert(&record2);
    assert_eq!(page.get(index2), Some(&record2[..]));
    assert_eq!(page.free_end_offset(), capacity - (record2.len() as u16 + record.len() as u16));

    page.remove(index);
    assert_eq!(page.get(index), None);
    assert_eq!(page.get(index2), Some(&record2[..]));
    assert_eq!(page.free_end_offset(), capacity - (record2.len() as u16 + record.len() as u16));

    page.compact();
    assert_eq!(page.get(index), None);
    assert_eq!(page.get(index2), Some(&record2[..]));
    assert_eq!(page.free_end_offset(), capacity - (record2.len() as u16));
}

#[test]
fn page_insert_keeps_earlier_records() {
    let mut page: SlottedPage<false> = SlottedPage::from_parts(NodeType::Internal, 16, vec![0; 16]);
    let a = page.insert(&[1, 2, 3]);
    let b = page.insert(&[4, 5]);
    let c = page.insert(&[]);
    assert_eq!((a, b, c), (0, 1, 2));
    assert_eq!(page.get(a), Some(&[1u8, 2, 3][..]));
    assert_eq!(page.get(b), Some(&[4u8, 5][..]));
    assert_eq!(page.get(c), Some(&[0u8; 0][..]));
    assert_eq!(page.free_end_offset(), 11);
}

#[test]
fn page_compact_moves_live_records_up() {
    let mut page: SlottedPage<false> = SlottedPage::from_parts(NodeType::Leaf, 10, vec![0; 10]);
    let a = page.insert(&[1, 1]);
    let b = page.insert(&[2, 2, 2]);
    page.remove(a);
    page.compact();
    // the record of `b` now fills the end of the buffer
    assert_eq!(page.free_end_offset(), 7);
    assert_eq!(page.get(a), None);
    // its slot still names the old place, which held the same bytes
    assert_eq!(page.get(b), Some(&[2u8, 2, 2][..]));
}

#[test]
fn page_pointer_offset() {
    let p = PagePointer { file_id: 3, page_num: 5 };
    assert_eq!(p.offset(), 5 * 32 * 1024);
    assert_eq!(PAGE_SIZE, 32768);
    let h = PageHeader { typ: 7 };
    assert_eq!(h.typ, 7);
}
