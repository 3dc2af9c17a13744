use tuliprox_store::page::{
    PageError, PageHeader, PageType, SlottedPage, PAGE_HEADER_SIZE, PAGE_HEADER_SIZE_USIZE,
    PAGE_SIZE, PAGE_SIZE_USIZE,
};

fn cell_of(val: &[u8]) -> Vec<u8> {
    let mut cell = Vec::new();
    cell.extend_from_slice(&(val.len() as u32).to_le_bytes());
    cell.extend_from_slice(val);
    cell
}

#[test]
fn test_page_initialization() {
    let mut data = [0u8; PAGE_SIZE_USIZE];
    let page = SlottedPage::new(&mut data, PageType::Leaf).expect("Init failed");
    assert_eq!(page.header.page_type, PageType::Leaf);
    assert_eq!(page.header.cell_count, 0);
    assert_eq!(page.header.free_start, PAGE_HEADER_SIZE as u16);
    assert_eq!(page.header.free_end, PAGE_SIZE as u16);
    assert_eq!(page.free_space(), PAGE_SIZE_USIZE - PAGE_HEADER_SIZE_USIZE);
}

#[test]
fn test_insert_get() {
    let mut data = [0u8; PAGE_SIZE_USIZE];
    let mut page = SlottedPage::new(&mut data, PageType::Leaf).expect("Init failed");

    let val1 = b"hello";
    let val2 = b"world";

    let cell1 = cell_of(val1);
    let cell2 = cell_of(val2);

    page.insert_at_index(0, &cell1).unwrap();
    page.insert_at_index(1, &cell2).unwrap();

    assert_eq!(page.header.cell_count, 2);

    let read1 = page.get_cell(0).expect("Get cell 0");
    assert_eq!(&read1[4..], val1);

    let read2 = page.get_cell(1).expect("Get cell 1");
    assert_eq!(&read2[4..], val2);
}

#[test]
fn test_split_off() {
    let mut data = [0u8; PAGE_SIZE_USIZE];
    let mut page = SlottedPage::new(&mut data, PageType::Leaf).expect("Init failed");

    let payload = vec![0xAAu8; 500];
    let cell = cell_of(&payload);

    for i in 0..6 {
        page.insert_at_index(i, &cell).unwrap();
    }

    assert_eq!(page.header.cell_count, 6);

    let new_page_bytes = page.split_off().expect("Split failed").expect("Should have split");

    assert_eq!(page.header.cell_count, 3);

    let header = PageHeader::deserialize(&new_page_bytes[..PAGE_HEADER_SIZE_USIZE])
        .expect("Deserialize failed");
    assert_eq!(header.cell_count, 3);
}

#[test]
fn test_split_off_edge_cases() {
    let mut data = [0u8; PAGE_SIZE_USIZE];
    let mut page = SlottedPage::new(&mut data, PageType::Leaf).expect("Init failed");

    let res = page.split_off();
    assert!(matches!(res, Err(PageError::InvalidIndex)));

    let val = b"item";
    let cell = cell_of(val);
    page.insert_at_index(0, &cell).unwrap();

    let res = page.split_off();
    match res {
        Ok(None) => {
            assert_eq!(page.header.cell_count, 1);
        }
        Ok(Some(_)) => panic!("Split of single item should result in None"),
        Err(e) => panic!("Split of single item should result in no-op, not error: {:?}", e),
    }
}

#[test]
fn header_serialize_then_deserialize_gives_the_header_back() {
    let mut h = PageHeader::new(PageType::Internal);
    h.cell_count = 7;
    h.free_start = 30;
    h.free_end = 4000;
    h.right_sibling = 0x0102_0304_0506_0708;
    let bytes = h.serialize();
    assert_eq!(bytes[0], 2);
    let back = PageHeader::deserialize(&bytes).expect("deserialize");
    assert_eq!(back.page_type, PageType::Internal);
    assert_eq!(back.cell_count, 7);
    assert_eq!(back.free_start, 30);
    assert_eq!(back.free_end, 4000);
    assert_eq!(back.right_sibling, 0x0102_0304_0506_0708);
}

#[test]
fn header_deserialize_rejects_short_and_unknown_type() {
    assert!(matches!(PageHeader::deserialize(&[1u8; 10]), Err(PageError::Corrupted)));
    let mut bytes = PageHeader::new(PageType::Leaf).serialize();
    bytes[0] = 9;
    assert!(matches!(PageHeader::deserialize(&bytes), Err(PageError::Corrupted)));
}

#[test]
fn insert_at_index_in_the_middle_shifts_later_cells() {
    let mut data = [0u8; PAGE_SIZE_USIZE];
    let mut page = SlottedPage::new(&mut data, PageType::Leaf).expect("Init failed");
    let (a, b, c) = (cell_of(b"aa"), cell_of(b"bb"), cell_of(b"cc"));
    page.insert_at_index(0, &a).unwrap();
    page.insert_at_index(1, &c).unwrap();
    page.insert_at_index(1, &b).unwrap();
    assert_eq!(page.get_cell(0).unwrap(), &a[..]);
    assert_eq!(page.get_cell(1).unwrap(), &b[..]);
    assert_eq!(page.get_cell(2).unwrap(), &c[..]);
    assert!(page.get_cell(3).is_none());
    // each cell takes its bytes plus a two-byte slot
    assert_eq!(page.free_space(), PAGE_SIZE_USIZE - PAGE_HEADER_SIZE_USIZE - 3 * (6 + 2));
    // a bad index is found after the cell bytes were placed: their room stays taken
    let z = cell_of(b"zz");
    assert!(matches!(page.insert_at_index(5, &z), Err(PageError::InvalidIndex)));
    assert_eq!(page.header.cell_count, 3);
    assert_eq!(page.free_space(), PAGE_SIZE_USIZE - PAGE_HEADER_SIZE_USIZE - 3 * (6 + 2) - 6);
}

#[test]
fn insert_into_a_full_page_reports_no_space() {
    let mut data = [0u8; PAGE_SIZE_USIZE];
    let mut page = SlottedPage::new(&mut data, PageType::Leaf).expect("Init failed");
    let big = cell_of(&vec![1u8; 2000]);
    page.insert_at_index(0, &big).unwrap();
    page.insert_at_index(1, &big).unwrap();
    assert!(matches!(page.insert_at_index(2, &big), Err(PageError::NoSpace)));
    assert_eq!(page.header.cell_count, 2);
}

#[test]
fn commit_then_open_reads_the_same_cells() {
    let mut data = [0u8; PAGE_SIZE_USIZE];
    let (first, second) = (cell_of(b"first"), cell_of(b"second"));
    {
        let mut page = SlottedPage::new(&mut data, PageType::Leaf).expect("Init failed");
        page.insert_at_index(0, &first).unwrap();
        page.insert_at_index(1, &second).unwrap();
        page.commit();
    }
    let page = SlottedPage::open(&mut data).expect("open");
    assert_eq!(page.header.cell_count, 2);
    assert_eq!(page.get_cell(0).unwrap(), &first[..]);
    assert_eq!(page.get_cell(1).unwrap(), &second[..]);
    let off0 = page.get_cell_offset(0).expect("offset");
    assert_eq!(off0 as usize, PAGE_SIZE_USIZE - first.len());
}

#[test]
fn compact_keeps_cells_in_order() {
    let mut data = [0u8; PAGE_SIZE_USIZE];
    let mut page = SlottedPage::new(&mut data, PageType::Leaf).expect("Init failed");
    let (one, two, three) = (cell_of(b"one"), cell_of(b"two"), cell_of(b"three"));
    page.insert_at_index(0, &one).unwrap();
    page.insert_at_index(1, &three).unwrap();
    page.insert_at_index(1, &two).unwrap();
    page.compact().expect("compact");
    assert_eq!(page.header.cell_count, 3);
    assert_eq!(page.get_cell(0).unwrap(), &one[..]);
    assert_eq!(page.get_cell(1).unwrap(), &two[..]);
    assert_eq!(page.get_cell(2).unwrap(), &three[..]);
    assert_eq!(page.free_space(), PAGE_SIZE_USIZE - PAGE_HEADER_SIZE_USIZE - 3 * 2 - (7 + 7 + 9));
}

#[test]
fn page_error_messages() {
    assert_eq!(PageError::NoSpace.message(), "Page has no space for insertion");
    assert_eq!(PageError::InvalidIndex.message(), "Invalid cell index");
    assert_eq!(PageError::Corrupted.message(), "Page data is corrupted");
    let io = PageError::from(std::io::Error::new(std::io::ErrorKind::Other, "disk"));
    assert_eq!(io.message(), "I/O error: disk");
}

#[test]
fn page_header_is_the_header_field() {
    let mut data = [0u8; PAGE_SIZE_USIZE];
    let mut page = SlottedPage::new(&mut data, PageType::Leaf).expect("Init failed");
    page.insert_at_index(0, &cell_of(b"abc")).expect("insert");
    let h = page.page_header();
    assert_eq!(h.page_type, page.header.page_type);
    assert_eq!(h.cell_count, page.header.cell_count);
    assert_eq!(h.free_start, page.header.free_start);
    assert_eq!(h.free_end, page.header.free_end);
    assert_eq!(h.cell_count, 1);
}

#[test]
fn compact_puts_free_space_in_one_piece() {
    let mut data = [0u8; PAGE_SIZE_USIZE];
    let mut page = SlottedPage::new(&mut data, PageType::Leaf).expect("Init failed");
    let (a, b) = (cell_of(b"alpha"), cell_of(b"be"));
    page.insert_at_index(0, &a).unwrap();
    page.insert_at_index(1, &b).unwrap();
    page.compact().expect("compact");
    assert_eq!(page.header.free_start, PAGE_HEADER_SIZE + 2 * 2);
    assert_eq!(page.header.free_end as usize, PAGE_SIZE_USIZE - (a.len() + b.len()));
}

#[test]
fn split_off_divides_the_cells_in_order() {
    let mut data = [0u8; PAGE_SIZE_USIZE];
    let mut page = SlottedPage::new(&mut data, PageType::Leaf).expect("Init failed");
    let cells: Vec<Vec<u8>> = (0..6u8).map(|i| cell_of(&[i; 10])).collect();
    for (i, c) in cells.iter().enumerate() {
        page.insert_at_index(i, c).unwrap();
    }
    let mut right = page.split_off().expect("split").expect("page");
    let k = page.header.cell_count as usize;
    assert_eq!(k, 3);
    for i in 0..k {
        assert_eq!(page.get_cell(i).unwrap(), &cells[i][..]);
    }
    let other = SlottedPage::open(&mut right).expect("open");
    assert_eq!(other.header.cell_count as usize, 6 - k);
    for i in 0..6 - k {
        assert_eq!(other.get_cell(i).unwrap(), &cells[k + i][..]);
    }
}
