use heapstore::errors::StorageError;
use heapstore::heapfile::HeapFile;
use heapstore::page::Page;
use heapstore::PAGE_SIZE;

fn get_byte_vec(size: usize) -> Vec<u8> {
    let mut v = Vec::new();
    let mut x: u8 = 3;
    for i in 0..size {
        x = x.wrapping_mul(37).wrapping_add(i as u8);
        v.push(x);
    }
    v
}

#[test]
fn hs_hf_insert() {
    let mut hf = HeapFile::new();

    // Make a page and write it.
    let mut p0 = Page::new(0);
    let bytes = get_byte_vec(100);
    p0.add_value(&bytes);
    let bytes = get_byte_vec(100);
    p0.add_value(&bytes);
    let bytes = get_byte_vec(100);
    p0.add_value(&bytes);
    let p0_bytes = p0.get_bytes();

    hf.write_page_to_file(p0).unwrap();
    assert_eq!(1, hf.num_pages());
    let checkp0 = hf.read_page_from_file(0).unwrap();
    assert_eq!(p0_bytes, checkp0.get_bytes());

    // Add another page.
    let mut p1 = Page::new(1);
    let bytes = get_byte_vec(100);
    p1.add_value(&bytes);
    let bytes = get_byte_vec(100);
    p1.add_value(&bytes);
    let bytes = get_byte_vec(100);
    p1.add_value(&bytes);
    let p1_bytes = p1.get_bytes();

    hf.write_page_to_file(p1).unwrap();
    assert_eq!(2, hf.num_pages());

    // Recheck page 0, then page 1.
    let checkp0 = hf.read_page_from_file(0).unwrap();
    assert_eq!(p0_bytes, checkp0.get_bytes());
    let checkp1 = hf.read_page_from_file(1).unwrap();
    assert_eq!(p1_bytes, checkp1.get_bytes());

    let (reads, writes) = hf.counters();
    assert_eq!(reads, 3);
    assert_eq!(writes, 2);
}

#[test]
fn hf_read_out_of_range_is_invalid_page() {
    let mut hf = HeapFile::new();
    assert_eq!(Err(StorageError::InvalidPage), hf.read_page_from_file(0).map(|_| ()));
    let p = Page::new(0);
    hf.write_page_to_file(p).unwrap();
    assert!(hf.read_page_from_file(0).is_ok());
    assert_eq!(Err(StorageError::InvalidPage), hf.read_page_from_file(1).map(|_| ()));
}

#[test]
fn hf_image_layout() {
    let mut hf = HeapFile::new();
    let mut p = Page::new(0);
    let rec = get_byte_vec(12);
    p.add_value(&rec);
    let p_bytes = p.get_bytes();
    hf.write_page_to_file(p).unwrap();
    let img = hf.to_image();
    assert_eq!(8 + PAGE_SIZE, img.len());
    assert_eq!(&img[0..8], &[1, 0, 0, 0, 0, 0, 0, 0]);
    assert_eq!(&img[8..], &p_bytes[..]);
}

#[test]
fn hf_all_records_in_page_slot_order() {
    let mut hf = HeapFile::new();
    let a = get_byte_vec(400);
    let b = get_byte_vec(300);
    let mut p0 = Page::new(0);
    p0.add_value(&a);
    p0.add_value(&b);
    let mut p1 = Page::new(1);
    p1.add_value(&b);
    hf.write_page_to_file(p0).unwrap();
    hf.write_page_to_file(p1).unwrap();
    let recs = hf.all_records();
    assert_eq!(3, recs.len());
    assert_eq!(a, recs[0]);
    assert_eq!(b, recs[1]);
    assert_eq!(b, recs[2]);
}

#[test]
fn hf_overwrite_existing_page() {
    let mut hf = HeapFile::new();
    let mut p0 = Page::new(0);
    p0.add_value(&get_byte_vec(10));
    hf.write_page_to_file(p0).unwrap();
    let mut p0b = Page::new(0);
    let rec = get_byte_vec(20);
    p0b.add_value(&rec);
    hf.write_page_to_file(p0b).unwrap();
    assert_eq!(1, hf.num_pages());
    let back = hf.read_page_from_file(0).unwrap();
    assert_eq!(rec, back.get_value(0).unwrap());
}
