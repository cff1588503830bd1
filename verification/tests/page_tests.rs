use heapstore::page::Page;
use heapstore::PAGE_SIZE;

const FIXED_HEADER_SIZE: usize = 8;
const HEADER_PER_VAL_SIZE: usize = 6;

fn get_byte_vec(size: usize) -> Vec<u8> {
    let mut v = Vec::new();
    let mut x: u8 = 7;
    for i in 0..size {
        x = x.wrapping_mul(31).wrapping_add(i as u8);
        v.push(x);
    }
    v
}

#[test]
fn hs_page_create() {
    let p = Page::new(0);
    assert_eq!(0, p.get_page_id());
    assert_eq!(
        PAGE_SIZE - p.get_header_size(),
        p.get_largest_free_contiguous_space()
    );
}

#[test]
fn hs_page_simple_insert() {
    let mut p = Page::new(0);
    let tuple_bytes = get_byte_vec(22);
    let byte_len = tuple_bytes.len();
    assert_eq!(Some(0), p.add_value(&tuple_bytes));
    assert_eq!(
        PAGE_SIZE - byte_len - p.get_header_size(),
        p.get_largest_free_contiguous_space()
    );
    let tuple_bytes2 = get_byte_vec(22);
    assert_eq!(Some(1), p.add_value(&tuple_bytes2));
    assert_eq!(
        PAGE_SIZE - p.get_header_size() - byte_len - byte_len,
        p.get_largest_free_contiguous_space()
    );
}

#[test]
fn hs_page_space() {
    let mut p = Page::new(0);
    let size = 10;
    let bytes = get_byte_vec(size);
    assert_eq!(10, bytes.len());
    assert_eq!(Some(0), p.add_value(&bytes));
    assert_eq!(
        PAGE_SIZE - p.get_header_size() - size,
        p.get_largest_free_contiguous_space()
    );
    assert_eq!(Some(1), p.add_value(&bytes));
    assert_eq!(
        PAGE_SIZE - p.get_header_size() - size * 2,
        p.get_largest_free_contiguous_space()
    );
    assert_eq!(Some(2), p.add_value(&bytes));
    assert_eq!(
        PAGE_SIZE - p.get_header_size() - size * 3,
        p.get_largest_free_contiguous_space()
    );
}

#[test]
fn hs_page_get_value() {
    let mut p = Page::new(0);
    let tuple_bytes = get_byte_vec(24);
    assert_eq!(Some(0), p.add_value(&tuple_bytes));
    let check_bytes = p.get_value(0).unwrap();
    assert_eq!(tuple_bytes, check_bytes);

    let tuple_bytes2 = get_byte_vec(33);
    assert_eq!(Some(1), p.add_value(&tuple_bytes2));
    let check_bytes2 = p.get_value(1).unwrap();
    assert_eq!(tuple_bytes2, check_bytes2);

    // Recheck both slots read back unchanged.
    let check_bytes2 = p.get_value(1).unwrap();
    assert_eq!(tuple_bytes2, check_bytes2);
    let check_bytes = p.get_value(0).unwrap();
    assert_eq!(tuple_bytes, check_bytes);

    // An invalid slot gets absent.
    assert_eq!(None, p.get_value(2));
}

#[test]
fn hs_page_header_size_small() {
    // The header costs at most 8 fixed bytes plus 6 per value inserted.
    let mut p = Page::new(0);
    assert!(p.get_header_size() <= FIXED_HEADER_SIZE);
    let bytes = get_byte_vec(10);
    assert_eq!(Some(0), p.add_value(&bytes));
    assert!(p.get_header_size() <= FIXED_HEADER_SIZE + HEADER_PER_VAL_SIZE);
    assert_eq!(Some(1), p.add_value(&bytes));
    assert_eq!(Some(2), p.add_value(&bytes));
    assert_eq!(Some(3), p.add_value(&bytes));
    assert!(p.get_header_size() <= FIXED_HEADER_SIZE + HEADER_PER_VAL_SIZE * 4);
}

#[test]
fn hs_page_header_size_full() {
    let mut p = Page::new(0);
    assert!(p.get_header_size() <= FIXED_HEADER_SIZE);
    let byte_size = 10;
    let bytes = get_byte_vec(byte_size);
    // How many 10-byte values fit alongside their slot headers.
    let num_vals: usize = (((PAGE_SIZE - FIXED_HEADER_SIZE) as f64
        / (byte_size + HEADER_PER_VAL_SIZE) as f64)
        .floor()) as usize;
    if PAGE_SIZE == 4096 && FIXED_HEADER_SIZE == 8 && HEADER_PER_VAL_SIZE == 6 {
        assert_eq!(255, num_vals);
    }
    for _ in 0..num_vals {
        p.add_value(&bytes);
    }
    assert!(p.get_header_size() <= FIXED_HEADER_SIZE + (num_vals * HEADER_PER_VAL_SIZE));
    assert!(
        p.get_largest_free_contiguous_space()
            >= PAGE_SIZE
                - (byte_size * num_vals)
                - FIXED_HEADER_SIZE
                - (num_vals * HEADER_PER_VAL_SIZE)
    );
}

#[test]
fn hs_page_no_space() {
    let mut p = Page::new(0);
    let size = PAGE_SIZE / 4;
    let bytes = get_byte_vec(size);
    assert_eq!(Some(0), p.add_value(&bytes));
    assert_eq!(
        PAGE_SIZE - p.get_header_size() - size,
        p.get_largest_free_contiguous_space()
    );
    assert_eq!(Some(1), p.add_value(&bytes));
    assert_eq!(
        PAGE_SIZE - p.get_header_size() - size * 2,
        p.get_largest_free_contiguous_space()
    );
    assert_eq!(Some(2), p.add_value(&bytes));
    assert_eq!(
        PAGE_SIZE - p.get_header_size() - size * 3,
        p.get_largest_free_contiguous_space()
    );
    // The fourth quarter-page value cannot fit.
    assert_eq!(None, p.add_value(&bytes));
    assert_eq!(
        PAGE_SIZE - p.get_header_size() - size * 3,
        p.get_largest_free_contiguous_space()
    );
    // A small value still fits.
    let small_bytes = get_byte_vec(size / 4);
    assert_eq!(Some(3), p.add_value(&small_bytes));
    assert_eq!(
        PAGE_SIZE - p.get_header_size() - size * 3 - small_bytes.len(),
        p.get_largest_free_contiguous_space()
    );
}

#[test]
fn hs_page_simple_delete() {
    let mut p = Page::new(0);
    let tuple_bytes = get_byte_vec(24);
    assert_eq!(Some(0), p.add_value(&tuple_bytes));
    let check_bytes = p.get_value(0).unwrap();
    assert_eq!(tuple_bytes, check_bytes);

    let tuple_bytes2 = get_byte_vec(33);
    assert_eq!(Some(1), p.add_value(&tuple_bytes2));
    let check_bytes2 = p.get_value(1).unwrap();
    assert_eq!(tuple_bytes2, check_bytes2);

    // Delete slot 0, slot 1 must still resolve.
    assert_eq!(Some(()), p.delete_value(0));
    let check_bytes2 = p.get_value(1).unwrap();
    assert_eq!(tuple_bytes2, check_bytes2);
    // Slot 0 is gone, slot 2 never existed.
    assert_eq!(None, p.get_value(0));
    assert_eq!(None, p.get_value(2));
    // Delete slot 1 too.
    assert_eq!(Some(()), p.delete_value(1));
    assert_eq!(None, p.get_value(1));
}

#[test]
fn hs_page_get_first_free_space() {
    let _p = Page::new(0);
    let _b1 = get_byte_vec(100);
    let _b2 = get_byte_vec(50);
}

#[test]
fn hs_page_delete_insert() {
    let mut p = Page::new(0);
    let tuple_bytes = get_byte_vec(20);
    let tuple_bytes2 = get_byte_vec(20);
    let tuple_bytes3 = get_byte_vec(20);
    let tuple_bytes4 = get_byte_vec(20);
    let tuple_bytes_big = get_byte_vec(40);
    let tuple_bytes_small1 = get_byte_vec(5);
    let tuple_bytes_small2 = get_byte_vec(5);

    // Add 3 values.
    assert_eq!(Some(0), p.add_value(&tuple_bytes));
    let check_bytes = p.get_value(0).unwrap();
    assert_eq!(tuple_bytes, check_bytes);
    assert_eq!(Some(1), p.add_value(&tuple_bytes2));
    let check_bytes = p.get_value(1).unwrap();
    assert_eq!(tuple_bytes2, check_bytes);
    assert_eq!(Some(2), p.add_value(&tuple_bytes3));
    let check_bytes = p.get_value(2).unwrap();
    assert_eq!(tuple_bytes3, check_bytes);

    // Delete slot 1; it stops resolving, the others keep their bytes.
    assert_eq!(Some(()), p.delete_value(1));
    assert_eq!(None, p.get_value(1));
    let check_bytes = p.get_value(0).unwrap();
    assert_eq!(tuple_bytes, check_bytes);
    let check_bytes = p.get_value(2).unwrap();
    assert_eq!(tuple_bytes3, check_bytes);

    // The freed identifier is reused.
    assert_eq!(Some(1), p.add_value(&tuple_bytes4));
    let check_bytes = p.get_value(1).unwrap();
    assert_eq!(tuple_bytes4, check_bytes);
    // Delete 0; a big value goes to slot 0 with its bytes later in the block.
    assert_eq!(Some(()), p.delete_value(0));
    assert_eq!(Some(0), p.add_value(&tuple_bytes_big));
    // A small value takes the next fresh identifier.
    assert_eq!(Some(3), p.add_value(&tuple_bytes_small1));
    assert_eq!(Some(4), p.add_value(&tuple_bytes_small2));
}

#[test]
fn hs_page_size() {
    let mut p = Page::new(2);
    let tuple_bytes = get_byte_vec(24);
    assert_eq!(Some(0), p.add_value(&tuple_bytes));
    let page_bytes = p.get_bytes();
    assert_eq!(PAGE_SIZE, page_bytes.len());
}

#[test]
fn hs_page_simple_byte_serialize() {
    let mut p = Page::new(0);
    let tuple_bytes = get_byte_vec(24);
    assert_eq!(Some(0), p.add_value(&tuple_bytes));
    let tuple_bytes2 = get_byte_vec(33);
    assert_eq!(Some(1), p.add_value(&tuple_bytes2));

    // Serialize, deserialize, and check the reads.
    let bytes = p.get_bytes();
    let mut p2 = Page::from_bytes(&bytes);
    assert_eq!(0, p2.get_page_id());
    let check_bytes2 = p2.get_value(1).unwrap();
    assert_eq!(tuple_bytes2, check_bytes2);
    let check_bytes = p2.get_value(0).unwrap();
    assert_eq!(tuple_bytes, check_bytes);

    // The rebuilt page accepts a new value at the next identifier.
    let tuple_bytes3 = get_byte_vec(41);
    assert_eq!(Some(2), p2.add_value(&tuple_bytes3));
    assert_eq!(tuple_bytes3, p2.get_value(2).unwrap());
    assert_eq!(tuple_bytes2, p2.get_value(1).unwrap());
    assert_eq!(tuple_bytes, p2.get_value(0).unwrap());
}

#[test]
fn hs_page_iter() {
    let mut p = Page::new(0);
    let tuple_bytes = get_byte_vec(21);
    assert_eq!(Some(0), p.add_value(&tuple_bytes));
    let tuple_bytes2 = get_byte_vec(22);
    assert_eq!(Some(1), p.add_value(&tuple_bytes2));
    let tuple_bytes3 = get_byte_vec(23);
    assert_eq!(Some(2), p.add_value(&tuple_bytes3));
    let tuple_bytes4 = get_byte_vec(24);
    assert_eq!(Some(3), p.add_value(&tuple_bytes4));

    let tup_vec = vec![
        tuple_bytes.clone(),
        tuple_bytes2.clone(),
        tuple_bytes3.clone(),
        tuple_bytes4.clone(),
    ];
    let page_bytes = p.get_bytes();

    // First iteration pass.
    let mut iter = p.into_iter();
    assert_eq!(Some(tuple_bytes.clone()), iter.next());
    assert_eq!(Some(tuple_bytes2.clone()), iter.next());
    assert_eq!(Some(tuple_bytes3.clone()), iter.next());
    assert_eq!(Some(tuple_bytes4.clone()), iter.next());
    assert_eq!(None, iter.next());

    // The same values come back from a deserialized copy.
    let p = Page::from_bytes(&page_bytes);
    assert_eq!(Some(tuple_bytes.clone()), p.get_value(0));
    let mut iter = p.into_iter();
    let mut i = 0;
    while let Some(x) = iter.next() {
        assert_eq!(tup_vec[i], x);
        i += 1;
    }

    let p = Page::from_bytes(&page_bytes);
    let mut count = 0;
    let mut iter = p.into_iter();
    while let Some(_) = iter.next() {
        count += 1;
    }
    assert_eq!(count, 4);

    // Add a value and re-count.
    let mut p = Page::from_bytes(&page_bytes);
    assert_eq!(Some(4), p.add_value(&tuple_bytes));
    let page_bytes = p.get_bytes();
    count = 0;
    let mut iter = p.into_iter();
    while let Some(_) = iter.next() {
        count += 1;
    }
    assert_eq!(count, 5);

    // Delete one and iterate the survivors in slot order.
    let mut p = Page::from_bytes(&page_bytes);
    p.delete_value(2);
    let mut iter = p.into_iter();
    assert_eq!(Some(tuple_bytes.clone()), iter.next());
    assert_eq!(Some(tuple_bytes2.clone()), iter.next());
    assert_eq!(Some(tuple_bytes4.clone()), iter.next());
    assert_eq!(Some(tuple_bytes.clone()), iter.next());
    assert_eq!(None, iter.next());
}

#[test]
fn page_capacity_255_records() {
    // On an empty page, 10-byte records fit 255 times; the 256th is refused.
    let mut p = Page::new(0);
    let bytes = get_byte_vec(10);
    for k in 0..255u16 {
        assert_eq!(Some(k), p.add_value(&bytes));
    }
    assert_eq!(None, p.add_value(&bytes));
}

#[test]
fn page_delete_reuse_scenario() {
    // Insert 20-byte A, B, C; delete 1; a 20-byte D reuses slot 1; delete 0;
    // a 40-byte E reuses slot 0; a 5-byte F takes the fresh identifier 3.
    let mut p = Page::new(0);
    let a = get_byte_vec(20);
    assert_eq!(Some(0), p.add_value(&a));
    assert_eq!(Some(1), p.add_value(&a));
    assert_eq!(Some(2), p.add_value(&a));
    assert_eq!(Some(()), p.delete_value(1));
    assert_eq!(Some(1), p.add_value(&a));
    assert_eq!(Some(()), p.delete_value(0));
    let e = get_byte_vec(40);
    assert_eq!(Some(0), p.add_value(&e));
    let f = get_byte_vec(5);
    assert_eq!(Some(3), p.add_value(&f));
}

#[test]
fn page_zero_length_record() {
    let mut p = Page::new(9);
    assert_eq!(Some(0), p.add_value(&Vec::new()));
    assert_eq!(Some(Vec::new()), p.get_value(0));
    let b = p.get_bytes();
    let p2 = Page::from_bytes(&b);
    assert_eq!(Some(Vec::new()), p2.get_value(0));
    assert_eq!(9, p2.get_page_id());
}

#[test]
fn page_delete_frees_length_plus_header() {
    let mut p = Page::new(0);
    let a = get_byte_vec(100);
    assert_eq!(Some(0), p.add_value(&a));
    let before = p.get_largest_free_contiguous_space();
    assert_eq!(Some(()), p.delete_value(0));
    assert_eq!(before + 100 + HEADER_PER_VAL_SIZE, p.get_largest_free_contiguous_space());
}

#[test]
fn page_rejected_insert_keeps_state() {
    let mut p = Page::new(0);
    let a = get_byte_vec(2000);
    assert_eq!(Some(0), p.add_value(&a));
    assert_eq!(Some(1), p.add_value(&a));
    let free = p.get_largest_free_contiguous_space();
    assert_eq!(None, p.add_value(&a));
    assert_eq!(free, p.get_largest_free_contiguous_space());
    assert_eq!(a, p.get_value(0).unwrap());
    assert_eq!(a, p.get_value(1).unwrap());
}
