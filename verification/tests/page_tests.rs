use simpledb::block_id::BlockId;
use simpledb::page::Page;

#[test]
fn block_id_carries_name_and_number() {
    let blk = BlockId::new("testfile", 2);
    assert_eq!(blk.filename(), "testfile");
    assert_eq!(blk.number(), 2);
}

#[test]
fn new_page_is_zero_filled() {
    let p = Page::new(16);
    assert_eq!(p.contents().len(), 16);
    assert!(p.contents().iter().all(|&b| b == 0));
}

#[test]
fn from_byte_wraps_the_buffer() {
    let p = Page::from_byte(vec![9, 8, 7]);
    assert_eq!(p.contents(), &[9, 8, 7]);
}

#[test]
fn int_round_trip() {
    let mut p = Page::new(1024);
    p.set_int(100, 42);
    assert_eq!(p.get_int(100), 42);
    p.set_int(0, -123456789);
    assert_eq!(p.get_int(0), -123456789);
    p.set_int(500, i32::MAX);
    assert_eq!(p.get_int(500), i32::MAX);
    p.set_int(500, i32::MIN);
    assert_eq!(p.get_int(500), i32::MIN);
    p.set_int(1020, 0);
    assert_eq!(p.get_int(1020), 0);
}

#[test]
fn int_is_big_endian_twos_complement() {
    let mut p = Page::new(8);
    p.set_int(0, 0x01020304);
    assert_eq!(&p.contents()[0..4], &[0x01, 0x02, 0x03, 0x04]);
    p.set_int(4, -1);
    assert_eq!(&p.contents()[4..8], &[0xff, 0xff, 0xff, 0xff]);
}

#[test]
fn bytes_round_trip() {
    let mut p = Page::new(64);
    p.set_byte(5, &[1, 2, 3]);
    assert_eq!(p.get_byte(5), vec![1, 2, 3]);
    // The length prefix is itself a big-endian integer field.
    assert_eq!(p.get_int(5), 3);
}

#[test]
fn empty_bytes_round_trip() {
    let mut p = Page::new(8);
    p.set_byte(4, &[]);
    assert_eq!(p.get_byte(4), Vec::<u8>::new());
    assert_eq!(p.get_int(4), 0);
}

#[test]
fn bytes_field_may_end_flush_with_the_page() {
    let mut p = Page::new(8);
    p.set_byte(0, &[10, 20, 30, 40]);
    assert_eq!(p.get_byte(0), vec![10, 20, 30, 40]);
}

#[test]
fn string_round_trip() {
    let mut p = Page::new(1024);
    p.set_string(0, "Hello, world!");
    assert_eq!(p.get_string(0), "Hello, world!");
}

#[test]
fn empty_string_round_trip() {
    let mut p = Page::new(16);
    p.set_string(2, "");
    assert_eq!(p.get_string(2), "");
}

#[test]
fn multi_byte_string_round_trip() {
    let mut p = Page::new(64);
    p.set_string(3, "héllo • wörld");
    assert_eq!(p.get_string(3), "héllo • wörld");
    // The stored field holds the UTF-8 bytes, not one byte per character.
    assert_eq!(p.get_int(3), "héllo • wörld".len() as i32);
    assert_ne!(p.get_int(3), "héllo • wörld".chars().count() as i32);
}

#[test]
fn string_field_bytes_are_utf8() {
    let mut p = Page::new(16);
    p.set_string(0, "ab");
    assert_eq!(p.get_byte(0), vec![0x61, 0x62]);
}

#[test]
fn max_length_counts_prefix_plus_one_byte_per_char() {
    assert_eq!(Page::max_length(0), 4);
    assert_eq!(Page::max_length(10), 14);
}

#[test]
fn fields_at_distinct_offsets_are_independent() {
    let mut p = Page::new(1024);
    p.set_string(0, "Hello, world!");
    p.set_int(100, 42);
    assert_eq!(p.get_string(0), "Hello, world!");
    assert_eq!(p.get_int(100), 42);
}

#[test]
fn contents_mut_exposes_the_buffer() {
    let mut p = Page::new(8);
    p.contents_mut()[3] = 0x2a;
    assert_eq!(p.get_int(0), 0x2a);
}
