use simpledb::block_id::BlockId;
use simpledb::file_mgr::{block_offset, is_temp_name, DiskError, FileMgr};
use simpledb::page::Page;

#[test]
fn fresh_directory_records_is_new() {
    let m = FileMgr::new(512, false);
    assert!(m.is_new());
    let m = FileMgr::new(512, true);
    assert!(!m.is_new());
}

#[test]
fn blocksize_is_kept() {
    let m = FileMgr::new(512, true);
    assert_eq!(m.blocksize(), 512);
}

#[test]
fn disk_round_trip() {
    let mut m = FileMgr::new(64, true);
    let blk = BlockId::new("f", 3);
    let p = Page::from_byte((0..64).map(|i| i as u8).collect());
    m.write(&blk, &p).unwrap();
    let mut q = Page::new(64);
    m.read(&blk, &mut q).unwrap();
    assert_eq!(q.contents(), p.contents());
}

#[test]
fn concrete_scenario() {
    let blocksize = 1024;
    let mut m = FileMgr::new(blocksize, false);
    let blk = BlockId::new("testfile", 0);
    let mut page = Page::new(blocksize);
    page.set_string(0, "Hello, world!");
    page.set_int(100, 42);
    m.write(&blk, &page).unwrap();
    let mut new_page = Page::new(blocksize);
    m.read(&blk, &mut new_page).unwrap();
    assert_eq!(new_page.get_string(0), "Hello, world!");
    assert_eq!(new_page.get_int(100), 42);
}

#[test]
fn independent_files() {
    let mut m = FileMgr::new(8, true);
    let a0 = BlockId::new("a", 0);
    let b0 = BlockId::new("b", 0);
    let pa = Page::from_byte(vec![1; 8]);
    let pb = Page::from_byte(vec![2; 8]);
    m.write(&a0, &pa).unwrap();
    m.write(&b0, &pb).unwrap();
    let mut q = Page::new(8);
    m.read(&b0, &mut q).unwrap();
    assert_eq!(q.contents(), pb.contents());
    m.read(&a0, &mut q).unwrap();
    assert_eq!(q.contents(), pa.contents());
}

#[test]
fn write_to_one_file_leaves_the_other_unreadable() {
    let mut m = FileMgr::new(8, true);
    let a0 = BlockId::new("a", 0);
    let b0 = BlockId::new("b", 0);
    let pa = Page::from_byte(vec![7; 8]);
    m.write(&a0, &pa).unwrap();
    let mut q = Page::new(8);
    // "b" is still empty, so its first block cannot be read whole.
    assert_eq!(m.read(&b0, &mut q), Err(DiskError::ShortRead));
    assert!(q.contents().iter().all(|&b| b == 0));
}

#[test]
fn idempotent_reread() {
    let mut m = FileMgr::new(16, true);
    let blk = BlockId::new("f", 1);
    let p = Page::from_byte((0..16).map(|i| (i * 3) as u8).collect());
    m.write(&blk, &p).unwrap();
    let mut q1 = Page::new(16);
    let mut q2 = Page::new(16);
    m.read(&blk, &mut q1).unwrap();
    m.read(&blk, &mut q2).unwrap();
    assert_eq!(q1.contents(), q2.contents());
    assert_eq!(q1.contents(), p.contents());
}

#[test]
fn short_read_past_end_of_file() {
    let mut m = FileMgr::new(16, true);
    let blk0 = BlockId::new("f", 0);
    let blk1 = BlockId::new("f", 1);
    let p = Page::from_byte(vec![5; 16]);
    m.write(&blk0, &p).unwrap();
    let mut q = Page::from_byte(vec![9; 16]);
    assert_eq!(m.read(&blk1, &mut q), Err(DiskError::ShortRead));
    // A failed read leaves the page as it was.
    assert_eq!(q.contents(), &[9; 16]);
}

#[test]
fn writing_a_later_block_zero_fills_the_gap() {
    let mut m = FileMgr::new(4, true);
    let blk2 = BlockId::new("f", 2);
    let p = Page::from_byte(vec![0xaa; 4]);
    m.write(&blk2, &p).unwrap();
    let mut q = Page::from_byte(vec![1; 4]);
    m.read(&BlockId::new("f", 0), &mut q).unwrap();
    assert_eq!(q.contents(), &[0, 0, 0, 0]);
    m.read(&BlockId::new("f", 1), &mut q).unwrap();
    assert_eq!(q.contents(), &[0, 0, 0, 0]);
    m.read(&blk2, &mut q).unwrap();
    assert_eq!(q.contents(), &[0xaa; 4]);
}

#[test]
fn overwriting_a_block_replaces_it() {
    let mut m = FileMgr::new(4, true);
    let blk = BlockId::new("f", 0);
    m.write(&blk, &Page::from_byte(vec![1, 2, 3, 4])).unwrap();
    m.write(&blk, &Page::from_byte(vec![5, 6, 7, 8])).unwrap();
    let mut q = Page::new(4);
    m.read(&blk, &mut q).unwrap();
    assert_eq!(q.contents(), &[5, 6, 7, 8]);
}

#[test]
fn block_offsets_scale_by_blocksize() {
    assert_eq!(block_offset(0, 1024), Some(0));
    assert_eq!(block_offset(3, 1024), Some(3072));
    assert_eq!(block_offset(-1, 1024), None);
}

#[test]
fn temp_names_start_with_temp() {
    assert!(is_temp_name("temp"));
    assert!(is_temp_name("tempfile3"));
    assert!(!is_temp_name("tem"));
    assert!(!is_temp_name(""));
    assert!(!is_temp_name("Atemp"));
    assert!(!is_temp_name("datafile"));
}
