use pagestore::file_mgr::{Block, FileMgr, IoError, Page};

#[test]
fn file_mgr_simple_test() {
    let mut file_mgr = FileMgr::new(String::from("example/"), 400);
    let block = Block::new(String::from("filetest.tbl"), 2);
    let mut page = Page::new(400);
    for i in 0..100 {
        page.set_byte(i, 1);
    }
    file_mgr.write(&block, &page).expect("failed to write");
    let mut new_page = Page::new(400);
    file_mgr.read(&block, &mut new_page).expect("failed to read");
    for i in 0..100 {
        assert_eq!(new_page.get_byte(i).unwrap(), 1);
    }

    let block = Block::new(String::from("filetest.tbl"), 2);
    file_mgr.write(&block, &page).expect("failed to write");
    let mut new_page = Page::new(400);
    file_mgr.read(&block, &mut new_page).expect("failed to read");
    for i in 0..100 {
        assert_eq!(new_page.get_byte(i).unwrap(), 1);
    }
}

#[allow(non_snake_case)]
#[test]
fn fileMgr_simple_test() {
    let mut file_mgr = FileMgr::new(String::from("example/"), 400);
    let block = Block::new(String::from("stupid.tbl"), 2);
    let mut page = Page::new(400);
    for i in 0..100 {
        page.set_byte(i, 1);
    }
    file_mgr.write(&block, &page).expect("failed to write");
    let mut new_page = Page::new(400);
    file_mgr.read(&block, &mut new_page).expect("failed to read");
    for i in 0..100 {
        assert_eq!(new_page.get_byte(i).unwrap(), 1);
    }
}

#[test]
fn page_starts_zeroed_with_cursor_at_start() {
    let page = Page::new(64);
    assert_eq!(page.size(), 64);
    assert_eq!(page.avail_space(), 64);
    for i in 0..64 {
        assert_eq!(page.get_byte(i).unwrap(), 0);
    }
}

#[test]
fn page_byte_ops_are_bounds_checked() {
    let mut page = Page::new(8);
    assert_eq!(page.set_byte(7, 9), Some(()));
    assert_eq!(page.get_byte(7), Some(9));
    assert_eq!(page.set_byte(8, 1), None);
    assert_eq!(page.get_byte(8), None);
    // a failed write has no effect at all
    for i in 0..7 {
        assert_eq!(page.get_byte(i).unwrap(), 0);
    }
}

#[test]
fn page_u32_round_trip_is_little_endian() {
    let mut page = Page::new(16);
    assert_eq!(page.set_u32(4, 0x0403_0201), Some(()));
    assert_eq!(page.get_byte(4), Some(1));
    assert_eq!(page.get_byte(5), Some(2));
    assert_eq!(page.get_byte(6), Some(3));
    assert_eq!(page.get_byte(7), Some(4));
    assert_eq!(page.get_u32(4), Some(0x0403_0201));
}

#[test]
fn page_u32_short_span_fails_cleanly() {
    let mut page = Page::new(6);
    assert_eq!(page.get_u32(3), None);
    assert_eq!(page.set_u32(3, 77), None);
    // nothing was partially written
    for i in 0..6 {
        assert_eq!(page.get_byte(i).unwrap(), 0);
    }
    assert_eq!(page.get_u32(2), Some(0));
}

#[test]
fn page_blob_round_trip() {
    let mut page = Page::new(32);
    let text = String::from("hello").into_bytes();
    assert_eq!(page.set_blob(3, &text), Some(()));
    // an eight-byte little-endian length header precedes the raw bytes
    assert_eq!(page.get_byte(3), Some(5));
    for i in 4..11 {
        assert_eq!(page.get_byte(i), Some(0));
    }
    assert_eq!(page.get_byte(11), Some(b'h'));
    let back = page.get_blob(3).unwrap();
    assert_eq!(back, text);
    assert_eq!(String::from_utf8(back).unwrap(), "hello");
}

#[test]
fn page_blob_fails_cleanly_when_it_does_not_fit() {
    let mut page = Page::new(12);
    // header fits, five data bytes do not
    assert_eq!(page.set_blob(0, &vec![1, 2, 3, 4, 5]), None);
    for i in 0..12 {
        assert_eq!(page.get_byte(i).unwrap(), 0);
    }
    assert_eq!(page.set_blob(0, &vec![1, 2, 3, 4]), Some(()));
    assert_eq!(page.get_blob(0).unwrap(), vec![1, 2, 3, 4]);
    // a header whose declared span runs past the buffer is rejected
    page.set_byte(0, 200);
    assert_eq!(page.get_blob(0), None);
    assert_eq!(page.get_blob(9), None);
}

#[test]
fn page_append_reports_short_count_when_full() {
    let mut page = Page::new(5);
    let n = page.append(&vec![1, 2, 3]);
    assert_eq!(n, 3);
    assert_eq!(page.avail_space(), 2);
    let n = page.append(&vec![4, 5, 6, 7]);
    assert_eq!(n, 2);
    assert_eq!(page.avail_space(), 0);
    assert_eq!(page.get_byte(0), Some(1));
    assert_eq!(page.get_byte(3), Some(4));
    assert_eq!(page.get_byte(4), Some(5));
    let n = page.append(&vec![8]);
    assert_eq!(n, 0);
}

#[test]
fn page_add_appends_one_byte() {
    let mut page = Page::new(2);
    assert_eq!(page.add(10), 1);
    assert_eq!(page.add(20), 1);
    assert_eq!(page.add(30), 0);
    assert_eq!(page.get_byte(0), Some(10));
    assert_eq!(page.get_byte(1), Some(20));
    assert_eq!(page.avail_space(), 0);
}

#[test]
fn page_flush_zeroes_and_resets_cursor() {
    let mut page = Page::new(10);
    page.append(&vec![1, 2, 3, 4]);
    page.flush();
    assert_eq!(page.avail_space(), 10);
    for i in 0..10 {
        assert_eq!(page.get_byte(i).unwrap(), 0);
    }
}

#[test]
fn read_of_unwritten_block_is_an_error() {
    let file_mgr = FileMgr::new(String::from("example/"), 32);
    let mut page = Page::new(32);
    let r = file_mgr.read(&Block::new(String::from("missing.tbl"), 0), &mut page);
    assert_eq!(r, Err(IoError::BlockMissing));
}

#[test]
fn read_into_larger_page_is_an_error() {
    let mut file_mgr = FileMgr::new(String::from("example/"), 32);
    let block = Block::new(String::from("short.tbl"), 0);
    file_mgr.write(&block, &Page::new(16)).unwrap();
    let mut page = Page::new(32);
    assert_eq!(file_mgr.read(&block, &mut page), Err(IoError::ShortBlock));
}

#[test]
fn get_block_returns_the_persisted_bytes_exactly() {
    let mut file_mgr = FileMgr::new(String::from("example/"), 4);
    let block = Block::new(String::from("raw.tbl"), 0);
    assert_eq!(file_mgr.get_block(&block), None);
    let mut page = Page::new(4);
    page.set_byte(2, 9);
    file_mgr.write(&block, &page).unwrap();
    assert_eq!(file_mgr.get_block(&block), Some(vec![0, 0, 9, 0]));
}

#[test]
fn write_replaces_prior_block_contents() {
    let mut file_mgr = FileMgr::new(String::from("example/"), 4);
    let block = Block::new(String::from("tiny.tbl"), 3);
    let mut page = Page::new(4);
    page.set_byte(0, 5);
    file_mgr.write(&block, &page).unwrap();
    page.set_byte(0, 6);
    file_mgr.write(&block, &page).unwrap();
    let mut out = Page::new(4);
    file_mgr.read(&block, &mut out).unwrap();
    assert_eq!(out.get_byte(0), Some(6));
    assert_eq!(file_mgr.block_size(), 4);
    assert_eq!(file_mgr.pwd(), String::from("example/"));
}
