use pagestore::buf_mgr::{BufMgr, BufMgrErr};
use pagestore::file_mgr::{Block, FileMgr, Page};

fn store_with_blocks(file: &str, ids: &[u64], size: usize) -> FileMgr {
    let mut fm = FileMgr::new(String::from("example/"), size);
    for &id in ids {
        fm.write(&Block::new(String::from(file), id), &Page::new(size)).unwrap();
    }
    fm
}

#[test]
fn buf_simple_test() {
    let mut fm = FileMgr::new(String::from("example/"), 100);
    let blk_1 = Block::new(String::from("buftest.tbl"), 1);
    let blk_2 = Block::new(String::from("buftest.tbl"), 2);
    let blk_3 = Block::new(String::from("buftest.tbl"), 3);
    let blk_4 = Block::new(String::from("buftest.tbl"), 4);
    // init the table
    fm.write(&blk_1, &Page::new(100)).unwrap();
    fm.write(&blk_2, &Page::new(100)).unwrap();
    fm.write(&blk_3, &Page::new(100)).unwrap();
    fm.write(&blk_4, &Page::new(100)).unwrap();
    let mut bm = BufMgr::new(fm, 3, 100);
    let page1 = bm.pin(Block::new(String::from("buftest.tbl"), 1)).unwrap();
    for i in 0..100 {
        bm.set_byte(page1, i, 1);
    }
    bm.unpin(Block::new(String::from("buftest.tbl"), 1)).unwrap();
    bm.pin(blk_2).unwrap();
    bm.pin(blk_3).unwrap();
    bm.pin(blk_4).unwrap();
    bm.unpin(Block::new(String::from("buftest.tbl"), 2)).unwrap();
    let new_page = bm.pin(blk_1).unwrap();
    for i in 0..100 {
        assert_eq!(bm.get_byte(new_page, i).unwrap(), 1);
    }
}

#[test]
fn pin_returns_persisted_bytes() {
    let mut fm = FileMgr::new(String::from("example/"), 10);
    let block = Block::new(String::from("persist.tbl"), 0);
    let mut page = Page::new(10);
    for i in 0..10 {
        page.set_byte(i, 7);
    }
    fm.write(&block, &page).unwrap();
    let mut bm = BufMgr::new(fm, 2, 10);
    let f = bm.pin(block).unwrap();
    for i in 0..10 {
        assert_eq!(bm.get_byte(f, i).unwrap(), 7);
    }
}

#[test]
fn pin_resident_block_increments_pin_count_and_keeps_binding() {
    let fm = store_with_blocks("pins.tbl", &[1], 16);
    let mut bm = BufMgr::new(fm, 2, 16);
    let f1 = bm.pin(Block::new(String::from("pins.tbl"), 1)).unwrap();
    assert_eq!(bm.pin_count(f1), 1);
    let f2 = bm.pin(Block::new(String::from("pins.tbl"), 1)).unwrap();
    assert_eq!(f2, f1);
    assert_eq!(bm.pin_count(f1), 2);
}

#[test]
fn pin_on_resident_block_refreshes_from_store() {
    let fm = store_with_blocks("refresh.tbl", &[1], 8);
    let mut bm = BufMgr::new(fm, 1, 8);
    let f = bm.pin(Block::new(String::from("refresh.tbl"), 1)).unwrap();
    bm.set_byte(f, 0, 42);
    assert_eq!(bm.get_byte(f, 0), Some(42));
    // a second pin re-reads the persisted bytes, dropping the unflushed write
    let f = bm.pin(Block::new(String::from("refresh.tbl"), 1)).unwrap();
    assert_eq!(bm.get_byte(f, 0), Some(0));
}

#[test]
fn pin_with_every_frame_pinned_fails() {
    let fm = store_with_blocks("full.tbl", &[1, 2, 3, 4], 8);
    let mut bm = BufMgr::new(fm, 3, 8);
    bm.pin(Block::new(String::from("full.tbl"), 1)).unwrap();
    bm.pin(Block::new(String::from("full.tbl"), 2)).unwrap();
    bm.pin(Block::new(String::from("full.tbl"), 3)).unwrap();
    let r = bm.pin(Block::new(String::from("full.tbl"), 4));
    assert_eq!(r, Err(BufMgrErr::NoPageErr));
    // a pinned block can still be pinned again
    assert!(bm.pin(Block::new(String::from("full.tbl"), 2)).is_ok());
}

#[test]
fn unpin_frees_a_frame_and_eviction_writes_back() {
    let fm = store_with_blocks("evict.tbl", &[1, 2], 8);
    let mut bm = BufMgr::new(fm, 1, 8);
    let f = bm.pin(Block::new(String::from("evict.tbl"), 1)).unwrap();
    for i in 0..8 {
        bm.set_byte(f, i, 5);
    }
    assert_eq!(
        bm.pin(Block::new(String::from("evict.tbl"), 2)),
        Err(BufMgrErr::NoPageErr)
    );
    bm.unpin(Block::new(String::from("evict.tbl"), 1)).unwrap();
    // the freed frame is reused; block 1's modified page is written back first
    let f2 = bm.pin(Block::new(String::from("evict.tbl"), 2)).unwrap();
    assert_eq!(f2, f);
    assert_eq!(bm.get_byte(f2, 0), Some(0));
    bm.unpin(Block::new(String::from("evict.tbl"), 2)).unwrap();
    let f3 = bm.pin(Block::new(String::from("evict.tbl"), 1)).unwrap();
    for i in 0..8 {
        assert_eq!(bm.get_byte(f3, i), Some(5));
    }
}

#[test]
fn unpin_of_unpinned_block_fails() {
    let fm = store_with_blocks("unpin.tbl", &[1], 8);
    let mut bm = BufMgr::new(fm, 2, 8);
    bm.pin(Block::new(String::from("unpin.tbl"), 1)).unwrap();
    bm.unpin(Block::new(String::from("unpin.tbl"), 1)).unwrap();
    // resident, but its pin count is already zero
    let r = bm.unpin(Block::new(String::from("unpin.tbl"), 1));
    assert_eq!(r, Err(BufMgrErr::UnPinErr));
}

#[test]
fn unpin_of_nonresident_block_fails() {
    let fm = store_with_blocks("ghost.tbl", &[1], 8);
    let mut bm = BufMgr::new(fm, 2, 8);
    let r = bm.unpin(Block::new(String::from("ghost.tbl"), 1));
    assert_eq!(r, Err(BufMgrErr::UnPinErr));
}

#[test]
fn pin_of_unwritten_block_fails_with_io_error() {
    let fm = FileMgr::new(String::from("example/"), 8);
    let mut bm = BufMgr::new(fm, 2, 8);
    let r = bm.pin(Block::new(String::from("nowhere.tbl"), 9));
    assert_eq!(r, Err(BufMgrErr::IoErr));
    assert_eq!(bm.pool_size(), 2);
    assert_eq!(bm.pin_count(0), 0);
}
