use pagestore::log_mgr::LogMgr;

#[test]
fn log_simple_test() {
    let mut lm = LogMgr::new(String::from("logtest.tbl"));
    for i in 0..50 {
        let msg = format!("A{}", i + 1).bytes().collect::<Vec<u8>>();
        let _record = lm.add(msg).unwrap();
    }
    lm.commit(10).unwrap();
    assert_eq!(lm.last_staged(), 50);
    assert_eq!(lm.last_committed(), 50);
}

#[test]
fn add_assigns_dense_increasing_lsns() {
    let mut lm = LogMgr::new(String::from("lsn.tbl"));
    for k in 1..=30 {
        let rec = lm.add(vec![9, 9]).unwrap();
        assert_eq!(rec.lsn, k);
        assert_eq!(lm.last_staged(), k);
    }
}

#[test]
fn add_consumes_exactly_the_record_size() {
    let mut lm = LogMgr::new(String::from("avail.tbl"));
    assert_eq!(lm.avail_space(), 100);
    let rec = lm.add(vec![1, 2]).unwrap();
    assert_eq!(rec.size(), 10);
    assert_eq!(lm.avail_space(), 90);
    assert_eq!(lm.next_block_id(), 0);
}

#[test]
fn add_that_does_not_fit_flushes_first() {
    let mut lm = LogMgr::new(String::from("fill.tbl"));
    // ten 10-byte records fill the 100-byte staging page exactly
    for _ in 0..10 {
        lm.add(vec![0, 1]).unwrap();
    }
    assert_eq!(lm.avail_space(), 0);
    assert_eq!(lm.next_block_id(), 0);
    // the next record triggers a flush and starts a fresh page
    lm.add(vec![2, 3]).unwrap();
    assert_eq!(lm.next_block_id(), 1);
    assert_eq!(lm.avail_space(), 90);
}

#[test]
fn record_carries_its_payload_and_lsn() {
    let mut lm = LogMgr::new(String::from("rec.tbl"));
    let rec = lm.add(vec![4, 5, 6]).unwrap();
    assert_eq!(rec.msg, vec![4, 5, 6]);
    assert_eq!(rec.lsn, 1);
    assert_eq!(rec.size(), 11);
}

#[test]
fn commit_is_a_barrier_over_all_staged_records() {
    let mut lm = LogMgr::new(String::from("barrier.tbl"));
    for _ in 0..12 {
        lm.add(vec![7; 3]).unwrap();
    }
    lm.commit(4).unwrap();
    assert_eq!(lm.last_committed(), 12);
    // the barrier forced at least one flush
    assert!(lm.next_block_id() >= 1);
}

#[test]
fn commit_at_or_below_watermark_changes_nothing() {
    let mut lm = LogMgr::new(String::from("noop.tbl"));
    for _ in 0..5 {
        lm.add(vec![8]).unwrap();
    }
    lm.commit(5).unwrap();
    assert_eq!(lm.last_committed(), 5);
    let blocks = lm.next_block_id();
    let avail = lm.avail_space();
    lm.commit(3).unwrap();
    assert_eq!(lm.last_committed(), 5);
    assert_eq!(lm.next_block_id(), blocks);
    assert_eq!(lm.avail_space(), avail);
}

#[test]
fn flushed_block_holds_packed_records_verbatim() {
    let mut lm = LogMgr::new(String::from("layout.tbl"));
    assert_eq!(lm.read_block(0), None);
    lm.add(vec![b'a', b'b']).unwrap();
    lm.flush().unwrap();
    let block = lm.read_block(0).unwrap();
    assert_eq!(block.len(), 100);
    // payload first, then the LSN as eight little-endian bytes, then zeros
    assert_eq!(&block[0..2], b"ab");
    assert_eq!(&block[2..10], &1u64.to_le_bytes());
    assert!(block[10..].iter().all(|&b| b == 0));
    // the in-memory reset did not touch the persisted block
    lm.add(vec![b'c']).unwrap();
    assert_eq!(lm.read_block(0).unwrap()[0], b'a');
    assert_eq!(lm.read_block(1), None);
}

#[test]
fn recovery_surfaces_exactly_the_durable_records() {
    let mut lm = LogMgr::new(String::from("recover.tbl"));
    let payloads: [&[u8]; 3] = [b"aa", b"bbbbb", b"c"];
    for p in payloads {
        lm.add(p.to_vec()).unwrap();
    }
    lm.commit(1).unwrap();
    // a fourth record is staged but not durable
    lm.add(b"dd".to_vec()).unwrap();
    let lens = vec![2, 5, 1, 2];
    let recs = lm.recovery_records(&lens);
    assert_eq!(recs.len(), 3);
    for (j, rec) in recs.iter().enumerate() {
        assert_eq!(rec.msg, payloads[j].to_vec());
        assert_eq!(rec.lsn, j + 1);
    }
}

#[test]
fn recovery_walks_across_block_boundaries() {
    let mut lm = LogMgr::new(String::from("walk.tbl"));
    // nine 10-byte records fill block 0 to 90 bytes; the tenth record does
    // not fit and starts block 1
    for _ in 0..9 {
        lm.add(vec![3, 4]).unwrap();
    }
    lm.add(vec![5, 6, 7]).unwrap();
    lm.commit(10).unwrap();
    let mut lens = vec![2; 9];
    lens.push(3);
    let recs = lm.recovery_records(&lens);
    assert_eq!(recs.len(), 10);
    assert_eq!(recs[8].msg, vec![3, 4]);
    assert_eq!(recs[9].msg, vec![5, 6, 7]);
    assert_eq!(recs[9].lsn, 10);
}

#[test]
fn recovery_of_a_fresh_log_is_empty() {
    let lm = LogMgr::new(String::from("fresh.tbl"));
    assert_eq!(lm.recovery_records(&vec![4, 4]).len(), 0);
}

#[test]
fn flush_restores_full_capacity() {
    let mut lm = LogMgr::new(String::from("flush.tbl"));
    lm.add(vec![1, 2, 3, 4]).unwrap();
    assert!(lm.avail_space() < 100);
    lm.flush().unwrap();
    assert_eq!(lm.avail_space(), lm.pg_size());
    assert_eq!(lm.avail_space(), 100);
}
