//! The write-ahead log manager: appends sequence-numbered records into a
//! staging page, flushes full pages to sequential log blocks, and tracks
//! which log sequence number is merely staged and which is durable.
//!
//! A record on disk is its payload followed by its LSN as eight
//! little-endian bytes; the space check happens before anything is appended,
//! so no record is ever split across two log blocks.

use vstd::prelude::*;

use crate::file_mgr::{Block, BlockId, FileMgr, IoError, Page, PageV};

verus! {

/// One appended log record: an opaque payload and the LSN the manager
/// assigned to it. Immutable once returned.
pub struct Record {
    pub msg: Vec<u8>,
    pub lsn: usize,
}

impl Record {
    /// Bytes the record occupies in a log block: the payload plus the
    /// eight-byte LSN.
    pub fn size(&self) -> (r: usize)
        requires
            self.msg@.len() + 8 <= usize::MAX,
        ensures
            r == self.msg@.len() + 8,
    {
        self.msg.len() + 8
    }
}

/// The state of the log manager: the store it flushes to, the staging page,
/// the log file's name, the watermarks, and the next block index to write.
#[verifier::ext_equal]
pub struct LogV {
    pub store: Map<BlockId, Seq<u8>>,
    pub page: PageV,
    pub file: Seq<char>,
    pub staged: nat,
    pub committed: nat,
    pub next_block: u64,
}

impl LogV {
    /// The staging page is well formed and nothing durable outruns what was
    /// staged.
    pub open spec fn wf(self) -> bool {
        &&& self.page.wf()
        &&& self.committed <= self.staged
    }

    /// The staging page's full capacity.
    pub open spec fn capacity(self) -> nat {
        self.page.bytes.len()
    }

    /// Bytes a record with this payload occupies.
    pub open spec fn rec_size(msg: Seq<u8>) -> int {
        msg.len() + 8int
    }

    /// A record as it sits in a log block: payload, then the LSN in eight
    /// little-endian bytes.
    pub open spec fn record_bytes(msg: Seq<u8>, lsn: nat) -> Seq<u8> {
        msg + vstd::bytes::spec_u64_to_le_bytes(lsn as u64)
    }

    /// The state after `flush`: the staging page persisted verbatim at the
    /// next log block, the block index advanced, and the page reset in
    /// memory. The persisted block is unaffected by the reset.
    pub open spec fn flush_post(self) -> LogV {
        LogV {
            store: self.store.insert(
                BlockId { name: self.file, id: self.next_block },
                self.page.bytes,
            ),
            page: PageV { bytes: Seq::new(self.page.bytes.len(), |i: int| 0u8), used: 0 },
            next_block: (self.next_block + 1) as u64,
            ..self
        }
    }

    /// The state after `add`: a flush first when the record does not fit,
    /// then the record appended and the staged watermark advanced.
    pub open spec fn add_post(self, msg: Seq<u8>) -> LogV {
        let s1 = if self.page.avail() < Self::rec_size(msg) {
            self.flush_post()
        } else {
            self
        };
        LogV {
            page: PageV {
                bytes: s1.page.bytes.take(s1.page.used as int) + Self::record_bytes(
                    msg,
                    (self.staged + 1) as nat,
                ) + s1.page.bytes.skip(s1.page.used + Self::rec_size(msg)),
                used: (s1.page.used + Self::rec_size(msg)) as nat,
            },
            staged: self.staged + 1,
            ..s1
        }
    }

    /// The state after `commit`: a point at or below the durable watermark
    /// is a no-op; anything above it makes every staged record durable.
    pub open spec fn commit_post(self, lsn: nat) -> LogV {
        if lsn > self.committed {
            LogV { committed: self.staged, ..self }.flush_post()
        } else {
            self
        }
    }

    /// The log block at index `k`.
    pub open spec fn log_block(self, k: u64) -> BlockId {
        BlockId { name: self.file, id: k }
    }

    /// One step of the recovery decode: a record with a payload of `n` bytes
    /// decodes at `off` in block `k` when the block is persisted, the
    /// payload and its eight LSN bytes lie inside the block, and the LSN is
    /// the expected one.
    pub open spec fn decodes_at(self, k: u64, off: int, n: int, lsn: int) -> bool {
        &&& self.store.contains_key(self.log_block(k))
        &&& off + n + 8 <= self.store[self.log_block(k)].len()
        &&& vstd::bytes::spec_u64_from_le_bytes(
            self.store[self.log_block(k)].subrange(off + n, off + n + 8),
        ) == lsn
    }

    /// The records the recovery walk surfaces from block `k` onward, the
    /// cursor standing at `off`, the next expected record being number
    /// `i + 1` with payload length `lens[i]`. A record that does not decode
    /// where the cursor stands is sought at the start of the next block, as
    /// the writer places it; the walk stops when the lengths run out, when
    /// the next LSN would pass the durable watermark, past the last written
    /// block, or at a block start where nothing decodes.
    pub open spec fn walk(self, lens: Seq<usize>, k: u64, off: int, i: int) -> Seq<(Seq<u8>, int)>
        decreases self.next_block - k, lens.len() - i,
    {
        if !(0 <= i < lens.len()) || i + 1 > self.committed || k >= self.next_block {
            Seq::empty()
        } else if self.decodes_at(k, off, lens[i] as int, i + 1) {
            seq![(self.store[self.log_block(k)].subrange(off, off + lens[i]), i + 1)]
                + self.walk(lens, k, off + lens[i] + 8, i + 1)
        } else if off > 0 {
            self.walk(lens, (k + 1) as u64, 0, i)
        } else {
            Seq::empty()
        }
    }
}

/// The payload bytes and the LSN of each record, in order: what the recovery
/// walk is held to.
pub open spec fn rec_pairs(rs: Seq<Record>) -> Seq<(Seq<u8>, int)> {
    rs.map_values(|rec: Record| (rec.msg@, rec.lsn as int))
}

/// Law: a flush leaves the staging page with its full capacity available,
/// and does not move either watermark.
pub proof fn lemma_flush_resets_staging(s: LogV)
    ensures
        s.flush_post().page.avail() == s.capacity(),
        s.flush_post().capacity() == s.capacity(),
        s.flush_post().staged == s.staged,
        s.flush_post().committed == s.committed,
{
}

/// Law: each `add` assigns the next LSN in a dense increasing sequence, so
/// K calls starting from a fresh manager yield exactly the LSNs 1 through K.
/// When the record fits, the available space shrinks by exactly the record's
/// size and nothing is flushed; when it does not, the page is flushed first
/// and the record starts a fresh page.
pub proof fn lemma_add_advances(s: LogV, msg: Seq<u8>)
    requires
        s.wf(),
        LogV::rec_size(msg) <= s.capacity(),
        s.next_block < u64::MAX,
    ensures
        s.add_post(msg).staged == s.staged + 1,
        s.add_post(msg).committed == s.committed,
        s.add_post(msg).capacity() == s.capacity(),
        s.page.avail() >= LogV::rec_size(msg) ==> s.add_post(msg).page.avail() == s.page.avail()
            - LogV::rec_size(msg) && s.add_post(msg).store == s.store && s.add_post(msg).next_block
            == s.next_block,
        s.page.avail() < LogV::rec_size(msg) ==> s.add_post(msg).page.avail() == s.capacity()
            - LogV::rec_size(msg) && s.add_post(msg).store == s.flush_post().store && s.add_post(
            msg,
        ).next_block == s.next_block + 1,
{
    let s1 = if s.page.avail() < LogV::rec_size(msg) {
        s.flush_post()
    } else {
        s
    };
    assert(vstd::bytes::spec_u64_to_le_bytes(((s.staged + 1) as nat) as u64).len() == 8) by {
        vstd::bytes::lemma_auto_spec_u64_to_from_le_bytes();
    }
    assert(s.add_post(msg).page.bytes.len() == s1.page.bytes.len());
}

/// Law: two successive `add` calls yield strictly increasing, consecutive
/// LSNs.
pub proof fn lemma_add_lsns_increase(s: LogV, m1: Seq<u8>, m2: Seq<u8>)
    ensures
        s.add_post(m1).staged == s.staged + 1,
        s.add_post(m1).add_post(m2).staged == s.staged + 2,
{
}

/// The state after appending a whole sequence of payloads, one `add` each,
/// in order.
pub open spec fn add_many(s: LogV, msgs: Seq<Seq<u8>>) -> LogV
    decreases msgs.len(),
{
    if msgs.len() == 0 {
        s
    } else {
        add_many(s, msgs.drop_last()).add_post(msgs.last())
    }
}

/// Law: K `add` calls in sequence advance the staged watermark by exactly K,
/// and the call appending the payload at position i is assigned the LSN
/// `staged + i + 1` — on a fresh manager, the dense sequence 1 through K.
pub proof fn lemma_add_many_lsns(s: LogV, msgs: Seq<Seq<u8>>)
    ensures
        add_many(s, msgs).staged == s.staged + msgs.len(),
        forall|i: int|
            0 <= i < msgs.len() ==> #[trigger] add_many(s, msgs.take(i)).add_post(
                msgs[i],
            ).staged == s.staged + i + 1,
    decreases msgs.len(),
{
    if msgs.len() > 0 {
        lemma_add_many_lsns(s, msgs.drop_last());
        assert(msgs.drop_last() == msgs.take(msgs.len() - 1));
        assert forall|i: int|
            0 <= i < msgs.len() implies #[trigger] add_many(s, msgs.take(i)).add_post(
            msgs[i],
        ).staged == s.staged + i + 1 by {
            if i < msgs.len() - 1 {
                assert(msgs.drop_last().take(i) == msgs.take(i));
                assert(msgs.drop_last()[i] == msgs[i]);
            } else {
                assert(add_many(s, msgs.take(i)).staged == s.staged + i);
            }
        }
    }
}

/// Law: committing a point at or below the durable watermark changes
/// nothing at all — in particular neither `last_committed` nor the next
/// block index; committing above it is a barrier that makes every staged
/// record durable.
pub proof fn lemma_commit_idempotent_below_watermark(s: LogV, lsn: nat)
    requires
        s.next_block < u64::MAX,
    ensures
        lsn <= s.committed ==> s.commit_post(lsn) == s,
        lsn > s.committed ==> s.commit_post(lsn).committed == s.staged && s.commit_post(
            lsn,
        ).next_block == s.next_block + 1,
{
}

/// The log manager itself.
pub struct LogMgr {
    file_mgr: FileMgr,
    log_pg: Page,
    log_file: String,
    last_staged: usize,
    last_committed: usize,
    next_block_id: u64,
}

impl View for LogMgr {
    type V = LogV;

    closed spec fn view(&self) -> LogV {
        LogV {
            store: self.file_mgr@.store,
            page: self.log_pg@,
            file: self.log_file@,
            staged: self.last_staged as nat,
            committed: self.last_committed as nat,
            next_block: self.next_block_id,
        }
    }
}

impl LogMgr {
    /// The manager is well formed: its store keeps blocks unique, its view
    /// is consistent, and the staging page was sized to the store's blocks.
    pub closed spec fn wf(&self) -> bool {
        &&& self.file_mgr.wf()
        &&& self@.wf()
        &&& self@.capacity() == self.file_mgr@.block_size
    }

    /// A fresh manager for the named log file: an empty store with 100-byte
    /// blocks, a zeroed staging page of one block, and both watermarks at 0.
    pub fn new(log_file: String) -> (r: LogMgr)
        ensures
            r.wf(),
            r@.file == log_file@,
            r@.staged == 0,
            r@.committed == 0,
            r@.next_block == 0,
            r@.store == Map::<BlockId, Seq<u8>>::empty(),
            r@.page.used == 0,
            r@.page.is_zeroed(),
            r@.capacity() == 100,
    {
        let file_mgr = FileMgr::new("example/".to_string(), 100);
        let page_size = file_mgr.block_size();
        let log_pg = Page::new(page_size);
        LogMgr {
            file_mgr,
            log_pg,
            log_file,
            last_staged: 0,
            last_committed: 0,
            next_block_id: 0,
        }
    }

    /// What the closed well-formedness predicate guarantees of the visible
    /// state: the open view invariant holds, so a caller may rely on the
    /// staging cursor being in bounds and on the durable watermark never
    /// outrunning the staged one.
    pub proof fn lemma_view_wf(&self)
        requires
            self.wf(),
        ensures
            self@.wf(),
    {
    }

    /// The name of the log file every flushed block belongs to.
    pub fn log_file(&self) -> (r: &String)
        ensures
            r@ == self@.file,
    {
        &self.log_file
    }

    /// The staging page's (and every log block's) capacity.
    pub fn pg_size(&self) -> (r: usize)
        requires
            self.wf(),
        ensures
            r == self@.capacity(),
    {
        self.file_mgr.block_size()
    }

    /// Highest LSN placed in the staging page so far.
    pub fn last_staged(&self) -> (r: usize)
        ensures
            r == self@.staged,
    {
        self.last_staged
    }

    /// Highest LSN guaranteed durable.
    pub fn last_committed(&self) -> (r: usize)
        ensures
            r == self@.committed,
    {
        self.last_committed
    }

    /// The next sequential log block index to be written.
    pub fn next_block_id(&self) -> (r: u64)
        ensures
            r == self@.next_block,
    {
        self.next_block_id
    }

    /// Capacity left in the staging page.
    pub fn avail_space(&self) -> (r: usize)
        requires
            self.wf(),
        ensures
            r == self@.page.avail(),
    {
        self.log_pg.avail_space()
    }

    /// The bytes persisted at log block `id`, or nothing when that block has
    /// not been written yet. Recovery walks these blocks in increasing index
    /// order; decoding the packed `(payload, lsn)` pairs inside one takes
    /// knowledge of the payload lengths, which the on-disk layout itself
    /// does not carry.
    pub fn read_block(&self, id: u64) -> (r: Option<Vec<u8>>)
        requires
            self.wf(),
        ensures
            ({
                let b = BlockId { name: self@.file, id: id };
                &&& self@.store.contains_key(b) ==> (r matches Some(v) && v@ == self@.store[b])
                &&& !self@.store.contains_key(b) ==> r is None
            }),
    {
        let block = Block::new(self.log_file.clone(), id);
        self.file_mgr.get_block(&block)
    }

    /// Recovery: the durable records, decoded from the log blocks in
    /// increasing index order, restartable at any time. The on-disk layout
    /// carries no payload lengths, so the caller supplies the length of each
    /// record's payload in LSN order; the walk stops at the first point
    /// where no record decodes or where the next LSN would pass the durable
    /// watermark, so records staged but not yet durable are never surfaced.
    pub fn recovery_records(&self, payload_lens: &Vec<usize>) -> (r: Vec<Record>)
        requires
            self.wf(),
        ensures
            rec_pairs(r@) == self@.walk(payload_lens@, 0, 0, 0),
    {
        let mut out: Vec<Record> = Vec::new();
        let mut k: u64 = 0;
        let mut off: usize = 0;
        let mut i: usize = 0;
        proof {
            assert(rec_pairs(out@) =~= Seq::<(Seq<u8>, int)>::empty());
        }
        loop
            invariant
                self.wf(),
                i <= payload_lens@.len(),
                k <= self@.next_block,
                self@.walk(payload_lens@, 0, 0, 0) == rec_pairs(out@) + self@.walk(
                    payload_lens@,
                    k,
                    off as int,
                    i as int,
                ),
            decreases self@.next_block - k, payload_lens@.len() - i,
        {
            let ghost rest = self@.walk(payload_lens@, k, off as int, i as int);
            if i >= payload_lens.len() {
                proof {
                    assert(rec_pairs(out@) =~= rec_pairs(out@) + rest);
                }
                return out;
            }
            if i + 1 > self.last_committed {
                proof {
                    assert(rec_pairs(out@) =~= rec_pairs(out@) + rest);
                }
                return out;
            }
            if k >= self.next_block_id {
                proof {
                    assert(rec_pairs(out@) =~= rec_pairs(out@) + rest);
                }
                return out;
            }
            let n = payload_lens[i];
            let block = Block::new(self.log_file.clone(), k);
            let got = self.file_mgr.get_block(&block);
            let mut msg: Option<Vec<u8>> = None;
            match &got {
                Some(b) => {
                    if off <= b.len() && b.len() - off >= 8 && b.len() - off - 8 >= n {
                        let lsn_bytes = vstd::slice::slice_subrange(
                            b.as_slice(),
                            off + n,
                            off + n + 8,
                        );
                        let lsn = vstd::bytes::u64_from_le_bytes(lsn_bytes);
                        if lsn == (i as u64) + 1 {
                            msg = Some(
                                vstd::slice::slice_to_vec(
                                    vstd::slice::slice_subrange(b.as_slice(), off, off + n),
                                ),
                            );
                        }
                    }
                },
                None => {},
            }
            match msg {
                Some(m) => {
                    proof {
                        assert(self@.decodes_at(k, off as int, n as int, i + 1));
                        assert(m@ == self@.store[self@.log_block(k)].subrange(
                            off as int,
                            off + n,
                        ));
                    }
                    let ghost prev = out@;
                    out.push(Record { msg: m, lsn: i + 1 });
                    proof {
                        assert(rec_pairs(out@) =~= rec_pairs(prev).push(
                            (self@.store[self@.log_block(k)].subrange(off as int, off + n), i + 1),
                        ));
                        assert(rec_pairs(out@) + self@.walk(
                            payload_lens@,
                            k,
                            off + n + 8,
                            i + 1,
                        ) =~= rec_pairs(prev) + rest);
                    }
                    off = off + n + 8;
                    i = i + 1;
                },
                None => {
                    proof {
                        assert(!self@.decodes_at(k, off as int, n as int, i + 1));
                    }
                    if off > 0 {
                        k = k + 1;
                        off = 0;
                    } else {
                        proof {
                            assert(rec_pairs(out@) =~= rec_pairs(out@) + rest);
                        }
                        return out;
                    }
                },
            }
        }
    }

    /// Appends `msg` as the next record: a flush first when it does not fit,
    /// then the payload and the freshly assigned LSN go into the staging
    /// page back to back. Returns the record with its LSN.
    pub fn add(&mut self, msg: Vec<u8>) -> (r: Result<Record, IoError>)
        requires
            old(self).wf(),
            msg@.len() + 8 <= old(self)@.capacity(),
            old(self)@.staged < usize::MAX,
            old(self)@.next_block < u64::MAX,
        ensures
            final(self).wf(),
            final(self)@ == old(self)@.add_post(msg@),
            r is Ok,
            r matches Ok(rec) ==> rec.msg@ == msg@ && rec.lsn == old(self)@.staged + 1,
            final(self)@.staged == old(self)@.staged + 1,
            old(self)@.page.avail() >= msg@.len() + 8 ==> final(self)@.page.avail() == old(
                self,
            )@.page.avail() - (msg@.len() + 8) && final(self)@.next_block == old(self)@.next_block
                && final(self)@.store == old(self)@.store,
            old(self)@.page.avail() < msg@.len() + 8 ==> final(self)@.page.avail() == old(
                self,
            )@.capacity() - (msg@.len() + 8) && final(self)@.next_block == old(self)@.next_block
                + 1,
    {
        proof {
            lemma_add_advances(old(self)@, msg@);
        }
        let cap = self.log_pg.size();
        proof {
            assert(msg@.len() + 8 <= cap);
        }
        let rec_size = msg.len() + 8;
        if self.log_pg.avail_space() < rec_size {
            match self.flush() {
                Ok(_) => {},
                Err(_) => {
                    // unreachable: flush cannot fail
                    proof {
                        assert(false);
                    }
                    return Err(IoError::BlockMissing);
                },
            }
        }
        let ghost s1 = if old(self)@.page.avail() < LogV::rec_size(msg@) {
            old(self)@.flush_post()
        } else {
            old(self)@
        };
        proof {
            assert(self@ =~= s1);
        }
        let n1 = self.log_pg.append(&msg);
        self.last_staged = self.last_staged + 1;
        let lsn_bytes = vstd::bytes::u64_to_le_bytes(self.last_staged as u64);
        let n2 = self.log_pg.append(&lsn_bytes);
        proof {
            assert(n1 == msg@.len());
            assert(n2 == 8);
            assert(msg@.take(n1 as int) =~= msg@);
            assert(lsn_bytes@.take(n2 as int) =~= lsn_bytes@);
            assert(self@.page.bytes =~= s1.page.bytes.take(s1.page.used as int)
                + LogV::record_bytes(msg@, (old(self)@.staged + 1) as nat) + s1.page.bytes.skip(
                s1.page.used + LogV::rec_size(msg@),
            ));
            assert(self@ =~= old(self)@.add_post(msg@));
        }
        Ok(Record { msg, lsn: self.last_staged })
    }

    /// Commits through `lsn`: a durability barrier. Every record staged so
    /// far becomes durable — not merely the one named — unless the point is
    /// already durable, in which case nothing happens at all.
    pub fn commit(&mut self, lsn: usize) -> (r: Result<(), IoError>)
        requires
            old(self).wf(),
            lsn > old(self)@.committed ==> old(self)@.next_block < u64::MAX,
        ensures
            final(self).wf(),
            final(self)@ == old(self)@.commit_post(lsn as nat),
            r is Ok,
    {
        if lsn > self.last_committed {
            self.last_committed = self.last_staged;
            match self.flush() {
                Ok(_) => {},
                Err(_) => {
                    // unreachable: flush cannot fail
                    proof {
                        assert(false);
                    }
                    return Err(IoError::BlockMissing);
                },
            }
        }
        Ok(())
    }

    /// Writes the staging page verbatim to the next sequential log block,
    /// advances the block index, and resets the page in memory.
    pub fn flush(&mut self) -> (r: Result<(), IoError>)
        requires
            old(self).wf(),
            old(self)@.next_block < u64::MAX,
        ensures
            final(self).wf(),
            final(self)@ == old(self)@.flush_post(),
            r is Ok,
    {
        let curr_block = Block::new(self.log_file.clone(), self.next_block_id);
        match self.file_mgr.write(&curr_block, &self.log_pg) {
            Ok(_) => {},
            Err(_) => {
                // unreachable: the store never rejects a write
                proof {
                    assert(false);
                }
                return Err(IoError::BlockMissing);
            },
        }
        self.next_block_id = self.next_block_id + 1;
        self.log_pg.flush();
        proof {
            assert(self@.page.bytes =~= Seq::new(old(self)@.page.bytes.len(), |i: int| 0u8));
            assert(self@ =~= old(self)@.flush_post());
        }
        Ok(())
    }
}

} // verus!
