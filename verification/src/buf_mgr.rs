//! The buffer pool: a fixed set of frames caching blocks under explicit
//! pinning, with the simplest correct eviction policy — the first unpinned
//! frame in pool order, its page written back unconditionally.
//!
//! A pin on a resident block refreshes the frame from the store, so a
//! successful `pin` always hands back exactly the persisted bytes; the price
//! is that unflushed in-memory modifications do not survive a re-pin.

use vstd::prelude::*;

use crate::file_mgr::{Block, BlockId, FileMgr, Page, PageV};

verus! {

/// A failed buffer-pool operation.
#[derive(Debug, PartialEq, Eq)]
pub enum BufMgrErr {
    /// Every frame is pinned: no frame can be freed for the requested block.
    NoPageErr,
    /// The block is not resident, or its pin count is already zero.
    UnPinErr,
    /// The store holds no readable block at the requested address.
    IoErr,
}

/// One buffer-pool slot: an owned page, the block it currently caches, and
/// how many callers hold a pin on it.
pub struct Buffer {
    page: Page,
    block: Option<Block>,
    pins: usize,
}

/// The state of one frame.
#[verifier::ext_equal]
pub struct FrameV {
    pub page: PageV,
    pub block: Option<BlockId>,
    pub pins: nat,
}

impl View for Buffer {
    type V = FrameV;

    closed spec fn view(&self) -> FrameV {
        FrameV {
            page: self.page@,
            block: match self.block {
                Some(b) => Some(b@),
                None => None,
            },
            pins: self.pins as nat,
        }
    }
}

impl Buffer {
    fn new(page_size: usize) -> (r: Buffer)
        ensures
            r@.page.wf(),
            r@.page.used == 0,
            r@.page.bytes.len() == page_size,
            r@.page.is_zeroed(),
            r@.block is None,
            r@.pins == 0,
    {
        Buffer { page: Page::new(page_size), block: None, pins: 0 }
    }
}

/// The state of the whole pool: its frames, in pool order, and the block
/// store they cache.
#[verifier::ext_equal]
pub struct BufV {
    pub frames: Seq<FrameV>,
    pub store: Map<BlockId, Seq<u8>>,
}

impl BufV {
    /// A frame's page is well formed; a pinned frame is bound; a bound
    /// frame's block is persisted with at least the frame's capacity.
    pub open spec fn frame_ok(self, i: int) -> bool {
        &&& self.frames[i].page.wf()
        &&& (self.frames[i].pins > 0 ==> self.frames[i].block is Some)
        &&& (self.frames[i].block matches Some(b) ==> self.store.contains_key(b)
            && self.store[b].len() >= self.frames[i].page.bytes.len())
    }

    /// Every frame is ok and no two frames are bound to the same block.
    pub open spec fn wf(self) -> bool {
        &&& (forall|i: int| 0 <= i < self.frames.len() ==> self.frame_ok(i))
        &&& (forall|i: int, j: int|
            0 <= i < j < self.frames.len() && self.frames[i].block is Some ==> self.frames[i].block
                != self.frames[j].block)
    }

    pub open spec fn resident_at(self, i: int, b: BlockId) -> bool {
        0 <= i < self.frames.len() && self.frames[i].block == Some(b)
    }

    pub open spec fn is_resident(self, b: BlockId) -> bool {
        exists|i: int| self.resident_at(i, b)
    }

    /// The frame bound to `b`; well defined because bindings are unique.
    pub open spec fn resident_idx(self, b: BlockId) -> int {
        choose|i: int| self.resident_at(i, b)
    }

    pub open spec fn all_pinned(self) -> bool {
        forall|i: int| 0 <= i < self.frames.len() ==> self.frames[i].pins > 0
    }

    pub open spec fn has_free(self) -> bool {
        exists|i: int| 0 <= i < self.frames.len() && self.frames[i].pins == 0
    }

    /// The first frame at or after `i` with no pins, or the pool length when
    /// every remaining frame is pinned.
    pub open spec fn first_free_from(self, i: int) -> int
        decreases self.frames.len() - i,
    {
        if i >= self.frames.len() {
            self.frames.len() as int
        } else if self.frames[i].pins == 0 {
            i
        } else {
            self.first_free_from(i + 1)
        }
    }

    pub open spec fn first_free(self) -> int {
        self.first_free_from(0)
    }

    /// The store can satisfy a read of `b` into a page of `len` bytes.
    pub open spec fn readable(self, b: BlockId, len: nat) -> bool {
        self.store.contains_key(b) && self.store[b].len() >= len
    }

    /// The store after the eviction write-back of frame `f`: an unbound
    /// frame writes nothing, a bound one persists its page unconditionally.
    pub open spec fn evict_store(self, f: int) -> Map<BlockId, Seq<u8>> {
        match self.frames[f].block {
            Some(ob) => self.store.insert(ob, self.frames[f].page.bytes),
            None => self.store,
        }
    }

    /// What `pin` returns: the bound frame on a hit; otherwise the first
    /// free frame when the store can fill it; otherwise an error.
    pub open spec fn pin_result(self, b: BlockId) -> Result<int, BufMgrErr> {
        if self.is_resident(b) {
            Ok(self.resident_idx(b))
        } else if self.has_free() {
            if self.readable(b, self.frames[self.first_free()].page.bytes.len()) {
                Ok(self.first_free())
            } else {
                Err(BufMgrErr::IoErr)
            }
        } else {
            Err(BufMgrErr::NoPageErr)
        }
    }

    /// The pool state after `pin`.
    pub open spec fn pin_post(self, b: BlockId) -> BufV {
        if self.is_resident(b) {
            let i = self.resident_idx(b);
            BufV {
                frames: self.frames.update(
                    i,
                    FrameV {
                        page: PageV {
                            bytes: self.store[b].take(self.frames[i].page.bytes.len() as int),
                            used: self.frames[i].page.used,
                        },
                        block: Some(b),
                        pins: (self.frames[i].pins + 1) as nat,
                    },
                ),
                store: self.store,
            }
        } else if self.has_free() {
            let f = self.first_free();
            if self.readable(b, self.frames[f].page.bytes.len()) {
                BufV {
                    frames: self.frames.update(
                        f,
                        FrameV {
                            page: PageV {
                                bytes: self.store[b].take(self.frames[f].page.bytes.len() as int),
                                used: self.frames[f].page.used,
                            },
                            block: Some(b),
                            pins: 1nat,
                        },
                    ),
                    store: self.evict_store(f),
                }
            } else {
                // The write-back has happened by the time the read fails;
                // bindings and pins keep their prior, consistent state.
                BufV { frames: self.frames, store: self.evict_store(f) }
            }
        } else {
            self
        }
    }

    /// What `unpin` returns: ok exactly when the block is resident with a
    /// positive pin count.
    pub open spec fn unpin_result(self, b: BlockId) -> Result<(), BufMgrErr> {
        if self.is_resident(b) && self.frames[self.resident_idx(b)].pins > 0 {
            Ok(())
        } else {
            Err(BufMgrErr::UnPinErr)
        }
    }

    /// The pool state after `unpin`: one pin released on success, everything
    /// untouched on failure.
    pub open spec fn unpin_post(self, b: BlockId) -> BufV {
        if self.is_resident(b) && self.frames[self.resident_idx(b)].pins > 0 {
            let i = self.resident_idx(b);
            BufV {
                frames: self.frames.update(
                    i,
                    FrameV {
                        page: self.frames[i].page,
                        block: self.frames[i].block,
                        pins: (self.frames[i].pins - 1) as nat,
                    },
                ),
                store: self.store,
            }
        } else {
            self
        }
    }
}

/// In a well-formed pool the frame bound to a block is unique, so the chosen
/// resident index is the one observed.
proof fn lemma_resident_unique(s: BufV, b: BlockId, i: int)
    requires
        s.wf(),
        s.resident_at(i, b),
    ensures
        s.is_resident(b),
        s.resident_idx(b) == i,
{
    assert(s.is_resident(b));
    let j = s.resident_idx(b);
    assert(s.resident_at(j, b));
    if i < j {
        assert(s.frames[i].block == s.frames[j].block);
        assert(false);
    } else if (j < i) {
        assert(s.frames[j].block == s.frames[i].block);
        assert(false);
    }
}

proof fn lemma_first_free_from_props(s: BufV, i: int)
    requires
        0 <= i <= s.frames.len(),
    ensures
        i <= s.first_free_from(i) <= s.frames.len(),
        s.first_free_from(i) < s.frames.len() ==> s.frames[s.first_free_from(i)].pins == 0,
        forall|j: int| i <= j < s.first_free_from(i) ==> s.frames[j].pins != 0,
    decreases s.frames.len() - i,
{
    if i < s.frames.len() && s.frames[i].pins != 0 {
        lemma_first_free_from_props(s, i + 1);
    }
}

/// The first free frame is exactly the first frame the pool-order scan
/// accepts.
proof fn lemma_first_free_is(s: BufV, f: int)
    requires
        0 <= f < s.frames.len(),
        s.frames[f].pins == 0,
        forall|j: int| 0 <= j < f ==> s.frames[j].pins != 0,
    ensures
        s.first_free() == f,
        s.has_free(),
{
    lemma_first_free_from_props(s, 0);
    let g = s.first_free();
    assert(s.has_free());
    if g < f {
        assert(s.frames[g].pins != 0);
    }
    if f < g {
        assert(s.frames[f].pins != 0);
    }
}

/// The buffer pool: a fixed list of frames in front of a block store, with
/// `pin`/`unpin` as its whole interface to callers.
pub struct BufMgr {
    file_mgr: FileMgr,
    pool_size: usize,
    pool: Vec<Buffer>,
}

impl View for BufMgr {
    type V = BufV;

    closed spec fn view(&self) -> BufV {
        BufV {
            frames: self.pool@.map_values(|b: Buffer| b@),
            store: self.file_mgr@.store,
        }
    }
}

impl BufMgr {
    /// The pool as a whole is well formed.
    pub closed spec fn wf(&self) -> bool {
        &&& self.file_mgr.wf()
        &&& self.pool@.len() == self.pool_size
        &&& self@.wf()
    }

    /// A pool of `pool_size` fresh frames over the given store, each with a
    /// zeroed page of `page_size` bytes, unbound and unpinned.
    pub fn new(file_mgr: FileMgr, pool_size: usize, page_size: usize) -> (r: BufMgr)
        requires
            file_mgr.wf(),
        ensures
            r.wf(),
            r@.store == file_mgr@.store,
            r@.frames.len() == pool_size,
            forall|i: int|
                0 <= i < pool_size ==> r@.frames[i].block is None && r@.frames[i].pins == 0
                    && r@.frames[i].page.bytes.len() == page_size && r@.frames[i].page.used == 0
                    && r@.frames[i].page.is_zeroed(),
    {
        let mut pool: Vec<Buffer> = Vec::new();
        let mut i: usize = 0;
        while i < pool_size
            invariant
                i <= pool_size,
                pool@.len() == i,
                forall|j: int|
                    0 <= j < i ==> pool@[j]@.block is None && pool@[j]@.pins == 0
                        && pool@[j]@.page.bytes.len() == page_size && pool@[j]@.page.wf()
                        && pool@[j]@.page.used == 0 && pool@[j]@.page.is_zeroed(),
            decreases pool_size - i,
        {
            pool.push(Buffer::new(page_size));
            i += 1;
        }
        let r = BufMgr { file_mgr, pool_size, pool };
        proof {
            assert(forall|j: int|
                0 <= j < pool_size ==> r@.frames[j] == r.pool@[j]@ && r@.frame_ok(j));
        }
        r
    }

    /// What the closed well-formedness predicate guarantees of the visible
    /// state: the open view invariant holds, so a caller may rely on frame
    /// pages being well formed, pinned frames being bound, bound blocks
    /// being persisted whole, and at most one frame being bound to a block.
    pub proof fn lemma_view_wf(&self)
        requires
            self.wf(),
        ensures
            self@.wf(),
    {
    }

    pub fn pool_size(&self) -> (r: usize)
        ensures
            r == self@.frames.len(),
    {
        proof {
            assert(self@.frames.len() == self.pool@.len());
        }
        self.pool.len()
    }

    /// The pin count of one frame.
    pub fn pin_count(&self, frame: usize) -> (r: usize)
        requires
            frame < self@.frames.len(),
        ensures
            r == self@.frames[frame as int].pins,
    {
        proof {
            assert(self@.frames.len() == self.pool@.len());
        }
        self.pool[frame].pins
    }

    /// Reads one byte of a frame's page, as `Page::get_byte` does.
    pub fn get_byte(&self, frame: usize, offset: usize) -> (r: Option<u8>)
        requires
            frame < self@.frames.len(),
        ensures
            offset < self@.frames[frame as int].page.bytes.len() ==> r == Some(
                self@.frames[frame as int].page.bytes[offset as int],
            ),
            offset >= self@.frames[frame as int].page.bytes.len() ==> r is None,
    {
        proof {
            assert(self@.frames.len() == self.pool@.len());
        }
        self.pool[frame].page.get_byte(offset)
    }

    /// Writes one byte of a frame's page, as `Page::set_byte` does. The
    /// store itself is untouched until the frame is evicted.
    pub fn set_byte(&mut self, frame: usize, offset: usize, value: u8) -> (r: Option<()>)
        requires
            old(self).wf(),
            frame < old(self)@.frames.len(),
        ensures
            final(self).wf(),
            final(self)@.store == old(self)@.store,
            final(self)@.frames.len() == old(self)@.frames.len(),
            final(self)@.frames[frame as int].block == old(self)@.frames[frame as int].block,
            final(self)@.frames[frame as int].pins == old(self)@.frames[frame as int].pins,
            final(self)@.frames[frame as int].page.used
                == old(self)@.frames[frame as int].page.used,
            forall|j: int|
                0 <= j < old(self)@.frames.len() && j != frame
                    ==> final(self)@.frames[j] == old(self)@.frames[j],
            offset < old(self)@.frames[frame as int].page.bytes.len() ==> r == Some(())
                && final(self)@.frames[frame as int].page.bytes
                == old(self)@.frames[frame as int].page.bytes.update(offset as int, value),
            offset >= old(self)@.frames[frame as int].page.bytes.len() ==> r is None
                && final(self)@ == old(self)@,
    {
        proof {
            assert(self@.frames.len() == self.pool@.len());
        }
        let r = self.pool[frame].page.set_byte(offset, value);
        proof {
            assert(forall|j: int|
                0 <= j < self.pool@.len() && j != frame ==> self@.frames[j] == old(
                    self,
                )@.frames[j]);
            if offset >= old(self)@.frames[frame as int].page.bytes.len() {
                assert(self@.frames =~= old(self)@.frames);
                assert(self@ =~= old(self)@);
            }
            assert forall|j: int| 0 <= j < self@.frames.len() implies self@.frame_ok(j) by {
                assert(old(self)@.frame_ok(j));
            }
        }
        r
    }

    /// Pins `block` into a frame and returns the frame's index.
    ///
    /// A resident block is refreshed from the store and its pin count grows
    /// by one. Otherwise the first unpinned frame is claimed: its previous
    /// page is written back unconditionally, the new block is read in, and
    /// the frame is bound with one pin. With every frame pinned the call
    /// fails at once with `NoPageErr`; with the block unreadable it fails
    /// with `IoErr` after the write-back, frame state untouched.
    pub fn pin(&mut self, block: Block) -> (r: Result<usize, BufMgrErr>)
        requires
            old(self).wf(),
            forall|i: int|
                0 <= i < old(self)@.frames.len() ==> (#[trigger] old(self)@.frames[i]).pins
                    < usize::MAX,
        ensures
            final(self).wf(),
            final(self)@ == old(self)@.pin_post(block@),
            match (r, old(self)@.pin_result(block@)) {
                (Ok(i), Ok(j)) => i as int == j && (i as int) < final(self)@.frames.len(),
                (Err(e1), Err(e2)) => e1 == e2,
                _ => false,
            },
    {
        let n = self.pool_size;
        proof {
            assert(n == self.pool@.len());
        }
        let mut i: usize = 0;
        while i < n
            invariant
                i <= n,
                self == old(self),
                old(self).wf(),
                n == self.pool@.len(),
                forall|k: int|
                    0 <= k < old(self)@.frames.len() ==> (#[trigger] old(self)@.frames[k]).pins
                        < usize::MAX,
                forall|j: int| 0 <= j < i ==> !old(self)@.resident_at(j, block@),
            decreases n - i,
        {
            let hit = match &self.pool[i].block {
                Some(pb) => *pb == block,
                None => false,
            };
            if hit {
                proof {
                    lemma_resident_unique(old(self)@, block@, i as int);
                    assert(old(self)@.frame_ok(i as int));
                    assert(old(self)@.frames[i as int].pins < usize::MAX);
                }
                self.pool[i].pins = self.pool[i].pins + 1;
                proof {
                    assert(self@.frames[i as int].page == old(self)@.frames[i as int].page);
                    assert(self@.frames[i as int].page.wf());
                }
                match self.file_mgr.read(&block, &mut self.pool[i].page) {
                    Ok(_) => {},
                    Err(_) => {
                        // unreachable: a bound block is always readable
                        proof {
                            assert(false);
                        }
                        return Err(BufMgrErr::IoErr);
                    },
                }
                proof {
                    assert(self@.frames =~= old(self)@.pin_post(block@).frames);
                    assert(self@ =~= old(self)@.pin_post(block@));
                    assert forall|j: int| 0 <= j < self@.frames.len() implies self@.frame_ok(
                        j,
                    ) by {
                        assert(old(self)@.frame_ok(j));
                    }
                }
                return Ok(i);
            }
            i += 1;
        }
        proof {
            assert(!old(self)@.is_resident(block@));
        }
        let mut f: usize = 0;
        while f < n
            invariant
                f <= n,
                self == old(self),
                old(self).wf(),
                n == self.pool@.len(),
                !old(self)@.is_resident(block@),
                forall|j: int| 0 <= j < f ==> old(self)@.frames[j].pins != 0,
            decreases n - f,
        {
            if self.pool[f].pins == 0 {
                proof {
                    lemma_first_free_is(old(self)@, f as int);
                    assert(old(self)@.frame_ok(f as int));
                    assert(!old(self)@.resident_at(f as int, block@));
                }
                match &self.pool[f].block {
                    Some(ub) => {
                        proof {
                            assert(old(self)@.frames[f as int].block == Some(ub@));
                            assert(ub@ != block@);
                        }
                        match self.file_mgr.write(ub, &self.pool[f].page) {
                            Ok(_) => {},
                            Err(_) => {
                                // unreachable: the store never rejects a write
                                proof {
                                    assert(false);
                                }
                                return Err(BufMgrErr::IoErr);
                            },
                        }
                    },
                    None => {},
                }
                proof {
                    assert(self@.store == old(self)@.evict_store(f as int));
                    assert(self@.store.contains_key(block@) == old(self)@.store.contains_key(
                        block@,
                    ));
                    assert(self@.store.contains_key(block@) ==> self@.store[block@] == old(
                        self,
                    )@.store[block@]);
                    assert(self@.frames =~= old(self)@.frames);
                    assert(self@.frames[f as int].page.wf());
                }
                match self.file_mgr.read(&block, &mut self.pool[f].page) {
                    Ok(_) => {
                        self.pool[f].block = Some(block);
                        self.pool[f].pins = 1;
                        proof {
                            assert(old(self)@.readable(
                                block@,
                                old(self)@.frames[f as int].page.bytes.len(),
                            ));
                            assert(self@.frames =~= old(self)@.pin_post(block@).frames);
                            assert(self@ =~= old(self)@.pin_post(block@));
                            lemma_wf_after_bind(old(self)@, block@, f as int, self@);
                        }
                        return Ok(f);
                    },
                    Err(_) => {
                        proof {
                            assert(!old(self)@.readable(
                                block@,
                                old(self)@.frames[f as int].page.bytes.len(),
                            ));
                            assert(self@.frames =~= old(self)@.frames);
                            assert(self@ =~= old(self)@.pin_post(block@));
                            lemma_wf_after_failed_read(old(self)@, f as int, self@);
                        }
                        return Err(BufMgrErr::IoErr);
                    },
                }
            }
            f += 1;
        }
        proof {
            assert(!old(self)@.has_free());
            assert(self@ =~= old(self)@.pin_post(block@));
        }
        Err(BufMgrErr::NoPageErr)
    }

    /// Releases one pin on `block`. Fails with `UnPinErr` when the block is
    /// not resident or its pin count is already zero, changing nothing. At
    /// most one frame is ever bound to a block, so the first match is the
    /// only one.
    pub fn unpin(&mut self, block: Block) -> (r: Result<(), BufMgrErr>)
        requires
            old(self).wf(),
        ensures
            final(self).wf(),
            final(self)@ == old(self)@.unpin_post(block@),
            r == old(self)@.unpin_result(block@),
    {
        let n = self.pool_size;
        proof {
            assert(n == self.pool@.len());
        }
        let mut i: usize = 0;
        while i < n
            invariant
                i <= n,
                self == old(self),
                old(self).wf(),
                n == self.pool@.len(),
                forall|j: int| 0 <= j < i ==> !old(self)@.resident_at(j, block@),
            decreases n - i,
        {
            let hit = match &self.pool[i].block {
                Some(pb) => *pb == block,
                None => false,
            };
            if hit {
                proof {
                    lemma_resident_unique(old(self)@, block@, i as int);
                }
                if self.pool[i].pins > 0 {
                    self.pool[i].pins = self.pool[i].pins - 1;
                    proof {
                        assert(self@.frames =~= old(self)@.unpin_post(block@).frames);
                        assert(self@ =~= old(self)@.unpin_post(block@));
                        assert forall|j: int| 0 <= j < self@.frames.len() implies self@.frame_ok(
                            j,
                        ) by {
                            assert(old(self)@.frame_ok(j));
                        }
                    }
                    return Ok(());
                } else {
                    return Err(BufMgrErr::UnPinErr);
                }
            }
            i += 1;
        }
        proof {
            assert(!old(self)@.is_resident(block@));
        }
        Err(BufMgrErr::UnPinErr)
    }
}

/// Law: immediately after a successful pin, the returned frame is bound to
/// the requested block and its page holds exactly the store's persisted
/// bytes for that block at that moment, up to the page's capacity.
pub proof fn lemma_pin_reads_persisted(s: BufV, b: BlockId)
    requires
        s.wf(),
        s.pin_result(b) is Ok,
    ensures
        ({
            let i = s.pin_result(b)->Ok_0;
            let post = s.pin_post(b);
            &&& 0 <= i < post.frames.len()
            &&& post.frames[i].block == Some(b)
            &&& post.store.contains_key(b)
            &&& post.frames[i].page.bytes == post.store[b].take(
                post.frames[i].page.bytes.len() as int,
            )
            &&& post.store[b].len() == post.frames[i].page.bytes.len() ==> post.frames[
                i
            ].page.bytes == post.store[b]
        }),
{
    if s.is_resident(b) {
        let i = s.resident_idx(b);
        assert(s.resident_at(i, b));
        assert(s.frame_ok(i));
        assert(s.store[b].take(s.frames[i].page.bytes.len() as int).len() == s.frames[
            i
        ].page.bytes.len());
    } else {
        assert(s.has_free());
        lemma_first_free_from_props(s, 0);
        let f = s.first_free();
        if f == s.frames.len() {
            let w = choose|i: int| 0 <= i < s.frames.len() && s.frames[i].pins == 0;
            assert(s.frames[w].pins != 0);
        }
        assert(!s.resident_at(f, b));
        match s.frames[f].block {
            Some(ob) => {
                assert(ob != b);
            },
            None => {},
        }
        assert(s.store[b].take(s.frames[f].page.bytes.len() as int).len() == s.frames[
            f
        ].page.bytes.len());
    }
}

/// Law: pinning a resident block increments its pin count by exactly one and
/// changes neither its binding, any other frame, nor the store.
pub proof fn lemma_pin_resident_increments(s: BufV, b: BlockId)
    requires
        s.wf(),
        s.is_resident(b),
    ensures
        ({
            let i = s.resident_idx(b);
            let post = s.pin_post(b);
            &&& s.pin_result(b) == Ok::<int, BufMgrErr>(i)
            &&& post.frames[i].pins == s.frames[i].pins + 1
            &&& post.frames[i].block == s.frames[i].block
            &&& post.store == s.store
            &&& forall|j: int|
                0 <= j < s.frames.len() && j != i ==> post.frames[j] == s.frames[j]
        }),
{
    let i = s.resident_idx(b);
    assert(s.resident_at(i, b));
}

/// Law: unpinning a block held with a positive pin count decrements that
/// count by exactly one and changes nothing else; unpinning a block that is
/// not resident, or whose pin count is zero, fails and changes nothing.
pub proof fn lemma_unpin_decrements(s: BufV, b: BlockId)
    requires
        s.wf(),
    ensures
        s.is_resident(b) && s.frames[s.resident_idx(b)].pins > 0 ==> ({
            let i = s.resident_idx(b);
            let post = s.unpin_post(b);
            &&& s.unpin_result(b) == Ok::<(), BufMgrErr>(())
            &&& post.frames[i].pins == s.frames[i].pins - 1
            &&& post.frames[i].block == s.frames[i].block
            &&& post.store == s.store
            &&& forall|j: int|
                0 <= j < s.frames.len() && j != i ==> post.frames[j] == s.frames[j]
        }),
        !(s.is_resident(b) && s.frames[s.resident_idx(b)].pins > 0) ==> s.unpin_result(b)
            == Err::<(), BufMgrErr>(BufMgrErr::UnPinErr) && s.unpin_post(b) == s,
{
    if s.is_resident(b) {
        let i = s.resident_idx(b);
        assert(s.resident_at(i, b));
    }
}

/// Law: when every frame is pinned, pinning a block that is not resident
/// fails at once with `NoPageErr` and changes nothing.
pub proof fn lemma_pin_exhausted(s: BufV, b: BlockId)
    requires
        s.wf(),
        s.all_pinned(),
        !s.is_resident(b),
    ensures
        s.pin_result(b) == Err::<int, BufMgrErr>(BufMgrErr::NoPageErr),
        s.pin_post(b) == s,
{
    if s.has_free() {
        let w = choose|i: int| 0 <= i < s.frames.len() && s.frames[i].pins == 0;
        assert(s.frames[w].pins > 0);
    }
}

/// Law: after the single holder of a block releases its pin, a pin of a
/// fresh readable block succeeds by reusing exactly the freed frame — the
/// first unpinned frame in pool order — writing the frame's previous
/// contents back to the store first.
pub proof fn lemma_unpin_then_pin_reuses_frame(s: BufV, c: BlockId, b: BlockId, j: int)
    requires
        s.wf(),
        s.resident_at(j, c),
        s.frames[j].pins == 1,
        forall|i: int| 0 <= i < s.frames.len() && i != j ==> (#[trigger] s.frames[i]).pins > 0,
        !s.is_resident(b),
        s.readable(b, s.frames[j].page.bytes.len()),
    ensures
        ({
            let s1 = s.unpin_post(c);
            let post = s1.pin_post(b);
            &&& s.unpin_result(c) == Ok::<(), BufMgrErr>(())
            &&& s1.pin_result(b) == Ok::<int, BufMgrErr>(j)
            &&& post.store == s.store.insert(c, s.frames[j].page.bytes)
            &&& post.frames[j].block == Some(b)
            &&& post.frames[j].pins == 1
        }),
{
    lemma_resident_unique(s, c, j);
    let s1 = s.unpin_post(c);
    assert(s1.frames[j].pins == 0);
    assert(forall|i: int|
        0 <= i < s1.frames.len() ==> (#[trigger] s1.frames[i]).block == s.frames[i].block);
    assert forall|i: int| !s1.resident_at(i, b) by {
        if 0 <= i < s1.frames.len() {
            assert(!s.resident_at(i, b));
        }
    }
    lemma_first_free_is(s1, j);
    assert(s1.frames[j].block == Some(c));
    assert(s1.readable(b, s1.frames[j].page.bytes.len()));
    assert(s1.pin_post(b).store == s1.evict_store(j));
    assert(s1.evict_store(j) == s.store.insert(c, s.frames[j].page.bytes));
}

/// After binding frame `f` to a freshly read block, the pool is still well
/// formed: the write-back put the evicted block in the store whole, and no
/// other frame shares the new binding.
proof fn lemma_wf_after_bind(pre: BufV, b: BlockId, f: int, post: BufV)
    requires
        pre.wf(),
        0 <= f < pre.frames.len(),
        pre.frames[f].pins == 0,
        !pre.is_resident(b),
        pre.readable(b, pre.frames[f].page.bytes.len()),
        post.store == pre.evict_store(f),
        post.frames == pre.frames.update(
            f,
            FrameV {
                page: PageV {
                    bytes: pre.store[b].take(pre.frames[f].page.bytes.len() as int),
                    used: pre.frames[f].page.used,
                },
                block: Some(b),
                pins: 1nat,
            },
        ),
    ensures
        post.wf(),
{
    assert forall|i: int| 0 <= i < post.frames.len() implies post.frame_ok(i) by {
        assert(pre.frame_ok(i));
        if i != f {
            match (post.frames[i].block, pre.frames[f].block) {
                (Some(c), Some(ob)) => {
                    assert(pre.frames[i].block == Some(c));
                    if i < f {
                        assert(pre.frames[i].block != pre.frames[f].block);
                    } else {
                        assert(pre.frames[f].block != pre.frames[i].block);
                    }
                    assert(c != ob);
                },
                _ => {},
            }
        } else {
            assert(pre.frame_ok(f));
            match pre.frames[f].block {
                Some(ob) => {
                    assert(!pre.resident_at(f, b));
                    assert(ob != b);
                },
                None => {},
            }
        }
    }
    assert forall|i: int, j: int|
        0 <= i < j < post.frames.len() && post.frames[i].block is Some implies post.frames[i].block
        != post.frames[j].block by {
        if i != f && j != f {
            assert(pre.frames[i].block == post.frames[i].block);
        } else if i == f {
            assert(!pre.resident_at(j, b));
        } else {
            assert(!pre.resident_at(i, b));
        }
    }
}

/// After a failed read into a freed frame, only the write-back has happened:
/// the pool keeps its prior, consistent bindings.
proof fn lemma_wf_after_failed_read(pre: BufV, f: int, post: BufV)
    requires
        pre.wf(),
        0 <= f < pre.frames.len(),
        post.store == pre.evict_store(f),
        post.frames == pre.frames,
    ensures
        post.wf(),
{
    assert forall|i: int| 0 <= i < post.frames.len() implies post.frame_ok(i) by {
        assert(pre.frame_ok(i));
        match (post.frames[i].block, pre.frames[f].block) {
            (Some(c), Some(ob)) => {
                if i != f {
                    if i < f {
                        assert(pre.frames[i].block != pre.frames[f].block);
                    } else {
                        assert(pre.frames[f].block != pre.frames[i].block);
                    }
                    assert(c != ob);
                } else {
                    assert(pre.frame_ok(f));
                }
            },
            _ => {},
        }
    }
}

} // verus!
