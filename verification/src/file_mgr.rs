//! Blocks, pages, and the block store they live in.
//!
//! A `Block` names one fixed-size unit of a named file; a `Page` is the
//! in-memory buffer matching one block, with an append cursor; a `FileMgr`
//! is the block store itself, modelled as a map from block identity to the
//! bytes last written there.

use vstd::prelude::*;

verus! {

/// Identifies one fixed-size unit of a named file by index. Purely an
/// address: it carries no ownership of the bytes it names.
#[derive(Debug, Clone)]
pub struct Block {
    filename: String,
    id: u64,
}

/// The mathematical identity of a `Block`: the file's characters and the
/// block index within that file.
#[verifier::ext_equal]
pub struct BlockId {
    pub name: Seq<char>,
    pub id: u64,
}

impl View for Block {
    type V = BlockId;

    closed spec fn view(&self) -> BlockId {
        BlockId { name: self.filename@, id: self.id }
    }
}

impl Block {
    pub fn new(filename: String, id: u64) -> (r: Block)
        ensures
            r@ == (BlockId { name: filename@, id: id }),
    {
        Block { filename, id }
    }

    pub fn id(&self) -> (r: u64)
        ensures
            r == self@.id,
    {
        self.id
    }

    pub fn filename(&self) -> (r: &String)
        ensures
            r@ == self@.name,
    {
        &self.filename
    }
}

impl PartialEq for Block {
    fn eq(&self, other: &Block) -> (r: bool) {
        self.id == other.id && self.filename == other.filename
    }
}

impl vstd::std_specs::cmp::PartialEqSpecImpl for Block {
    open spec fn obeys_eq_spec() -> bool {
        true
    }

    open spec fn eq_spec(&self, other: &Block) -> bool {
        self@ == other@
    }
}

/// The state of a `Page`: its bytes and how far the append cursor has moved.
#[verifier::ext_equal]
pub struct PageV {
    pub bytes: Seq<u8>,
    pub used: nat,
}

impl PageV {
    /// The append cursor never runs past the end of the buffer.
    pub open spec fn wf(self) -> bool {
        self.used <= self.bytes.len()
    }

    pub open spec fn capacity(self) -> nat {
        self.bytes.len()
    }

    /// Bytes the append cursor has not yet consumed.
    pub open spec fn avail(self) -> nat {
        (self.bytes.len() - self.used) as nat
    }

    pub open spec fn is_zeroed(self) -> bool {
        forall|i: int| 0 <= i < self.bytes.len() ==> self.bytes[i] == 0u8
    }
}

/// A fixed-capacity mutable byte buffer with offset-based accessors and an
/// append cursor. Exclusively owned by whichever component holds it.
pub struct Page {
    content: Vec<u8>,
    used: usize,
}

impl View for Page {
    type V = PageV;

    closed spec fn view(&self) -> PageV {
        PageV { bytes: self.content@, used: self.used as nat }
    }
}

impl Page {
    /// A zero-filled buffer with the cursor at the start.
    pub fn new(size: usize) -> (r: Page)
        ensures
            r@.wf(),
            r@.used == 0,
            r@.bytes.len() == size,
            r@.is_zeroed(),
    {
        Page { content: vec![0u8; size], used: 0 }
    }

    pub fn size(&self) -> (r: usize)
        ensures
            r == self@.bytes.len(),
    {
        self.content.len()
    }

    /// Bounds-checked single-byte read: out of range yields no value.
    pub fn get_byte(&self, offset: usize) -> (r: Option<u8>)
        ensures
            offset < self@.bytes.len() ==> r == Some(self@.bytes[offset as int]),
            offset >= self@.bytes.len() ==> r is None,
    {
        if offset < self.content.len() {
            Some(self.content[offset])
        } else {
            None
        }
    }

    /// Bounds-checked single-byte write: out of range has no effect, and a
    /// byte is written whole or not at all.
    pub fn set_byte(&mut self, offset: usize, value: u8) -> (r: Option<()>)
        ensures
            final(self)@.used == old(self)@.used,
            offset < old(self)@.bytes.len() ==> r == Some(()) && final(self)@.bytes
                == old(self)@.bytes.update(offset as int, value),
            offset >= old(self)@.bytes.len() ==> r is None && final(self)@ == old(self)@,
    {
        if offset < self.content.len() {
            self.content[offset] = value;
            Some(())
        } else {
            None
        }
    }

    /// Fixed-width little-endian read of a scalar. A short read is an error,
    /// never a partial or garbage value.
    pub fn get_u32(&self, offset: usize) -> (r: Option<u32>)
        ensures
            offset + 4 <= self@.bytes.len() ==> r == Some(
                vstd::bytes::spec_u32_from_le_bytes(
                    self@.bytes.subrange(offset as int, offset + 4),
                ),
            ),
            offset + 4 > self@.bytes.len() ==> r is None,
    {
        if offset < self.content.len() && self.content.len() - offset >= 4 {
            let s = vstd::slice::slice_subrange(self.content.as_slice(), offset, offset + 4);
            Some(vstd::bytes::u32_from_le_bytes(s))
        } else {
            None
        }
    }

    /// Fixed-width little-endian write of a scalar: all four bytes are
    /// written, or none when they would not fit.
    pub fn set_u32(&mut self, offset: usize, value: u32) -> (r: Option<()>)
        ensures
            final(self)@.used == old(self)@.used,
            final(self)@.bytes.len() == old(self)@.bytes.len(),
            offset + 4 <= old(self)@.bytes.len() ==> r == Some(()) && final(self)@.bytes
                == old(self)@.bytes.take(offset as int)
                    + vstd::bytes::spec_u32_to_le_bytes(value)
                    + old(self)@.bytes.skip(offset + 4),
            offset + 4 > old(self)@.bytes.len() ==> r is None && final(self)@ == old(self)@,
    {
        if offset < self.content.len() && self.content.len() - offset >= 4 {
            let data = vstd::bytes::u32_to_le_bytes(value);
            let mut i: usize = 0;
            while i < 4
                invariant
                    i <= 4,
                    offset + 4 <= self@.bytes.len(),
                    self@.bytes.len() <= usize::MAX,
                    data@ == vstd::bytes::spec_u32_to_le_bytes(value),
                    data@.len() == 4,
                    self@.used == old(self)@.used,
                    self@.bytes.len() == old(self)@.bytes.len(),
                    forall|j: int| 0 <= j < offset ==> self@.bytes[j] == old(self)@.bytes[j],
                    forall|j: int| 0 <= j < i ==> self@.bytes[offset + j] == data@[j],
                    forall|j: int|
                        offset + 4 <= j < self@.bytes.len() ==> self@.bytes[j] == old(
                            self,
                        )@.bytes[j],
                decreases 4 - i,
            {
                self.content[offset + i] = data[i];
                i += 1;
            }
            proof {
                assert(self@.bytes =~= old(self)@.bytes.take(offset as int)
                    + vstd::bytes::spec_u32_to_le_bytes(value) + old(self)@.bytes.skip(
                    offset + 4,
                ));
            }
            Some(())
        } else {
            None
        }
    }

    /// Writes a length-prefixed byte string: an eight-byte little-endian
    /// length header followed by the raw bytes. Text is stored as its raw
    /// bytes. All or nothing: when the header and the data would not fit
    /// whole, nothing is written.
    pub fn set_blob(&mut self, offset: usize, data: &Vec<u8>) -> (r: Option<()>)
        ensures
            final(self)@.used == old(self)@.used,
            final(self)@.bytes.len() == old(self)@.bytes.len(),
            offset + 8 + data@.len() <= old(self)@.bytes.len() ==> r == Some(())
                && final(self)@.bytes == old(self)@.bytes.take(offset as int)
                + vstd::bytes::spec_u64_to_le_bytes(data@.len() as u64) + data@
                + old(self)@.bytes.skip(offset + 8 + data@.len()),
            offset + 8 + data@.len() > old(self)@.bytes.len() ==> r is None
                && final(self)@ == old(self)@,
    {
        let len = self.content.len();
        if offset >= len || len - offset < 8 || len - offset - 8 < data.len() {
            return None;
        }
        let header = vstd::bytes::u64_to_le_bytes(data.len() as u64);
        let mut i: usize = 0;
        while i < 8
            invariant
                i <= 8,
                offset + 8 + data@.len() <= self@.bytes.len(),
                self@.bytes.len() <= usize::MAX,
                header@ == vstd::bytes::spec_u64_to_le_bytes(data@.len() as u64),
                header@.len() == 8,
                self@.used == old(self)@.used,
                self@.bytes.len() == old(self)@.bytes.len(),
                forall|j: int| 0 <= j < offset ==> self@.bytes[j] == old(self)@.bytes[j],
                forall|j: int| 0 <= j < i ==> self@.bytes[offset + j] == header@[j],
                forall|j: int|
                    offset + 8 <= j < self@.bytes.len() ==> self@.bytes[j] == old(self)@.bytes[j],
            decreases 8 - i,
        {
            self.content[offset + i] = header[i];
            i += 1;
        }
        let n = data.len();
        let mut k: usize = 0;
        while k < n
            invariant
                k <= n,
                n == data@.len(),
                offset + 8 + n <= self@.bytes.len(),
                self@.bytes.len() <= usize::MAX,
                header@ == vstd::bytes::spec_u64_to_le_bytes(data@.len() as u64),
                self@.used == old(self)@.used,
                self@.bytes.len() == old(self)@.bytes.len(),
                forall|j: int| 0 <= j < offset ==> self@.bytes[j] == old(self)@.bytes[j],
                forall|j: int| 0 <= j < 8 ==> self@.bytes[offset + j] == header@[j],
                forall|j: int| 0 <= j < k ==> self@.bytes[offset + 8 + j] == data@[j],
                forall|j: int|
                    offset + 8 + n <= j < self@.bytes.len() ==> self@.bytes[j] == old(
                        self,
                    )@.bytes[j],
            decreases n - k,
        {
            self.content[offset + 8 + k] = data[k];
            k += 1;
        }
        proof {
            assert(self@.bytes =~= old(self)@.bytes.take(offset as int)
                + vstd::bytes::spec_u64_to_le_bytes(data@.len() as u64) + data@ + old(
                self,
            )@.bytes.skip(offset + 8 + data@.len()));
        }
        Some(())
    }

    /// Reads back a length-prefixed byte string written by `set_blob`.
    /// Fails cleanly when the header, or the span the header declares, is
    /// not fully inside the buffer — never a partial or garbage value.
    pub fn get_blob(&self, offset: usize) -> (r: Option<Vec<u8>>)
        ensures
            ({
                let header_end = offset + 8;
                let n = vstd::bytes::spec_u64_from_le_bytes(
                    self@.bytes.subrange(offset as int, offset + 8),
                ) as int;
                if header_end <= self@.bytes.len() && header_end + n <= self@.bytes.len() {
                    r matches Some(v) && v@ == self@.bytes.subrange(header_end, header_end + n)
                } else {
                    r is None
                }
            }),
    {
        let len = self.content.len();
        if offset >= len || len - offset < 8 {
            return None;
        }
        let header = vstd::slice::slice_subrange(self.content.as_slice(), offset, offset + 8);
        let n64 = vstd::bytes::u64_from_le_bytes(header);
        if n64 > (len - offset - 8) as u64 {
            return None;
        }
        let n = n64 as usize;
        let mut out: Vec<u8> = Vec::new();
        let mut k: usize = 0;
        while k < n
            invariant
                k <= n,
                offset + 8 + n <= self@.bytes.len(),
                self@.bytes.len() <= usize::MAX,
                out@ == self@.bytes.subrange(offset + 8, offset + 8 + k),
            decreases n - k,
        {
            out.push(self.content[offset + 8 + k]);
            k += 1;
            proof {
                assert(out@ =~= self@.bytes.subrange(offset + 8, offset + 8 + k));
            }
        }
        Some(out)
    }

    /// Appends bytes at the cursor. When `data` does not fit whole, as many
    /// bytes as fit are appended and the count actually written is returned;
    /// callers treat a short count as "page full".
    pub fn append(&mut self, data: &Vec<u8>) -> (n: usize)
        requires
            old(self)@.wf(),
        ensures
            final(self)@.wf(),
            n == if data@.len() <= old(self)@.avail() {
                data@.len() as int
            } else {
                old(self)@.avail() as int
            },
            final(self)@.used == old(self)@.used + n,
            final(self)@.bytes == old(self)@.bytes.take(old(self)@.used as int)
                + data@.take(n as int) + old(self)@.bytes.skip(old(self)@.used + n),
    {
        let avail = self.content.len() - self.used;
        let n = if data.len() <= avail {
            data.len()
        } else {
            avail
        };
        let mut i: usize = 0;
        while i < n
            invariant
                i <= n,
                old(self)@.used + n <= self@.bytes.len(),
                self@.bytes.len() <= usize::MAX,
                n <= data@.len(),
                self@.used == old(self)@.used,
                self@.bytes.len() == old(self)@.bytes.len(),
                forall|j: int| 0 <= j < old(self)@.used ==> self@.bytes[j] == old(self)@.bytes[j],
                forall|j: int| 0 <= j < i ==> self@.bytes[old(self)@.used + j] == data@[j],
                forall|j: int|
                    old(self)@.used + n <= j < self@.bytes.len() ==> self@.bytes[j] == old(
                        self,
                    )@.bytes[j],
            decreases n - i,
        {
            self.content[self.used + i] = data[i];
            i += 1;
        }
        self.used = self.used + n;
        proof {
            assert(self@.bytes =~= old(self)@.bytes.take(old(self)@.used as int) + data@.take(
                n as int,
            ) + old(self)@.bytes.skip(old(self)@.used + n));
        }
        n
    }

    /// Appends a single byte at the cursor; returns how many bytes were
    /// written: 1, or 0 when the page is full.
    pub fn add(&mut self, data: u8) -> (n: usize)
        requires
            old(self)@.wf(),
        ensures
            final(self)@.wf(),
            n == if old(self)@.avail() > 0 {
                1int
            } else {
                0int
            },
            final(self)@.used == old(self)@.used + n,
            final(self)@.bytes == if old(self)@.avail() > 0 {
                old(self)@.bytes.update(old(self)@.used as int, data)
            } else {
                old(self)@.bytes
            },
    {
        if self.used < self.content.len() {
            self.content[self.used] = data;
            self.used = self.used + 1;
            1
        } else {
            0
        }
    }

    /// Capacity not yet consumed by the append cursor.
    pub fn avail_space(&self) -> (r: usize)
        requires
            self@.wf(),
        ensures
            r == self@.avail(),
    {
        self.content.len() - self.used
    }

    /// Zeroes every byte and resets the cursor. Purely an in-memory reset:
    /// it says nothing about persistence.
    pub fn flush(&mut self)
        ensures
            final(self)@.wf(),
            final(self)@.bytes.len() == old(self)@.bytes.len(),
            final(self)@.is_zeroed(),
            final(self)@.used == 0,
    {
        let n = self.content.len();
        let mut i: usize = 0;
        while i < n
            invariant
                i <= n,
                n == self@.bytes.len(),
                forall|j: int| 0 <= j < i ==> self@.bytes[j] == 0u8,
            decreases n - i,
        {
            self.content[i] = 0;
            i += 1;
        }
        self.used = 0;
    }
}

/// Law: a length-prefixed byte string written by `set_blob` is decoded back
/// unchanged by `get_blob` at the same offset — the header always declares
/// exactly the span that was written.
pub proof fn lemma_blob_round_trip(pre: PageV, post: PageV, offset: int, data: Seq<u8>)
    requires
        0 <= offset,
        offset + 8 + data.len() <= pre.bytes.len(),
        data.len() <= usize::MAX,
        post.bytes == pre.bytes.take(offset) + vstd::bytes::spec_u64_to_le_bytes(
            data.len() as u64,
        ) + data + pre.bytes.skip(offset + 8 + data.len()),
    ensures
        post.bytes.subrange(offset, offset + 8) == vstd::bytes::spec_u64_to_le_bytes(
            data.len() as u64,
        ),
        vstd::bytes::spec_u64_from_le_bytes(post.bytes.subrange(offset, offset + 8))
            == data.len(),
        post.bytes.subrange(offset + 8, offset + 8 + data.len()) == data,
{
    vstd::bytes::lemma_auto_spec_u64_to_from_le_bytes();
    assert(post.bytes.subrange(offset, offset + 8) =~= vstd::bytes::spec_u64_to_le_bytes(
        data.len() as u64,
    ));
    assert(post.bytes.subrange(offset + 8, offset + 8 + data.len()) =~= data);
}

/// A backend read that could not be satisfied.
#[derive(Debug, PartialEq, Eq)]
pub enum IoError {
    /// No block has ever been written at this address.
    BlockMissing,
    /// The stored block holds fewer bytes than the destination page.
    ShortBlock,
}

/// The state of the block store: its directory name, its configured block
/// size, and the bytes persisted at each block address.
#[verifier::ext_equal]
pub struct FileMgrV {
    pub dir: Seq<char>,
    pub block_size: nat,
    pub store: Map<BlockId, Seq<u8>>,
}

/// The map a sequence of `(block, bytes)` entries denotes: later entries win,
/// though the store keeps block identities distinct so the question never
/// arises.
spec fn store_map(entries: Seq<(Block, Vec<u8>)>) -> Map<BlockId, Seq<u8>>
    decreases entries.len(),
{
    if entries.len() == 0 {
        Map::empty()
    } else {
        store_map(entries.drop_last()).insert(entries.last().0@, entries.last().1@)
    }
}

spec fn keys_distinct(entries: Seq<(Block, Vec<u8>)>) -> bool {
    forall|i: int, j: int| 0 <= i < j < entries.len() ==> entries[i].0@ != entries[j].0@
}

proof fn lemma_store_map_contains(entries: Seq<(Block, Vec<u8>)>, k: BlockId)
    ensures
        store_map(entries).contains_key(k) <==> exists|i: int|
            0 <= i < entries.len() && entries[i].0@ == k,
    decreases entries.len(),
{
    if entries.len() > 0 {
        lemma_store_map_contains(entries.drop_last(), k);
        if entries.last().0@ != k {
            if exists|i: int| 0 <= i < entries.len() && entries[i].0@ == k {
                let i = choose|i: int| 0 <= i < entries.len() && entries[i].0@ == k;
                if i < entries.len() - 1 {
                    assert(entries.drop_last()[i].0@ == k);
                }
            }
        }
    }
}

proof fn lemma_store_map_get(entries: Seq<(Block, Vec<u8>)>, i: int)
    requires
        keys_distinct(entries),
        0 <= i < entries.len(),
    ensures
        store_map(entries).contains_key(entries[i].0@),
        store_map(entries)[entries[i].0@] == entries[i].1@,
    decreases entries.len(),
{
    if i < entries.len() - 1 {
        assert(keys_distinct(entries.drop_last())) by {
            assert(forall|p: int, q: int|
                0 <= p < q < entries.len() - 1 ==> entries.drop_last()[p].0@
                    != entries.drop_last()[q].0@);
        }
        lemma_store_map_get(entries.drop_last(), i);
        assert(entries[i].0@ != entries.last().0@);
    }
}

proof fn lemma_store_map_update(entries: Seq<(Block, Vec<u8>)>, i: int, b: Block, v: Vec<u8>)
    requires
        keys_distinct(entries),
        0 <= i < entries.len(),
        b@ == entries[i].0@,
    ensures
        store_map(entries.update(i, (b, v))) == store_map(entries).insert(b@, v@),
    decreases entries.len(),
{
    let upd = entries.update(i, (b, v));
    if i == entries.len() - 1 {
        assert(upd.drop_last() =~= entries.drop_last());
        assert(store_map(upd) == store_map(entries.drop_last()).insert(b@, v@));
        assert(store_map(entries.drop_last()).insert(entries.last().0@, entries.last().1@).insert(
            b@,
            v@,
        ) =~= store_map(entries.drop_last()).insert(b@, v@));
    } else {
        assert(keys_distinct(entries.drop_last())) by {
            assert(forall|p: int, q: int|
                0 <= p < q < entries.len() - 1 ==> entries.drop_last()[p].0@
                    != entries.drop_last()[q].0@);
        }
        lemma_store_map_update(entries.drop_last(), i, b, v);
        assert(upd.drop_last() =~= entries.drop_last().update(i, (b, v)));
        assert(upd.last() == entries.last());
        assert(entries.last().0@ != b@);
        assert(store_map(entries.drop_last()).insert(b@, v@).insert(
            entries.last().0@,
            entries.last().1@,
        ) =~= store_map(entries.drop_last()).insert(entries.last().0@, entries.last().1@).insert(
            b@,
            v@,
        ));
    }
}

proof fn lemma_store_map_push(entries: Seq<(Block, Vec<u8>)>, b: Block, v: Vec<u8>)
    ensures
        store_map(entries.push((b, v))) == store_map(entries).insert(b@, v@),
{
    assert(entries.push((b, v)).drop_last() =~= entries);
}

/// The block store: a verified in-memory stand-in for the disk backend,
/// addressed exactly as the backend is, by named file and block index.
pub struct FileMgr {
    dir: String,
    block_size: usize,
    blocks: Vec<(Block, Vec<u8>)>,
}

impl View for FileMgr {
    type V = FileMgrV;

    closed spec fn view(&self) -> FileMgrV {
        FileMgrV {
            dir: self.dir@,
            block_size: self.block_size as nat,
            store: store_map(self.blocks@),
        }
    }
}

impl FileMgr {
    /// Every block address appears at most once in the backing entries.
    pub closed spec fn wf(&self) -> bool {
        keys_distinct(self.blocks@)
    }

    /// An empty store for the given directory and block size.
    pub fn new(dir: String, block_size: usize) -> (r: FileMgr)
        ensures
            r.wf(),
            r@.dir == dir@,
            r@.block_size == block_size,
            r@.store == Map::<BlockId, Seq<u8>>::empty(),
    {
        FileMgr { dir, block_size, blocks: Vec::new() }
    }

    pub fn pwd(&self) -> (r: String)
        ensures
            r@ == self@.dir,
    {
        self.dir.clone()
    }

    pub fn block_size(&self) -> (r: usize)
        ensures
            r == self@.block_size,
    {
        self.block_size
    }

    /// Fills `page` from the bytes persisted for `block`. The page receives
    /// exactly its own capacity in bytes; a missing or short block is an
    /// error that leaves the page untouched.
    pub fn read(&self, block: &Block, page: &mut Page) -> (r: Result<(), IoError>)
        requires
            self.wf(),
            old(page)@.wf(),
        ensures
            final(page)@.wf(),
            final(page)@.used == old(page)@.used,
            final(page)@.bytes.len() == old(page)@.bytes.len(),
            self@.store.contains_key(block@) && self@.store[block@].len() >= old(
                page,
            )@.bytes.len() ==> r == Ok::<(), IoError>(()) && final(page)@.bytes
                == self@.store[block@].take(old(page)@.bytes.len() as int),
            !self@.store.contains_key(block@) ==> r == Err::<(), IoError>(IoError::BlockMissing)
                && final(page)@ == old(page)@,
            self@.store.contains_key(block@) && self@.store[block@].len() < old(
                page,
            )@.bytes.len() ==> r == Err::<(), IoError>(IoError::ShortBlock) && final(page)@ == old(
                page,
            )@,
    {
        let n = self.blocks.len();
        let mut i: usize = 0;
        while i < n
            invariant
                i <= n,
                n == self.blocks@.len(),
                self.wf(),
                page == old(page),
                old(page)@.wf(),
                forall|j: int| 0 <= j < i ==> self.blocks@[j].0@ != block@,
            decreases n - i,
        {
            if self.blocks[i].0 == *block {
                proof {
                    lemma_store_map_get(self.blocks@, i as int);
                }
                let stored = &self.blocks[i].1;
                if stored.len() < page.content.len() {
                    return Err(IoError::ShortBlock);
                }
                let len = page.content.len();
                let mut k: usize = 0;
                while k < len
                    invariant
                        k <= len,
                        len == page@.bytes.len(),
                        page@.bytes.len() <= usize::MAX,
                        i < self.blocks@.len(),
                        self.blocks@[i as int].1@.len() >= len,
                        stored == &self.blocks[i as int].1,
                        page@.used == old(page)@.used,
                        forall|j: int| 0 <= j < k ==> page@.bytes[j] == self.blocks@[i as int].1@[j],
                    decreases len - k,
                {
                    page.content[k] = stored[k];
                    k += 1;
                }
                proof {
                    assert(page@.bytes =~= self@.store[block@].take(old(page)@.bytes.len() as int));
                }
                return Ok(());
            }
            i += 1;
        }
        proof {
            lemma_store_map_contains(self.blocks@, block@);
        }
        Err(IoError::BlockMissing)
    }

    /// The exact bytes persisted for `block`, or nothing when the block was
    /// never written.
    pub fn get_block(&self, block: &Block) -> (r: Option<Vec<u8>>)
        requires
            self.wf(),
        ensures
            self@.store.contains_key(block@) ==> (r matches Some(v) && v@ == self@.store[block@]),
            !self@.store.contains_key(block@) ==> r is None,
    {
        let n = self.blocks.len();
        let mut i: usize = 0;
        while i < n
            invariant
                i <= n,
                n == self.blocks@.len(),
                self.wf(),
                forall|j: int| 0 <= j < i ==> self.blocks@[j].0@ != block@,
            decreases n - i,
        {
            if self.blocks[i].0 == *block {
                proof {
                    lemma_store_map_get(self.blocks@, i as int);
                }
                let stored = &self.blocks[i].1;
                let len = stored.len();
                let mut out: Vec<u8> = Vec::new();
                let mut k: usize = 0;
                while k < len
                    invariant
                        k <= len,
                        i < self.blocks@.len(),
                        len == self.blocks@[i as int].1@.len(),
                        stored == &self.blocks[i as int].1,
                        out@ == self.blocks@[i as int].1@.take(k as int),
                    decreases len - k,
                {
                    out.push(stored[k]);
                    k += 1;
                    proof {
                        assert(out@ =~= self.blocks@[i as int].1@.take(k as int));
                    }
                }
                proof {
                    assert(out@ =~= self.blocks@[i as int].1@);
                }
                return Some(out);
            }
            i += 1;
        }
        proof {
            lemma_store_map_contains(self.blocks@, block@);
        }
        None
    }

    /// Persists `page`'s bytes at `block`, creating the block or replacing
    /// what was there. The store never rejects a write.
    pub fn write(&mut self, block: &Block, page: &Page) -> (r: Result<(), IoError>)
        requires
            old(self).wf(),
        ensures
            final(self).wf(),
            r == Ok::<(), IoError>(()),
            final(self)@.store == old(self)@.store.insert(block@, page@.bytes),
            final(self)@.dir == old(self)@.dir,
            final(self)@.block_size == old(self)@.block_size,
    {
        let mut data: Vec<u8> = Vec::new();
        let len = page.content.len();
        let mut k: usize = 0;
        while k < len
            invariant
                k <= len,
                len == page@.bytes.len(),
                page@.bytes.len() <= usize::MAX,
                data@ == page@.bytes.take(k as int),
            decreases len - k,
        {
            data.push(page.content[k]);
            k += 1;
            proof {
                assert(data@ =~= page@.bytes.take(k as int));
            }
        }
        proof {
            assert(data@ =~= page@.bytes);
        }
        let n = self.blocks.len();
        let mut i: usize = 0;
        while i < n
            invariant
                i <= n,
                n == self.blocks@.len(),
                self.wf(),
                self == old(self),
                data@ == page@.bytes,
                forall|j: int| 0 <= j < i ==> self.blocks@[j].0@ != block@,
            decreases n - i,
        {
            if self.blocks[i].0 == *block {
                let owned = Block { filename: block.filename.clone(), id: block.id };
                proof {
                    lemma_store_map_update(self.blocks@, i as int, owned, data);
                }
                self.blocks[i] = (owned, data);
                proof {
                    assert(keys_distinct(self.blocks@));
                }
                return Ok(());
            }
            i += 1;
        }
        let owned = Block { filename: block.filename.clone(), id: block.id };
        proof {
            lemma_store_map_push(self.blocks@, owned, data);
            lemma_store_map_contains(self.blocks@, block@);
        }
        self.blocks.push((owned, data));
        proof {
            assert(keys_distinct(self.blocks@));
        }
        Ok(())
    }
}

} // verus!
