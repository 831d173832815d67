//! The log-structured volume layout: every write appends, per logical
//! block it touches, a 16-byte header and the block's bytes to a log, and
//! the logical-to-physical map sends the block to its latest copy. Reads
//! follow the map, and blocks never written read as zeros. After a crash
//! the map is rebuilt by reading the headers from the last checkpoint on.

use std::collections::HashMap;
use vstd::prelude::*;
use crate::wire::{push_u32_le, push_u64_le, read_u32_le, read_u64_le, u32_le, u64_le};

verus! {

broadcast use vstd::std_specs::hash::group_hash_axioms;

/// Bytes of a block header in the log.
pub const HEADER_SIZE: u64 = 16;

/// Logical block size unless chosen otherwise.
pub const DEFAULT_BLOCK_SIZE: u64 = 4096;

/// The four bytes that open every header: `MGMA`.
pub open spec fn magic() -> Seq<u8> {
    seq![0x4Du8, 0x47u8, 0x4Du8, 0x41u8]
}

/// What precedes each block's bytes in the log: the logical block and the
/// number of bytes that follow.
#[derive(Clone, Copy, Debug, PartialEq, Eq, Structural)]
pub struct BlockHeader {
    pub lba: u64,
    pub len: u32,
}

/// A header on the wire: the magic, the block (eight bytes, little-endian)
/// and the length (four bytes, little-endian).
pub open spec fn header_bytes(h: BlockHeader) -> Seq<u8> {
    magic() + u64_le(h.lba) + u32_le(h.len)
}

/// The header at the start of `b`, if `b` opens with one.
pub open spec fn header_at(b: Seq<u8>) -> Option<BlockHeader> {
    if b.len() < 16 || b.subrange(0, 4) != magic() {
        None
    } else {
        Some(choose|h: BlockHeader| header_bytes(h) == b.subrange(0, 16))
    }
}

/// Why the log or its map refuses an operation.
#[derive(Clone, Copy, Debug, PartialEq, Eq, Structural)]
pub enum MagmaError {
    /// Fewer than 16 bytes where a header was expected.
    BufferTooSmall,
    /// The bytes do not open with the magic.
    InvalidMagic,
    /// The range does not lie within the volume.
    OutOfBounds { offset: u64, len: u64, size: u64 },
    /// The log cannot grow by that much.
    LogFull,
    /// A checkpoint of another volume.
    CheckpointVolumeMismatch,
    /// A checkpoint made with another block size.
    CheckpointBlockSizeMismatch { expected: u64, got: u64 },
    /// The volume was opened with another size.
    SizeMismatch { expected: u64, got: u64 },
}

proof fn lemma_u32_le_injective(a: u32, b: u32)
    requires
        u32_le(a) == u32_le(b),
    ensures
        a == b,
{
    assert(u32_le(a)[0] == u32_le(b)[0] && u32_le(a)[1] == u32_le(b)[1]);
    assert(u32_le(a)[2] == u32_le(b)[2] && u32_le(a)[3] == u32_le(b)[3]);
    lemma_u32_bytes_injective(a, b);
}

proof fn lemma_u32_bytes_injective(a: u32, b: u32)
    by (bit_vector)
    requires
        a as u8 == b as u8,
        (a >> 8u32) as u8 == (b >> 8u32) as u8,
        (a >> 16u32) as u8 == (b >> 16u32) as u8,
        (a >> 24u32) as u8 == (b >> 24u32) as u8,
    ensures
        a == b,
{
}

proof fn lemma_header_bytes_injective(a: BlockHeader, b: BlockHeader)
    requires
        header_bytes(a) == header_bytes(b),
    ensures
        a == b,
{
    assert(header_bytes(a).subrange(4, 12) =~= u64_le(a.lba));
    assert(header_bytes(b).subrange(4, 12) =~= u64_le(b.lba));
    assert(header_bytes(a).subrange(12, 16) =~= u32_le(a.len));
    assert(header_bytes(b).subrange(12, 16) =~= u32_le(b.len));
    crate::wire::lemma_u64_le_injective(a.lba, b.lba);
    lemma_u32_le_injective(a.len, b.len);
}

impl BlockHeader {
    /// The header for `len` bytes of block `lba`.
    pub fn new(lba: u64, len: u32) -> (r: BlockHeader)
        ensures
            r.lba == lba,
            r.len == len,
    {
        BlockHeader { lba, len }
    }

    /// The header's 16 bytes.
    pub fn to_bytes(&self) -> (r: Vec<u8>)
        ensures
            r@ == header_bytes(*self),
    {
        let mut out: Vec<u8> = Vec::new();
        out.push(0x4D);
        out.push(0x47);
        out.push(0x4D);
        out.push(0x41);
        push_u64_le(&mut out, self.lba);
        push_u32_le(&mut out, self.len);
        proof {
            assert(out@ =~= header_bytes(*self));
        }
        out
    }

    /// Reads a header from the start of `buf`.
    pub fn from_bytes(buf: &[u8]) -> (r: Result<BlockHeader, MagmaError>)
        ensures
            buf@.len() < 16 ==> r == Err::<BlockHeader, MagmaError>(MagmaError::BufferTooSmall),
            buf@.len() >= 16 && buf@.subrange(0, 4) != magic() ==> r == Err::<
                BlockHeader,
                MagmaError,
            >(MagmaError::InvalidMagic),
            header_at(buf@) matches Some(h) ==> r == Ok::<BlockHeader, MagmaError>(h),
            r matches Ok(h) ==> header_bytes(h) == buf@.subrange(0, 16),
    {
        if buf.len() < 16 {
            return Err(MagmaError::BufferTooSmall);
        }
        if buf[0] != 0x4D || buf[1] != 0x47 || buf[2] != 0x4D || buf[3] != 0x41 {
            proof {
                assert(buf@.subrange(0, 4) != magic()) by {
                    if buf@.subrange(0, 4) == magic() {
                        assert(buf@.subrange(0, 4)[0] == buf@[0]);
                        assert(buf@.subrange(0, 4)[1] == buf@[1]);
                        assert(buf@.subrange(0, 4)[2] == buf@[2]);
                        assert(buf@.subrange(0, 4)[3] == buf@[3]);
                    }
                }
            }
            return Err(MagmaError::InvalidMagic);
        }
        let lba = read_u64_le(buf, 4);
        let len = read_u32_le(buf, 12);
        let h = BlockHeader { lba, len };
        proof {
            assert(buf@.subrange(0, 4) =~= magic());
            assert(header_bytes(h) =~= buf@.subrange(0, 16));
            let c = choose|c: BlockHeader| header_bytes(c) == buf@.subrange(0, 16);
            lemma_header_bytes_injective(c, h);
        }
        Ok(h)
    }
}

/// A header reads back as the header that was written, whatever follows.
pub proof fn lemma_header_round_trip(h: BlockHeader, rest: Seq<u8>)
    ensures
        header_at(header_bytes(h) + rest) == Some(h),
{
    let b = header_bytes(h) + rest;
    assert(b.subrange(0, 4) =~= magic());
    assert(b.subrange(0, 16) =~= header_bytes(h));
    let c = choose|c: BlockHeader| header_bytes(c) == b.subrange(0, 16);
    lemma_header_bytes_injective(c, h);
}

// ---------------------------------------------------------------------------
// Cutting a byte range into blocks
// ---------------------------------------------------------------------------

pub proof fn lemma_block_step(pos: int, bs: int)
    requires
        pos >= 0,
        bs > 0,
    ensures
        (pos / bs) * bs <= pos < (pos / bs + 1) * bs,
        (pos / bs + 1) * bs == pos + (bs - pos % bs),
        0 <= pos % bs < bs,
        (pos / bs) * bs + pos % bs == pos,
{
    assert((pos / bs) * bs + pos % bs == pos) by (nonlinear_arith)
        requires
            bs > 0,
    ;
    assert(0 <= pos % bs < bs) by (nonlinear_arith)
        requires
            bs > 0,
    ;
    assert((pos / bs + 1) * bs == (pos / bs) * bs + bs) by (nonlinear_arith);
}

/// The pieces of the byte range `[pos, end)` that lie in one logical block
/// each: (block, first byte, length).
pub open spec fn pieces(pos: int, end: int, bs: int) -> Seq<(int, int, int)>
    decreases end - pos,
{
    if pos >= end || bs <= 0 || pos < 0 {
        Seq::empty()
    } else {
        let b = pos / bs;
        let e = if end <= (b + 1) * bs {
            end
        } else {
            (b + 1) * bs
        };
        proof {
            lemma_block_step(pos, bs);
        }
        seq![(b, pos, e - pos)] + pieces(e, end, bs)
    }
}

/// Where piece `i` of a write goes in the log: the log's end when the
/// write began, past the headers and bytes of the pieces before it.
pub open spec fn piece_phys(ps: Seq<(int, int, int)>, head: int, i: int) -> int
    decreases i,
{
    if i <= 0 {
        head
    } else {
        piece_phys(ps, head, i - 1) + 16 + ps[i - 1].2
    }
}

/// The map after a write of the pieces `ps` appended from `head`: each
/// piece's block now points at its bytes, just past its header.
pub open spec fn map_after(m: Map<u64, PhysicalAddr>, ps: Seq<(int, int, int)>, head: int, n: int) -> Map<
    u64,
    PhysicalAddr,
>
    decreases n,
{
    if n <= 0 {
        m
    } else {
        map_after(m, ps, head, n - 1).insert(
            ps[n - 1].0 as u64,
            PhysicalAddr {
                offset: (piece_phys(ps, head, n - 1) + 16) as u64,
                len: ps[n - 1].2 as u32,
            },
        )
    }
}

/// The block writes of a write whose pieces are `ps`, appended from
/// `head`, for data that starts at `offset` in the volume.
pub open spec fn write_plan_of(ps: Seq<(int, int, int)>, head: int, offset: int) -> Seq<BlockWrite> {
    Seq::new(
        ps.len(),
        |i: int|
            BlockWrite {
                header: BlockHeader { lba: ps[i].0 as u64, len: ps[i].2 as u32 },
                phys_offset: piece_phys(ps, head, i) as u64,
                data_start: (ps[i].1 - offset) as usize,
                data_len: ps[i].2 as usize,
            },
    )
}

/// The read pieces of a read whose pieces are `ps`, given the map `m`.
pub open spec fn read_plan_of(m: Map<u64, PhysicalAddr>, ps: Seq<(int, int, int)>, bs: int) -> Seq<
    ReadPiece,
> {
    Seq::new(ps.len(), |i: int| read_piece_of(m, ps, i, bs))
}

/// Where a block's latest copy lies in the log.
#[derive(Clone, Copy, Debug, PartialEq, Eq, Structural)]
pub struct PhysicalAddr {
    pub offset: u64,
    pub len: u32,
}

/// One block's part of a write: the header to append at `phys_offset`,
/// then the bytes `data[data_start..data_start + data_len]`.
#[derive(Clone, Copy, Debug, PartialEq, Eq, Structural)]
pub struct BlockWrite {
    pub header: BlockHeader,
    pub phys_offset: u64,
    pub data_start: usize,
    pub data_len: usize,
}

/// One block's part of a read: bytes of the log, or zeros for a block
/// never written.
#[derive(Clone, Copy, Debug, PartialEq, Eq, Structural)]
pub enum ReadPiece {
    Device { offset: u64, len: usize },
    Zeros(usize),
}

/// The logical-to-physical map of a volume and the end of its log.
pub struct MagmaIndex {
    size: u64,
    block_size: u64,
    write_head: u64,
    l2p: HashMap<u64, PhysicalAddr>,
}

/// What piece `i` of a read of the pieces `ps` reads, given the map `m`.
pub open spec fn read_piece_of(m: Map<u64, PhysicalAddr>, ps: Seq<(int, int, int)>, i: int, bs: int) -> ReadPiece {
    let (b, start, len) = ps[i];
    if m.contains_key(b as u64) {
        ReadPiece::Device {
            offset: ((m[b as u64].offset + (start - b * bs)) % 0x1_0000_0000_0000_0000) as u64,
            len: len as usize,
        }
    } else {
        ReadPiece::Zeros(len as usize)
    }
}

impl MagmaIndex {
    #[verifier::type_invariant]
    spec fn wf(self) -> bool {
        0 < self.block_size <= u32::MAX
    }

    pub closed spec fn volume_size(self) -> u64 {
        self.size
    }

    pub closed spec fn block_size_spec(self) -> u64 {
        self.block_size
    }

    pub closed spec fn head(self) -> u64 {
        self.write_head
    }

    pub closed spec fn map(self) -> Map<u64, PhysicalAddr> {
        self.l2p@
    }

    /// An empty volume of `size` bytes, with blocks of `block_size` bytes.
    pub fn new(size: u64, block_size: u64) -> (r: Self)
        requires
            0 < block_size <= u32::MAX,
        ensures
            r.volume_size() == size,
            r.block_size_spec() == block_size,
            r.head() == 0,
            r.map() == Map::<u64, PhysicalAddr>::empty(),
    {
        MagmaIndex { size, block_size, write_head: 0, l2p: HashMap::new() }
    }

    /// A volume restored from a checkpoint: its map entries and the end of
    /// its log then.
    pub fn from_checkpoint(
        size: u64,
        block_size: u64,
        write_head: u64,
        entries: &Vec<(u64, PhysicalAddr)>,
    ) -> (r: Self)
        requires
            0 < block_size <= u32::MAX,
        ensures
            r.volume_size() == size,
            r.block_size_spec() == block_size,
            r.head() == write_head,
            r.map() == entry_map(entries@),
    {
        let mut l2p: HashMap<u64, PhysicalAddr> = HashMap::new();
        let mut i: usize = 0;
        proof {
            assert(entries@.take(0) =~= Seq::<(u64, PhysicalAddr)>::empty());
        }
        while i < entries.len()
            invariant
                i <= entries@.len(),
                l2p@ == entry_map(entries@.take(i as int)),
            decreases entries@.len() - i,
        {
            let (k, v) = entries[i];
            proof {
                assert(entries@.take(i + 1).drop_last() =~= entries@.take(i as int));
            }
            l2p.insert(k, v);
            i = i + 1;
        }
        proof {
            assert(entries@.take(entries@.len() as int) =~= entries@);
        }
        MagmaIndex { size, block_size, write_head, l2p }
    }

    pub fn block_size(&self) -> (r: u64)
        ensures
            r == self.block_size_spec(),
    {
        self.block_size
    }

    pub fn write_head_position(&self) -> (r: u64)
        ensures
            r == self.head(),
    {
        self.write_head
    }

    pub fn l2p_entry_count(&self) -> (r: usize)
        ensures
            r == self.map().len(),
    {
        self.l2p.len()
    }

    /// The map's entries, each block once, for a checkpoint (in the map's
    /// own order).
    pub fn checkpoint_entries(&self) -> (r: Vec<(u64, PhysicalAddr)>)
        ensures
            entry_map(r@) == self.map(),
            r@.map_values(|e: (u64, PhysicalAddr)| e.0).no_duplicates(),
    {
        let mut r: Vec<(u64, PhysicalAddr)> = Vec::new();
        let ghost m = self.l2p@;
        for e in it: self.l2p.iter()
            invariant
                m == self.l2p@,
                it.seq() == vstd::std_specs::iter::IteratorSpec::remaining(
                    &vstd::std_specs::hash::spec_hash_map_iter(&self.l2p),
                ),
                r@.len() == it.index(),
                forall|j: int|
                    0 <= j < it.index() ==> #[trigger] r@[j] == (*it.seq()[j].0, *it.seq()[j].1),
        {
            let (k, v) = e;
            r.push((*k, *v));
        }
        proof {
            let v = vstd::std_specs::iter::IteratorSpec::remaining(
                &vstd::std_specs::hash::spec_hash_map_iter(&self.l2p),
            );
            assert(r@.len() == v.len());
            let ks = r@.map_values(|e: (u64, PhysicalAddr)| e.0);
            assert forall|a: int, b: int| 0 <= a < ks.len() && 0 <= b < ks.len() && a != b implies ks[a]
                != ks[b] by {
                assert(r@[a] == (*v[a].0, *v[a].1));
                assert(r@[b] == (*v[b].0, *v[b].1));
                assert(m.contains_key(*v[a].0) && m[*v[a].0] == *v[a].1);
                assert(m.contains_key(*v[b].0) && m[*v[b].0] == *v[b].1);
            }
            lemma_entry_map_distinct(r@);
            assert forall|k: u64| #[trigger] entry_map(r@).contains_key(k) <==> m.contains_key(k) by {
                if m.contains_key(k) {
                    assert(v.contains((&k, &m[k])));
                    let j = choose|j: int| 0 <= j < v.len() && v[j] == (&k, &m[k]);
                    assert(r@[j] == (*v[j].0, *v[j].1));
                }
                if entry_map(r@).contains_key(k) {
                    let j = choose|j: int| 0 <= j < r@.len() && r@[j].0 == k;
                    assert(r@[j] == (*v[j].0, *v[j].1));
                    assert(m.contains_key(*v[j].0));
                }
            }
            assert forall|k: u64| #[trigger] entry_map(r@).contains_key(k) implies entry_map(r@)[k]
                == m[k] by {
                let j = choose|j: int| 0 <= j < r@.len() && r@[j].0 == k;
                assert(r@[j] == (*v[j].0, *v[j].1));
                assert(m[*v[j].0] == *v[j].1);
            }
            assert(entry_map(r@) =~= m);
        }
        r
    }

    /// Where block `lba` lies, if it was ever written.
    pub fn lookup(&self, lba: u64) -> (r: Option<PhysicalAddr>)
        ensures
            match r {
                Some(a) => self.map().contains_key(lba) && self.map()[lba] == a,
                None => !self.map().contains_key(lba),
            },
    {
        match self.l2p.get(&lba) {
            Some(a) => Some(*a),
            None => None,
        }
    }

    /// Checks that `size_bytes` is the volume's size.
    pub fn init(&self, size_bytes: u64) -> (r: Result<(), MagmaError>)
        ensures
            size_bytes == self.volume_size() ==> r is Ok,
            size_bytes != self.volume_size() ==> r == Err::<(), MagmaError>(
                MagmaError::SizeMismatch { expected: self.volume_size(), got: size_bytes },
            ),
    {
        if size_bytes != self.size {
            return Err(MagmaError::SizeMismatch { expected: self.size, got: size_bytes });
        }
        Ok(())
    }

    fn cut(&self, offset: u64, end: u64) -> (r: Vec<(u64, u64, u64)>)
        requires
            offset <= end,
            0 < self.block_size_spec(),
        ensures
            r@.len() == pieces(offset as int, end as int, self.block_size_spec() as int).len(),
            forall|i: int|
                0 <= i < r@.len() ==> ({
                    let p = pieces(offset as int, end as int, self.block_size_spec() as int)[i];
                    (#[trigger] r@[i]).0 == p.0 && r@[i].1 == p.1 && r@[i].2 == p.2
                }),
    {
        let bs = self.block_size;
        let ghost bsi = bs as int;
        let ghost full = pieces(offset as int, end as int, bsi);
        let mut out: Vec<(u64, u64, u64)> = Vec::new();
        let mut pos: u64 = offset;
        proof {
            assert(full == full.subrange(0, 0) + pieces(pos as int, end as int, bsi));
        }
        while pos < end
            invariant
                bs == self.block_size_spec(),
                bsi == bs as int,
                bs > 0,
                offset <= pos <= end,
                out@.len() <= full.len(),
                full == full.subrange(0, out@.len() as int) + pieces(pos as int, end as int, bsi),
                forall|i: int|
                    0 <= i < out@.len() ==> (#[trigger] out@[i]).0 == full[i].0 && out@[i].1 == full[i].1
                        && out@[i].2 == full[i].2,
            decreases end - pos,
        {
            let b = pos / bs;
            let in_block = pos % bs;
            let room = bs - in_block;
            let next = if end - pos <= room {
                end
            } else {
                pos + room
            };
            proof {
                lemma_block_step(pos as int, bsi);
                let rest = pieces(pos as int, end as int, bsi);
                assert(rest == seq![(b as int, pos as int, next - pos)] + pieces(
                    next as int,
                    end as int,
                    bsi,
                ));
                let k = out@.len() as int;
                assert(full.subrange(0, k + 1) =~= full.subrange(0, k).push(
                    (b as int, pos as int, next - pos),
                )) by {
                    assert(full[k] == rest[0]);
                }
                assert(full =~= full.subrange(0, k + 1) + pieces(next as int, end as int, bsi));
            }
            out.push((b, pos, next - pos));
            pos = next;
        }
        proof {
            assert(pieces(pos as int, end as int, bsi) =~= Seq::<(int, int, int)>::empty());
            assert(full.subrange(0, out@.len() as int) =~= full);
        }
        out
    }

    /// Appends a write of `len` bytes at `offset` to the log: for each
    /// logical block the range touches, a header then the block's part of
    /// the data, one after the other from the log's end; each block then
    /// points at its new bytes. Refused when the range leaves the volume,
    /// or when the log cannot grow by that much.
    pub fn plan_write(&mut self, offset: u64, len: usize) -> (r: Result<Vec<BlockWrite>, MagmaError>)
        requires
            offset + len <= u64::MAX,
        ensures
            final(self).volume_size() == old(self).volume_size(),
            final(self).block_size_spec() == old(self).block_size_spec(),
            ({
                let ps = pieces(
                    offset as int,
                    offset + len,
                    old(self).block_size_spec() as int,
                );
                let head = old(self).head() as int;
                match r {
                    Ok(ws) => {
                        &&& offset + len <= old(self).volume_size()
                        &&& piece_phys(ps, head, ps.len() as int) <= u64::MAX
                        &&& ws@ == write_plan_of(ps, head, offset as int)
                        &&& final(self).head() == piece_phys(ps, head, ps.len() as int)
                        &&& final(self).map() == map_after(old(self).map(), ps, head, ps.len() as int)
                    },
                    Err(e) => {
                        &&& final(self).head() == old(self).head()
                        &&& final(self).map() == old(self).map()
                        &&& (offset + len > old(self).volume_size() ==> e == MagmaError::OutOfBounds {
                            offset,
                            len: len as u64,
                            size: old(self).volume_size(),
                        })
                        &&& (offset + len <= old(self).volume_size() ==> e == MagmaError::LogFull
                            && piece_phys(ps, head, ps.len() as int) > u64::MAX)
                    },
                }
            }),
    {
        proof {
            use_type_invariant(&*self);
        }
        let end = offset + len as u64;
        if end > self.size {
            return Err(MagmaError::OutOfBounds { offset, len: len as u64, size: self.size });
        }
        let cuts = self.cut(offset, end);
        let ghost bs = self.block_size as int;
        let ghost ps = pieces(offset as int, end as int, bs);
        let ghost head = self.write_head as int;
        proof {
            lemma_pieces_bounds(offset as int, end as int, bs);
        }
        // The log's end after the write, if it fits.
        let mut need: u64 = self.write_head;
        let mut i: usize = 0;
        while i < cuts.len()
            invariant
                cuts@.len() == ps.len(),
                forall|k: int|
                    0 <= k < ps.len() ==> #[trigger] ps[k].2 > 0 && ps[k].2 <= bs && ps[k].1
                        >= offset && ps[k].1 + ps[k].2 <= end,
                forall|k: int|
                    0 <= k < cuts@.len() ==> (#[trigger] cuts@[k]).0 == ps[k].0 && cuts@[k].1
                        == ps[k].1 && cuts@[k].2 == ps[k].2,
                i <= cuts@.len(),
                need == piece_phys(ps, head, i as int),
                ps == pieces(offset as int, end as int, bs),
                end == offset + len,
                end <= self.size,
                head == self.write_head,
                self.write_head == old(self).head(),
                self.l2p@ == old(self).map(),
                self.size == old(self).volume_size(),
                self.block_size == old(self).block_size_spec(),
                bs == self.block_size as int,
            decreases cuts@.len() - i,
        {
            let l = cuts[i].2;
            if need > u64::MAX - 16 || need + 16 > u64::MAX - l {
                proof {
                    assert(l == ps[i as int].2);
                    assert(piece_phys(ps, head, i as int + 1) == need + 16 + l);
                    lemma_phys_grows(ps, head, i as int + 1, ps.len() as int);
                }
                return Err(MagmaError::LogFull);
            }
            need = need + 16 + l;
            i = i + 1;
        }
        let ghost m0 = self.l2p@;
        let mut l2p: HashMap<u64, PhysicalAddr> = HashMap::new();
        std::mem::swap(&mut l2p, &mut self.l2p);
        let mut writes: Vec<BlockWrite> = Vec::new();
        let mut j: usize = 0;
        while j < cuts.len()
            invariant
                cuts@.len() == ps.len(),
                forall|k: int|
                    0 <= k < cuts@.len() ==> (#[trigger] cuts@[k]).0 == ps[k].0 && cuts@[k].1
                        == ps[k].1 && cuts@[k].2 == ps[k].2,
                piece_phys(ps, head, ps.len() as int) <= u64::MAX,
                j <= cuts@.len(),
                writes@.len() == j,
                self.write_head == piece_phys(ps, head, j as int),
                l2p@ == map_after(m0, ps, head, j as int),
                self.size == old(self).volume_size(),
                self.block_size == old(self).block_size_spec(),
                0 < self.block_size <= u32::MAX,
                forall|k: int|
                    0 <= k < ps.len() ==> #[trigger] ps[k].2 > 0 && ps[k].2 <= bs && ps[k].1
                        >= offset && ps[k].1 + ps[k].2 <= end,
                end == offset + len,
                bs == self.block_size as int,
                forall|k: int|
                    0 <= k < writes@.len() ==> (#[trigger] writes@[k]).header.lba == ps[k].0
                        && writes@[k].header.len == ps[k].2 && writes@[k].phys_offset == piece_phys(
                        ps,
                        head,
                        k,
                    ) && writes@[k].data_start == ps[k].1 - offset && writes@[k].data_len
                        == ps[k].2,
            decreases cuts@.len() - j,
        {
            let (b, start, l) = cuts[j];
            proof {
                lemma_phys_grows(ps, head, j as int + 1, ps.len() as int);
            }
            let phys = self.write_head;
            let piece_len = l as u32;
            let header = BlockHeader { lba: b, len: piece_len };
            l2p.insert(b, PhysicalAddr { offset: phys + 16, len: piece_len });
            self.write_head = phys + 16 + l;
            writes.push(
                BlockWrite {
                    header,
                    phys_offset: phys,
                    data_start: (start - offset) as usize,
                    data_len: l as usize,
                },
            );
            j = j + 1;
        }
        self.l2p = l2p;
        proof {
            assert(writes@ =~= write_plan_of(ps, head, offset as int));
        }
        Ok(writes)
    }

    /// How to read `len` bytes at `offset`: block by block, from where the
    /// map points, or zeros for a block never written. Refused when the
    /// range leaves the volume.
    pub fn plan_read(&self, offset: u64, len: usize) -> (r: Result<Vec<ReadPiece>, MagmaError>)
        requires
            offset + len <= u64::MAX,
        ensures
            ({
                let ps = pieces(offset as int, offset + len, self.block_size_spec() as int);
                match r {
                    Ok(rs) => {
                        &&& offset + len <= self.volume_size()
                        &&& rs@ == read_plan_of(self.map(), ps, self.block_size_spec() as int)
                    },
                    Err(e) => offset + len > self.volume_size() && e == MagmaError::OutOfBounds {
                        offset,
                        len: len as u64,
                        size: self.volume_size(),
                    },
                }
            }),
    {
        proof {
            use_type_invariant(self);
        }
        let end = offset + len as u64;
        if end > self.size {
            return Err(MagmaError::OutOfBounds { offset, len: len as u64, size: self.size });
        }
        let cuts = self.cut(offset, end);
        let ghost bs = self.block_size as int;
        let ghost ps = pieces(offset as int, end as int, bs);
        proof {
            lemma_pieces_bounds(offset as int, end as int, bs);
        }
        let mut out: Vec<ReadPiece> = Vec::new();
        let mut i: usize = 0;
        while i < cuts.len()
            invariant
                cuts@.len() == ps.len(),
                forall|k: int|
                    0 <= k < cuts@.len() ==> (#[trigger] cuts@[k]).0 == ps[k].0 && cuts@[k].1
                        == ps[k].1 && cuts@[k].2 == ps[k].2,
                forall|k: int|
                    0 <= k < ps.len() ==> #[trigger] ps[k].2 <= bs && ps[k].0 * bs <= ps[k].1 && ps[k].2
                        <= len,
                bs == self.block_size_spec(),
                i <= cuts@.len(),
                out@.len() == i,
                forall|k: int|
                    0 <= k < i ==> #[trigger] out@[k] == read_piece_of(self.map(), ps, k, bs),
            decreases cuts@.len() - i,
        {
            let (b, start, l) = cuts[i];
            let piece = match self.l2p.get(&b) {
                Some(a) => {
                    let in_block = start - b * self.block_size;
                    ReadPiece::Device { offset: a.offset.wrapping_add(in_block), len: l as usize }
                },
                None => ReadPiece::Zeros(l as usize),
            };
            out.push(piece);
            i = i + 1;
        }
        proof {
            assert(out@ =~= read_plan_of(self.map(), ps, bs));
        }
        Ok(out)
    }

    /// One step of recovery: `header` holds the bytes read at the log's
    /// end, or nothing when they could not be read. A valid header is
    /// taken into the map and the log's end moves past its block; anything
    /// else ends recovery. Says whether recovery goes on.
    pub fn replay_header(&mut self, header: Option<&[u8]>) -> (r: bool)
        ensures
            final(self).volume_size() == old(self).volume_size(),
            final(self).block_size_spec() == old(self).block_size_spec(),
            match header {
                Some(b) => match header_at(b@) {
                    Some(h) => if old(self).head() + 16 + h.len <= u64::MAX {
                        &&& r
                        &&& final(self).head() == old(self).head() + 16 + h.len
                        &&& final(self).map() == old(self).map().insert(
                            h.lba,
                            PhysicalAddr { offset: (old(self).head() + 16) as u64, len: h.len },
                        )
                    } else {
                        !r && final(self).head() == old(self).head() && final(self).map() == old(
                            self,
                        ).map()
                    },
                    None => !r && final(self).head() == old(self).head() && final(self).map()
                        == old(self).map(),
                },
                None => !r && final(self).head() == old(self).head() && final(self).map() == old(
                    self,
                ).map(),
            },
    {
        proof {
            use_type_invariant(&*self);
        }
        let bytes = match header {
            Some(b) => b,
            None => return false,
        };
        let h = match BlockHeader::from_bytes(bytes) {
            Ok(h) => h,
            Err(_) => {
                proof {
                    if header_at(bytes@) is Some {
                        assert(bytes@.len() >= 16);
                    }
                }
                return false;
            },
        };
        proof {
            if bytes@.len() >= 16 && bytes@.subrange(0, 4) == magic() {
                let c = choose|c: BlockHeader| header_bytes(c) == bytes@.subrange(0, 16);
                lemma_header_bytes_injective(c, h);
            } else {
                assert(header_bytes(h).subrange(0, 4) =~= magic());
                assert(bytes@.subrange(0, 16).subrange(0, 4) =~= bytes@.subrange(0, 4));
            }
        }
        let head = self.write_head;
        if head > u64::MAX - 16 || head + 16 > u64::MAX - h.len as u64 {
            return false;
        }
        let mut l2p: HashMap<u64, PhysicalAddr> = HashMap::new();
        std::mem::swap(&mut l2p, &mut self.l2p);
        l2p.insert(h.lba, PhysicalAddr { offset: head + 16, len: h.len });
        self.l2p = l2p;
        self.write_head = head + 16 + h.len as u64;
        true
    }

    /// Recovery over the device's bytes: takes in the headers from the
    /// log's end on, one after another, until one cannot be read whole or
    /// is not valid.
    pub fn replay_log(&mut self, device: &[u8])
        ensures
            final(self).volume_size() == old(self).volume_size(),
            final(self).block_size_spec() == old(self).block_size_spec(),
            (final(self).map(), final(self).head() as int) == replay_all(
                old(self).map(),
                device@,
                old(self).head() as int,
            ),
    {
        let ghost target = replay_all(self.map(), device@, self.head() as int);
        let ghost size0 = self.volume_size();
        let ghost bs0 = self.block_size_spec();
        loop
            invariant
                replay_all(self.map(), device@, self.head() as int) == target,
                self.volume_size() == size0,
                self.block_size_spec() == bs0,
            ensures
                (self.map(), self.head() as int) == target,
                self.volume_size() == size0,
                self.block_size_spec() == bs0,
            decreases if self.head() <= device@.len() {
                device@.len() - self.head() + 1
            } else {
                0
            },
        {
            let head = self.write_head_position();
            let len = device.len();
            let header: Option<&[u8]> = if head <= len as u64 && len as u64 - head >= 16 {
                Some(vstd::slice::slice_subrange(device, head as usize, head as usize + 16))
            } else {
                None
            };
            let go = self.replay_header(header);
            if !go {
                break;
            }
        }
    }
}

/// What recovery over a device's bytes gives from the map `m` and the
/// log's end `head`: while a whole valid header stands at the log's end,
/// its block is taken into the map (a later block for the same address
/// wins) and the end moves past the header and the data.
pub open spec fn replay_all(m: Map<u64, PhysicalAddr>, dev: Seq<u8>, head: int) -> (
    Map<u64, PhysicalAddr>,
    int,
)
    decreases dev.len() - head,
{
    if 0 <= head && head + 16 <= dev.len() {
        match header_at(dev.subrange(head, head + 16)) {
            Some(h) => {
                let h1 = head + 16 + h.len;
                if h1 > u64::MAX {
                    (m, head)
                } else {
                    let m1 = m.insert(h.lba, PhysicalAddr { offset: (head + 16) as u64, len: h.len });
                    if h1 <= dev.len() {
                        replay_all(m1, dev, h1)
                    } else {
                        (m1, h1)
                    }
                }
            },
            None => (m, head),
        }
    } else {
        (m, head)
    }
}

/// The map a list of checkpoint entries describes: a later entry for the
/// same block wins.
pub open spec fn entry_map(s: Seq<(u64, PhysicalAddr)>) -> Map<u64, PhysicalAddr>
    decreases s.len(),
{
    if s.len() == 0 {
        Map::empty()
    } else {
        entry_map(s.drop_last()).insert(s.last().0, s.last().1)
    }
}

/// With distinct blocks, the map of entries holds exactly each entry.
proof fn lemma_entry_map_distinct(s: Seq<(u64, PhysicalAddr)>)
    requires
        s.map_values(|e: (u64, PhysicalAddr)| e.0).no_duplicates(),
    ensures
        forall|j: int|
            0 <= j < s.len() ==> entry_map(s).contains_key(#[trigger] s[j].0) && entry_map(s)[s[j].0]
                == s[j].1,
        forall|k: u64| #[trigger]
            entry_map(s).contains_key(k) ==> exists|j: int| 0 <= j < s.len() && s[j].0 == k,
    decreases s.len(),
{
    if s.len() > 0 {
        let d = s.drop_last();
        let ks = s.map_values(|e: (u64, PhysicalAddr)| e.0);
        let kd = d.map_values(|e: (u64, PhysicalAddr)| e.0);
        assert forall|a: int, b: int| 0 <= a < kd.len() && 0 <= b < kd.len() && a != b implies kd[a]
            != kd[b] by {
            assert(kd[a] == ks[a] && kd[b] == ks[b]);
        }
        lemma_entry_map_distinct(d);
        assert forall|j: int| 0 <= j < s.len() implies entry_map(s).contains_key(#[trigger] s[j].0)
            && entry_map(s)[s[j].0] == s[j].1 by {
            if j < s.len() - 1 {
                assert(ks[j] != ks[s.len() - 1]);
                assert(d[j] == s[j]);
            }
        }
        assert forall|k: u64| #[trigger] entry_map(s).contains_key(k) implies exists|j: int|
            0 <= j < s.len() && s[j].0 == k by {
            if k != s.last().0 {
                assert(entry_map(d).contains_key(k));
                let j = choose|j: int| 0 <= j < d.len() && d[j].0 == k;
                assert(s[j] == d[j]);
            } else {
                assert(s[s.len() - 1].0 == k);
            }
        }
    }
}

/// Checks that a checkpoint belongs to the volume being opened.
pub fn check_checkpoint(
    volume_id: u128,
    block_size: u64,
    checkpoint_volume_id: u128,
    checkpoint_block_size: u64,
) -> (r: Result<(), MagmaError>)
    ensures
        checkpoint_volume_id != volume_id ==> r == Err::<(), MagmaError>(
            MagmaError::CheckpointVolumeMismatch,
        ),
        checkpoint_volume_id == volume_id && checkpoint_block_size != block_size ==> r == Err::<
            (),
            MagmaError,
        >(MagmaError::CheckpointBlockSizeMismatch { expected: block_size, got: checkpoint_block_size }),
        checkpoint_volume_id == volume_id && checkpoint_block_size == block_size ==> r is Ok,
{
    if checkpoint_volume_id != volume_id {
        return Err(MagmaError::CheckpointVolumeMismatch);
    }
    if checkpoint_block_size != block_size {
        return Err(
            MagmaError::CheckpointBlockSizeMismatch { expected: block_size, got: checkpoint_block_size },
        );
    }
    Ok(())
}

proof fn lemma_phys_grows(ps: Seq<(int, int, int)>, head: int, i: int, j: int)
    requires
        0 <= i <= j <= ps.len(),
        forall|k: int| 0 <= k < ps.len() ==> #[trigger] ps[k].2 >= 0,
    ensures
        piece_phys(ps, head, i) <= piece_phys(ps, head, j),
    decreases j - i,
{
    if i < j {
        lemma_phys_grows(ps, head, i, j - 1);
    }
}

proof fn lemma_pieces_bounds(pos: int, end: int, bs: int)
    requires
        bs > 0,
        0 <= pos,
    ensures
        forall|k: int|
            0 <= k < pieces(pos, end, bs).len() ==> {
                let p = #[trigger] pieces(pos, end, bs)[k];
                &&& 0 < p.2 <= bs
                &&& p.0 * bs <= p.1
                &&& p.1 + p.2 <= (p.0 + 1) * bs
                &&& pos <= p.1
                &&& p.1 + p.2 <= end
                &&& p.0 >= 0
                &&& p.2 <= end - pos
            },
    decreases end - pos,
{
    if pos < end {
        lemma_block_step(pos, bs);
        let b = pos / bs;
        let e = if end <= (b + 1) * bs {
            end
        } else {
            (b + 1) * bs
        };
        lemma_pieces_bounds(e, end, bs);
        assert(b >= 0) by (nonlinear_arith)
            requires
                pos >= 0,
                bs > 0,
                b == pos / bs,
        ;
        let rest = pieces(e, end, bs);
        assert forall|k: int| 0 <= k < pieces(pos, end, bs).len() implies {
            let p = #[trigger] pieces(pos, end, bs)[k];
            &&& 0 < p.2 <= bs
            &&& p.0 * bs <= p.1
            &&& p.1 + p.2 <= (p.0 + 1) * bs
            &&& pos <= p.1
            &&& p.1 + p.2 <= end
            &&& p.0 >= 0
            &&& p.2 <= end - pos
        } by {
            if k > 0 {
                assert(pieces(pos, end, bs)[k] == rest[k - 1]);
            }
        }
    }
}

// ---------------------------------------------------------------------------
// Reading back what was written
// ---------------------------------------------------------------------------

/// The device with `b` written at `pos`.
pub open spec fn write_bytes(dev: spec_fn(int) -> u8, pos: int, b: Seq<u8>) -> spec_fn(int) -> u8 {
    |k: int|
        if pos <= k < pos + b.len() {
            b[k - pos]
        } else {
            dev(k)
        }
}

/// The device after the first `n` block writes of `ws`, for `data`: each
/// puts its header, then its part of the data, into the log.
pub open spec fn apply_writes(dev: spec_fn(int) -> u8, ws: Seq<BlockWrite>, data: Seq<u8>, n: int) -> spec_fn(
    int,
) -> u8
    decreases n,
{
    if n <= 0 {
        dev
    } else {
        let w = ws[n - 1];
        write_bytes(
            write_bytes(apply_writes(dev, ws, data, n - 1), w.phys_offset as int, header_bytes(w.header)),
            w.phys_offset + 16,
            data.subrange(w.data_start as int, w.data_start + w.data_len),
        )
    }
}

/// The bytes that one read piece gives on the device.
pub open spec fn piece_bytes(dev: spec_fn(int) -> u8, p: ReadPiece) -> Seq<u8> {
    match p {
        ReadPiece::Device { offset, len } => Seq::new(len as nat, |i: int| dev(offset + i)),
        ReadPiece::Zeros(len) => Seq::new(len as nat, |i: int| 0u8),
    }
}

/// The bytes that the read pieces `rs` give on the device.
pub open spec fn read_bytes(dev: spec_fn(int) -> u8, rs: Seq<ReadPiece>) -> Seq<u8>
    decreases rs.len(),
{
    if rs.len() == 0 {
        Seq::empty()
    } else {
        read_bytes(dev, rs.drop_last()) + piece_bytes(dev, rs.last())
    }
}

proof fn lemma_read_bytes_step(dev: spec_fn(int) -> u8, rs: Seq<ReadPiece>, k: int)
    requires
        0 < k <= rs.len(),
    ensures
        read_bytes(dev, rs.take(k)) == read_bytes(dev, rs.take(k - 1)) + piece_bytes(dev, rs[k - 1]),
{
    assert(rs.take(k).drop_last() =~= rs.take(k - 1));
    assert(rs.take(k).last() == rs[k - 1]);
}

proof fn lemma_pieces_shape(pos: int, end: int, bs: int)
    requires
        bs > 0,
        0 <= pos <= end,
    ensures
        ({
            let ps = pieces(pos, end, bs);
            &&& pos < end ==> ps.len() > 0 && ps[0].1 == pos
            &&& pos < end ==> ps.last().1 + ps.last().2 == end
            &&& pos == end ==> ps.len() == 0
            &&& forall|k: int| 1 <= k < ps.len() ==> #[trigger] ps[k].1 == ps[k - 1].1 + ps[k - 1].2
            &&& forall|k: int| 0 <= k < ps.len() ==> #[trigger] ps[k].0 == ps[k].1 / bs
            &&& forall|k: int, l: int| 0 <= k < l < ps.len() ==> ps[k].0 < ps[l].0
            &&& pos % bs == 0 ==> forall|k: int| 0 <= k < ps.len() ==> #[trigger] ps[k].1 == ps[k].0 * bs
        }),
    decreases end - pos,
{
    lemma_pieces_bounds(pos, end, bs);
    if pos < end {
        lemma_block_step(pos, bs);
        let b = pos / bs;
        let e = if end <= (b + 1) * bs {
            end
        } else {
            (b + 1) * bs
        };
        lemma_pieces_shape(e, end, bs);
        lemma_pieces_bounds(e, end, bs);
        let ps = pieces(pos, end, bs);
        let rest = pieces(e, end, bs);
        assert(ps == seq![(b, pos, e - pos)] + rest);
        assert forall|k: int| 1 <= k < ps.len() implies #[trigger] ps[k] == rest[k - 1] by {}
        if rest.len() > 0 {
            assert(rest[0].1 == e);
            assert(ps.last() == rest.last());
            // The next piece starts on a block boundary.
            lemma_block_step(e, bs);
            assert(e == (b + 1) * bs);
            assert(e % bs == 0) by (nonlinear_arith)
                requires
                    e == (b + 1) * bs,
                    bs > 0,
            ;
            assert(e / bs == b + 1) by (nonlinear_arith)
                requires
                    e == (b + 1) * bs,
                    bs > 0,
            ;
            assert(rest[0].0 == b + 1);
        } else {
            assert(e == end);
        }
        assert forall|k: int| 1 <= k < ps.len() implies #[trigger] ps[k].1 == ps[k - 1].1 + ps[k
            - 1].2 by {
            if k > 1 {
                assert(ps[k] == rest[k - 1]);
                assert(ps[k - 1] == rest[k - 2]);
            } else {
                assert(ps[1] == rest[0]);
                assert(rest.len() > 0);
                assert(e < end);
                assert(rest[0].1 == e);
            }
        }
        assert forall|k: int, l: int| 0 <= k < l < ps.len() implies ps[k].0 < ps[l].0 by {
            if k > 0 {
                assert(ps[k] == rest[k - 1] && ps[l] == rest[l - 1]);
            } else {
                assert(ps[l] == rest[l - 1]);
                if l > 1 {
                    assert(rest[0].0 < rest[l - 1].0);
                }
            }
        }
        if pos % bs == 0 {
            assert(b * bs == pos) by (nonlinear_arith)
                requires
                    b == pos / bs,
                    pos % bs == 0,
                    bs > 0,
                    (pos / bs) * bs + pos % bs == pos,
            ;
            if rest.len() > 0 {
                assert(e % bs == 0) by (nonlinear_arith)
                    requires
                        e == (b + 1) * bs,
                        bs > 0,
                ;
            }
            assert forall|k: int| 0 <= k < ps.len() implies #[trigger] ps[k].1 == ps[k].0 * bs by {
                if k > 0 {
                    assert(ps[k] == rest[k - 1]);
                }
            }
        }
    }
}

proof fn lemma_region_kept(
    dev: spec_fn(int) -> u8,
    ps: Seq<(int, int, int)>,
    head: int,
    offset: int,
    data: Seq<u8>,
    i: int,
    n: int,
    t: int,
)
    requires
        0 <= i < n <= ps.len(),
        0 <= t < ps[i].2,
        forall|k: int| 0 <= k < ps.len() ==> #[trigger] ps[k].2 > 0,
        forall|k: int|
            0 <= k < ps.len() ==> #[trigger] ps[k].1 >= offset && ps[k].1 - offset + ps[k].2
                <= data.len(),
        0 <= head,
        piece_phys(ps, head, ps.len() as int) <= u64::MAX,
        forall|k: int| 0 <= k < ps.len() ==> #[trigger] ps[k].2 <= u32::MAX,
        ps[i].1 - offset + ps[i].2 <= usize::MAX,
    ensures
        apply_writes(dev, write_plan_of(ps, head, offset), data, n)(piece_phys(ps, head, i) + 16 + t)
            == data[ps[i].1 - offset + t],
    decreases n,
{
    let ws = write_plan_of(ps, head, offset);
    lemma_phys_grows(ps, head, i + 1, ps.len() as int);
    lemma_phys_grows(ps, head, 0, i);
    lemma_phys_grows(ps, head, 0, ps.len() as int);
    assert(piece_phys(ps, head, 0) == head);
    if n == i + 1 {
        let w = ws[i];
        assert(w.phys_offset as int == piece_phys(ps, head, i));
        assert(w.data_start as int == ps[i].1 - offset);
        assert(w.data_len as int == ps[i].2);
    } else {
        lemma_region_kept(dev, ps, head, offset, data, i, n - 1, t);
        let w = ws[n - 1];
        lemma_phys_grows(ps, head, i + 1, n - 1);
        lemma_phys_grows(ps, head, n - 1, ps.len() as int);
        assert(w.phys_offset as int == piece_phys(ps, head, n - 1));
    }
}

/// The facts about the pieces of an aligned range that reading back needs.
pub open spec fn aligned_pieces(ps: Seq<(int, int, int)>, offset: int, end: int, bs: int) -> bool {
    &&& ps.len() > 0 ==> ps[0].1 == offset
    &&& ps.len() > 0 ==> ps.last().1 + ps.last().2 == end
    &&& ps.len() == 0 ==> offset == end
    &&& forall|k: int| 1 <= k < ps.len() ==> #[trigger] ps[k].1 == ps[k - 1].1 + ps[k - 1].2
    &&& forall|k: int|
        0 <= k < ps.len() ==> {
            &&& #[trigger] ps[k].2 > 0
            &&& ps[k].2 <= bs
            &&& ps[k].1 >= offset
            &&& ps[k].1 + ps[k].2 <= end
            &&& ps[k].1 == ps[k].0 * bs
            &&& ps[k].0 >= 0
        }
}

proof fn lemma_read_piece(
    dev: spec_fn(int) -> u8,
    m: Map<u64, PhysicalAddr>,
    ps: Seq<(int, int, int)>,
    head: int,
    offset: int,
    bs: int,
    data: Seq<u8>,
    j: int,
)
    requires
        bs > 0,
        bs <= u32::MAX,
        0 <= offset,
        0 <= head,
        data.len() <= usize::MAX,
        offset + data.len() <= u64::MAX,
        aligned_pieces(ps, offset, offset + data.len(), bs),
        piece_phys(ps, head, ps.len() as int) <= u64::MAX,
        0 <= j < ps.len(),
        map_after(m, ps, head, ps.len() as int).contains_key(ps[j].0 as u64),
        map_after(m, ps, head, ps.len() as int)[ps[j].0 as u64] == (PhysicalAddr {
            offset: (piece_phys(ps, head, j) + 16) as u64,
            len: ps[j].2 as u32,
        }),
    ensures
        ({
            let dev2 = apply_writes(dev, write_plan_of(ps, head, offset), data, ps.len() as int);
            let rs = read_plan_of(map_after(m, ps, head, ps.len() as int), ps, bs);
            piece_bytes(dev2, rs[j]) == data.subrange(ps[j].1 - offset, ps[j].1 - offset + ps[j].2)
        }),
{
    let dev2 = apply_writes(dev, write_plan_of(ps, head, offset), data, ps.len() as int);
    lemma_phys_grows(ps, head, j + 1, ps.len() as int);
    lemma_phys_grows(ps, head, 0, j);
    assert(piece_phys(ps, head, 0) == head);
    let phys = piece_phys(ps, head, j) + 16;
    assert((ps[j].0 as u64) as int == ps[j].0) by {
        assert(ps[j].2 > 0);
        assert(ps[j].0 <= ps[j].0 * bs) by (nonlinear_arith)
            requires
                ps[j].0 >= 0,
                bs >= 1,
        ;
    }
    let rs = read_plan_of(map_after(m, ps, head, ps.len() as int), ps, bs);
    assert(ps[j].1 - ps[j].0 * bs == 0);
    assert(rs[j] == ReadPiece::Device { offset: phys as u64, len: ps[j].2 as usize });
    lemma_written_piece(dev, ps, head, offset, data, j);
}

/// The bytes of piece `j` after the writes are the data written for it.
proof fn lemma_written_piece(
    dev: spec_fn(int) -> u8,
    ps: Seq<(int, int, int)>,
    head: int,
    offset: int,
    data: Seq<u8>,
    j: int,
)
    requires
        0 <= j < ps.len(),
        0 <= head,
        data.len() <= usize::MAX,
        forall|k: int|
            0 <= k < ps.len() ==> {
                &&& #[trigger] ps[k].2 > 0
                &&& ps[k].2 <= u32::MAX
                &&& ps[k].1 >= offset
                &&& ps[k].1 - offset + ps[k].2 <= data.len()
            },
        piece_phys(ps, head, ps.len() as int) <= u64::MAX,
        piece_phys(ps, head, j) + 16 <= u64::MAX,
    ensures
        ({
            let dev2 = apply_writes(dev, write_plan_of(ps, head, offset), data, ps.len() as int);
            piece_bytes(
                dev2,
                ReadPiece::Device {
                    offset: (piece_phys(ps, head, j) + 16) as u64,
                    len: ps[j].2 as usize,
                },
            ) == data.subrange(ps[j].1 - offset, ps[j].1 - offset + ps[j].2)
        }),
{
    let dev2 = apply_writes(dev, write_plan_of(ps, head, offset), data, ps.len() as int);
    lemma_phys_grows(ps, head, 0, j);
    assert(piece_phys(ps, head, 0) == head);
    let phys = piece_phys(ps, head, j) + 16;
    let piece = Seq::new(ps[j].2 as nat, |i: int| dev2(phys + i));
    assert forall|k: int| 0 <= k < ps.len() implies #[trigger] ps[k].2 > 0 by {}
    assert forall|k: int| 0 <= k < ps.len() implies #[trigger] ps[k].1 >= offset && ps[k].1 - offset
        + ps[k].2 <= data.len() by {
        assert(ps[k].2 > 0);
    }
    assert forall|k: int| 0 <= k < ps.len() implies #[trigger] ps[k].2 <= u32::MAX by {
        assert(ps[k].2 > 0);
    }
    assert(ps[j].2 > 0);
    assert forall|t: int| 0 <= t < ps[j].2 implies #[trigger] piece[t] == data[ps[j].1 - offset
        + t] by {
        lemma_region_kept(dev, ps, head, offset, data, j, ps.len() as int, t);
    }
    assert(piece =~= data.subrange(ps[j].1 - offset, ps[j].1 - offset + ps[j].2));
    assert(piece_bytes(dev2, ReadPiece::Device { offset: phys as u64, len: ps[j].2 as usize })
        =~= piece);
}

/// Pieces that lay `[offset, end)` end to end, none of them empty.
pub open spec fn tiled(ps: Seq<(int, int, int)>, offset: int, end: int) -> bool {
    &&& ps.len() > 0 ==> ps[0].1 == offset
    &&& ps.len() > 0 ==> ps.last().1 + ps.last().2 == end
    &&& ps.len() == 0 ==> offset == end
    &&& forall|k: int| 1 <= k < ps.len() ==> #[trigger] ps[k].1 == ps[k - 1].1 + ps[k - 1].2
    &&& forall|k: int|
        0 <= k < ps.len() ==> #[trigger] ps[k].2 > 0 && ps[k].1 >= offset && ps[k].1 + ps[k].2 <= end
}

proof fn lemma_read_prefix(
    dev2: spec_fn(int) -> u8,
    rs: Seq<ReadPiece>,
    ps: Seq<(int, int, int)>,
    offset: int,
    bs: int,
    data: Seq<u8>,
    k: int,
)
    requires
        rs.len() == ps.len(),
        tiled(ps, offset, offset + data.len()),
        0 <= k <= ps.len(),
        forall|j: int|
            0 <= j < ps.len() ==> #[trigger] piece_bytes(dev2, rs[j]) == data.subrange(
                ps[j].1 - offset,
                ps[j].1 - offset + ps[j].2,
            ),
    ensures
        read_bytes(dev2, rs.take(k)) == data.subrange(
            0,
            if k < ps.len() {
                ps[k].1 - offset
            } else {
                data.len() as int
            },
        ),
    decreases k,
{
    if k == 0 {
        assert(rs.take(0) =~= Seq::<ReadPiece>::empty());
        assert(data.subrange(0, if 0 < ps.len() { ps[0].1 - offset } else { data.len() as int })
            =~= Seq::<u8>::empty());
    } else {
        lemma_read_prefix(dev2, rs, ps, offset, bs, data, k - 1);
        let j = k - 1;
        lemma_read_bytes_step(dev2, rs, k);
        assert(piece_bytes(dev2, rs[j]) == data.subrange(ps[j].1 - offset, ps[j].1 - offset
            + ps[j].2));
        let lo = ps[j].1 - offset;
        let hi = if k < ps.len() {
            ps[k].1 - offset
        } else {
            data.len() as int
        };
        assert(hi == lo + ps[j].2) by {
            if k < ps.len() {
                assert(ps[k].1 == ps[k - 1].1 + ps[k - 1].2);
            } else {
                assert(ps.last() == ps[j]);
            }
        }
        assert(ps[j].2 > 0);
        assert(data.subrange(0, lo) + data.subrange(lo, hi) =~= data.subrange(0, hi));
    }
}

proof fn lemma_map_after_lookup(m: Map<u64, PhysicalAddr>, ps: Seq<(int, int, int)>, head: int, n: int, j: int)
    requires
        0 <= j < n <= ps.len(),
        forall|k: int, l: int| 0 <= k < l < ps.len() ==> ps[k].0 < ps[l].0,
        forall|k: int| 0 <= k < ps.len() ==> #[trigger] ps[k].0 >= 0 && ps[k].0 <= u64::MAX,
    ensures
        map_after(m, ps, head, n).contains_key(ps[j].0 as u64),
        map_after(m, ps, head, n)[ps[j].0 as u64] == (PhysicalAddr {
            offset: (piece_phys(ps, head, j) + 16) as u64,
            len: ps[j].2 as u32,
        }),
    decreases n,
{
    if n > j + 1 {
        lemma_map_after_lookup(m, ps, head, n - 1, j);
        assert(ps[j].0 < ps[n - 1].0);
        assert((ps[j].0 as u64) != (ps[n - 1].0 as u64));
    }
}

/// A write read back returns the bytes written: after the block writes of
/// a write of `data` at a block-aligned `offset` reach the log, whatever it
/// held, reading the same range through the updated map gives `data`
/// again.
pub proof fn lemma_read_after_write(
    dev: spec_fn(int) -> u8,
    m: Map<u64, PhysicalAddr>,
    head: u64,
    bs: u64,
    offset: u64,
    data: Seq<u8>,
)
    requires
        0 < bs <= u32::MAX,
        offset % bs == 0,
        offset + data.len() <= u64::MAX,
        data.len() <= usize::MAX,
        piece_phys(
            pieces(offset as int, offset + data.len(), bs as int),
            head as int,
            pieces(offset as int, offset + data.len(), bs as int).len() as int,
        ) <= u64::MAX,
    ensures
        ({
            let ps = pieces(offset as int, offset + data.len(), bs as int);
            let n = ps.len() as int;
            read_bytes(
                apply_writes(dev, write_plan_of(ps, head as int, offset as int), data, n),
                read_plan_of(map_after(m, ps, head as int, n), ps, bs as int),
            ) == data
        }),
{
    let end = offset + data.len();
    let ps = pieces(offset as int, end, bs as int);
    let n = ps.len() as int;
    lemma_pieces_shape(offset as int, end, bs as int);
    lemma_pieces_bounds(offset as int, end, bs as int);
    assert forall|k: int| 0 <= k < ps.len() implies #[trigger] ps[k].0 >= 0 && ps[k].0 <= u64::MAX by {
        assert(ps[k].0 * (bs as int) <= ps[k].1);
        assert(ps[k].0 <= ps[k].0 * (bs as int)) by (nonlinear_arith)
            requires
                ps[k].0 >= 0,
                bs >= 1,
        ;
    }
    assert forall|j: int| 0 <= j < ps.len() implies #[trigger] map_after(m, ps, head as int, n).contains_key(
        ps[j].0 as u64,
    ) by {
        lemma_map_after_lookup(m, ps, head as int, n, j);
    }
    assert forall|j: int| 0 <= j < ps.len() implies #[trigger] map_after(m, ps, head as int, n)[ps[j].0 as u64]
        == (PhysicalAddr { offset: (piece_phys(ps, head as int, j) + 16) as u64, len: ps[j].2 as u32 }) by {
        lemma_map_after_lookup(m, ps, head as int, n, j);
    }
    assert(aligned_pieces(ps, offset as int, end, bs as int));
    let dev2 = apply_writes(dev, write_plan_of(ps, head as int, offset as int), data, n);
    let rs = read_plan_of(map_after(m, ps, head as int, n), ps, bs as int);
    assert forall|j: int| 0 <= j < ps.len() implies #[trigger] piece_bytes(dev2, rs[j]) == data.subrange(
        ps[j].1 - offset,
        ps[j].1 - offset + ps[j].2,
    ) by {
        lemma_read_piece(dev, m, ps, head as int, offset as int, bs as int, data, j);
    }
    assert(tiled(ps, offset as int, end));
    lemma_read_prefix(dev2, rs, ps, offset as int, bs as int, data, n);
    assert(rs.take(n) =~= rs);
    assert(data.subrange(0, data.len() as int) =~= data);
}

/// Some piece of a tiling holds each position of the tiled range.
proof fn lemma_tile_cover(ps: Seq<(int, int, int)>, offset: int, end: int, y: int, k: int)
    requires
        tiled(ps, offset, end),
        offset <= y < end,
        0 <= k <= ps.len(),
        y < (if k < ps.len() {
            ps[k].1
        } else {
            end
        }),
    ensures
        exists|j: int| 0 <= j < k && #[trigger] ps[j].1 <= y < ps[j].1 + ps[j].2,
    decreases k,
{
    if k == 0 {
        if ps.len() > 0 {
            assert(ps[0].1 == offset);
        }
    } else {
        let j = k - 1;
        if k < ps.len() {
            assert(ps[k].1 == ps[k - 1].1 + ps[k - 1].2);
        } else {
            assert(ps.last() == ps[j]);
        }
        if y < ps[j].1 {
            lemma_tile_cover(ps, offset, end, y, j);
        } else {
            assert(ps[j].1 <= y < ps[j].1 + ps[j].2);
        }
    }
}

proof fn lemma_block_of(a: int, y: int, bs: int)
    requires
        bs > 0,
        a * bs <= y < a * bs + bs,
    ensures
        y / bs == a,
{
    vstd::arithmetic::div_mod::lemma_fundamental_div_mod_converse(y, bs, a, y - a * bs);
}

/// The piece of an aligned write that holds position `y`, and its block.
proof fn lemma_cover_block(offset: int, end: int, bs: int, y: int) -> (j: int)
    requires
        0 < bs,
        0 <= offset,
        offset % bs == 0,
        offset <= y < end,
        end <= u64::MAX,
    ensures
        0 <= j < pieces(offset, end, bs).len(),
        pieces(offset, end, bs)[j].1 <= y < pieces(offset, end, bs)[j].1 + pieces(offset, end, bs)[j].2,
        pieces(offset, end, bs)[j].0 == y / bs,
        pieces(offset, end, bs)[j].1 == pieces(offset, end, bs)[j].0 * bs,
        pieces(offset, end, bs)[j].2 <= bs,
{
    let ps = pieces(offset, end, bs);
    let n = ps.len() as int;
    lemma_pieces_shape(offset, end, bs);
    lemma_pieces_bounds(offset, end, bs);
    assert(tiled(ps, offset, end));
    lemma_tile_cover(ps, offset, end, y, n);
    let j = choose|j: int| 0 <= j < n && #[trigger] ps[j].1 <= y < ps[j].1 + ps[j].2;
    let b = ps[j].0;
    assert(ps[j].1 == b * bs);
    assert(ps[j].2 <= bs);
    lemma_block_of(b, y, bs);
    j
}

/// Each byte of the written range lies, after the write, where the updated
/// map says its block is.
#[verifier::rlimit(50)]
proof fn lemma_written_byte(
    dev: spec_fn(int) -> u8,
    m: Map<u64, PhysicalAddr>,
    head: int,
    bs: int,
    offset: int,
    data: Seq<u8>,
    y: int,
)
    requires
        0 < bs <= u32::MAX,
        0 <= offset,
        0 <= head,
        offset % bs == 0,
        offset + data.len() <= u64::MAX,
        data.len() <= usize::MAX,
        piece_phys(
            pieces(offset, offset + data.len(), bs),
            head,
            pieces(offset, offset + data.len(), bs).len() as int,
        ) <= u64::MAX,
        offset <= y < offset + data.len(),
    ensures
        ({
            let ps = pieces(offset, offset + data.len(), bs);
            let n = ps.len() as int;
            let ma = map_after(m, ps, head, n);
            let b = y / bs;
            &&& ma.contains_key(b as u64)
            &&& ma[b as u64].offset + (y - b * bs) <= u64::MAX
            &&& apply_writes(dev, write_plan_of(ps, head, offset), data, n)(ma[b as u64].offset + (y
                - b * bs)) == data[y - offset]
        }),
{
    let end = offset + data.len();
    let ps = pieces(offset, end, bs);
    let n = ps.len() as int;
    let j = lemma_cover_block(offset, end, bs, y);
    let t = y - ps[j].1;
    assert(forall|k: int, l: int| 0 <= k < l < ps.len() ==> ps[k].0 < ps[l].0) by {
        lemma_pieces_shape(offset, end, bs);
    }
    assert(forall|k: int| 0 <= k < ps.len() ==> #[trigger] ps[k].0 >= 0 && ps[k].0 <= u64::MAX) by {
        lemma_pieces_bounds(offset, end, bs);
        assert forall|k: int| 0 <= k < ps.len() implies #[trigger] ps[k].0 >= 0 && ps[k].0
            <= u64::MAX by {
            assert(ps[k].0 * bs <= ps[k].1);
            assert(ps[k].0 <= ps[k].0 * bs) by (nonlinear_arith)
                requires
                    ps[k].0 >= 0,
                    bs >= 1,
            ;
        }
    }
    lemma_map_after_lookup(m, ps, head, n, j);
    assert(forall|k: int| 0 <= k < ps.len() ==> #[trigger] ps[k].2 >= 0) by {
        lemma_pieces_bounds(offset, end, bs);
    }
    assert(piece_phys(ps, head, j) + 16 + ps[j].2 <= u64::MAX) by {
        lemma_phys_grows(ps, head, j + 1, n);
    }
    assert(piece_phys(ps, head, j) >= 0) by {
        lemma_phys_grows(ps, head, 0, j);
    }
    assert(apply_writes(dev, write_plan_of(ps, head, offset), data, n)(piece_phys(ps, head, j) + 16 + t)
        == data[ps[j].1 - offset + t]) by {
        lemma_pieces_bounds(offset, end, bs);
        assert forall|k: int| 0 <= k < ps.len() implies #[trigger] ps[k].2 <= u32::MAX by {}
        assert forall|k: int| 0 <= k < ps.len() implies #[trigger] ps[k].1 >= offset && ps[k].1
            - offset + ps[k].2 <= data.len() by {}
        assert forall|k: int| 0 <= k < ps.len() implies #[trigger] ps[k].2 > 0 by {}
        lemma_region_kept(dev, ps, head, offset, data, j, n, t);
    }
}

/// One piece of a read inside a write reads the matching written bytes.
#[verifier::rlimit(50)]
proof fn lemma_read_piece_within(
    dev: spec_fn(int) -> u8,
    m: Map<u64, PhysicalAddr>,
    head: int,
    bs: int,
    offset: int,
    data: Seq<u8>,
    pos: int,
    len: int,
    i: int,
)
    requires
        0 < bs <= u32::MAX,
        0 <= offset,
        0 <= head,
        offset % bs == 0,
        offset + data.len() <= u64::MAX,
        data.len() <= usize::MAX,
        piece_phys(
            pieces(offset, offset + data.len(), bs),
            head,
            pieces(offset, offset + data.len(), bs).len() as int,
        ) <= u64::MAX,
        offset <= pos,
        0 <= len,
        pos + len <= offset + data.len(),
        0 <= i < pieces(pos, pos + len, bs).len(),
    ensures
        ({
            let ps = pieces(offset, offset + data.len(), bs);
            let n = ps.len() as int;
            let qs = pieces(pos, pos + len, bs);
            piece_bytes(
                apply_writes(dev, write_plan_of(ps, head, offset), data, n),
                read_plan_of(map_after(m, ps, head, n), qs, bs)[i],
            ) == data.subrange(qs[i].1 - offset, qs[i].1 - offset + qs[i].2)
        }),
{
    let ps = pieces(offset, offset + data.len(), bs);
    let n = ps.len() as int;
    let ma = map_after(m, ps, head, n);
    let dev2 = apply_writes(dev, write_plan_of(ps, head, offset), data, n);
    let qs = pieces(pos, pos + len, bs);
    let rs = read_plan_of(ma, qs, bs);
    let q = qs[i];
    let b = q.0;
    assert(b == q.1 / bs && b * bs <= q.1 && q.1 + q.2 <= (b + 1) * bs && pos <= q.1 && q.1 + q.2
        <= pos + len && q.2 > 0) by {
        lemma_pieces_shape(pos, pos + len, bs);
        lemma_pieces_bounds(pos, pos + len, bs);
    }
    assert((b + 1) * bs == b * bs + bs) by (nonlinear_arith);
    lemma_block_of(b, q.1, bs);
    lemma_written_byte(dev, m, head, bs, offset, data, q.1);
    let base = ma[b as u64].offset + (q.1 - b * bs);
    assert(base % 0x1_0000_0000_0000_0000 == base);
    assert(rs[i] == ReadPiece::Device { offset: base as u64, len: q.2 as usize });
    assert forall|t: int| 0 <= t < q.2 implies #[trigger] piece_bytes(dev2, rs[i])[t] == data.subrange(
        q.1 - offset,
        q.1 - offset + q.2,
    )[t] by {
        let y = q.1 + t;
        lemma_block_of(b, y, bs);
        lemma_written_byte(dev, m, head, bs, offset, data, y);
        assert(ma[b as u64].offset + (y - b * bs) == base + t);
    }
    assert(piece_bytes(dev2, rs[i]) =~= data.subrange(q.1 - offset, q.1 - offset + q.2));
}

/// A read inside a write gives the written bytes: after the block writes
/// of a write of `data` at a block-aligned `offset` reach the log, whatever
/// it held, reading `len` bytes at any `pos` inside the written range
/// through the updated map gives the matching part of `data`.
pub proof fn lemma_read_within_write(
    dev: spec_fn(int) -> u8,
    m: Map<u64, PhysicalAddr>,
    head: u64,
    bs: u64,
    offset: u64,
    data: Seq<u8>,
    pos: u64,
    len: u64,
)
    requires
        0 < bs <= u32::MAX,
        offset % bs == 0,
        offset + data.len() <= u64::MAX,
        data.len() <= usize::MAX,
        piece_phys(
            pieces(offset as int, offset + data.len(), bs as int),
            head as int,
            pieces(offset as int, offset + data.len(), bs as int).len() as int,
        ) <= u64::MAX,
        offset <= pos,
        pos + len <= offset + data.len(),
    ensures
        ({
            let ps = pieces(offset as int, offset + data.len(), bs as int);
            let n = ps.len() as int;
            read_bytes(
                apply_writes(dev, write_plan_of(ps, head as int, offset as int), data, n),
                read_plan_of(map_after(m, ps, head as int, n), pieces(pos as int, pos + len, bs as int), bs as int),
            ) == data.subrange(pos - offset, pos - offset + len)
        }),
{
    let ps = pieces(offset as int, offset + data.len(), bs as int);
    let n = ps.len() as int;
    let ma = map_after(m, ps, head as int, n);
    let dev2 = apply_writes(dev, write_plan_of(ps, head as int, offset as int), data, n);
    let qs = pieces(pos as int, pos + len, bs as int);
    let rs = read_plan_of(ma, qs, bs as int);
    let target = data.subrange(pos - offset, pos - offset + len);
    assert(tiled(qs, pos as int, pos + target.len())) by {
        lemma_pieces_shape(pos as int, pos + len, bs as int);
        lemma_pieces_bounds(pos as int, pos + len, bs as int);
    }
    assert forall|i: int| 0 <= i < qs.len() implies #[trigger] piece_bytes(dev2, rs[i]) == target.subrange(
        qs[i].1 - pos,
        qs[i].1 - pos + qs[i].2,
    ) by {
        lemma_read_piece_within(dev, m, head as int, bs as int, offset as int, data, pos as int, len as int, i);
        assert(target.subrange(qs[i].1 - pos, qs[i].1 - pos + qs[i].2) =~= data.subrange(
            qs[i].1 - offset,
            qs[i].1 - offset + qs[i].2,
        ));
    }
    lemma_read_prefix(dev2, rs, qs, pos as int, bs as int, target, qs.len() as int);
    assert(rs.take(qs.len() as int) =~= rs);
    assert(target.subrange(0, target.len() as int) =~= target);
}

// ---------------------------------------------------------------------------
// Recovery
// ---------------------------------------------------------------------------

/// The header stored at `pos` on the device, if any.
pub open spec fn device_header(dev: spec_fn(int) -> u8, pos: int) -> Option<BlockHeader> {
    header_at(Seq::new(16, |t: int| dev(pos + t)))
}

/// The map and the log's end after `n` steps of recovery from `head`:
/// each step takes in the header at the log's end and moves past its
/// block, until a step finds no header.
pub open spec fn replay_steps(m: Map<u64, PhysicalAddr>, dev: spec_fn(int) -> u8, head: int, n: int) -> (
    Map<u64, PhysicalAddr>,
    int,
)
    decreases n,
{
    if n <= 0 {
        (m, head)
    } else {
        let (m1, h1) = replay_steps(m, dev, head, n - 1);
        match device_header(dev, h1) {
            Some(h) => (
                m1.insert(h.lba, PhysicalAddr { offset: (h1 + 16) as u64, len: h.len }),
                h1 + 16 + h.len,
            ),
            None => (m1, h1),
        }
    }
}

proof fn lemma_header_kept(
    dev: spec_fn(int) -> u8,
    ps: Seq<(int, int, int)>,
    head: int,
    offset: int,
    data: Seq<u8>,
    i: int,
    n: int,
    t: int,
)
    requires
        0 <= i < n <= ps.len(),
        0 <= t < 16,
        forall|k: int| 0 <= k < ps.len() ==> #[trigger] ps[k].2 >= 0,
        0 <= head,
        piece_phys(ps, head, ps.len() as int) <= u64::MAX,
    ensures
        apply_writes(dev, write_plan_of(ps, head, offset), data, n)(piece_phys(ps, head, i) + t)
            == header_bytes(BlockHeader { lba: ps[i].0 as u64, len: ps[i].2 as u32 })[t],
    decreases n,
{
    let ws = write_plan_of(ps, head, offset);
    lemma_phys_grows(ps, head, i + 1, ps.len() as int);
    lemma_phys_grows(ps, head, 0, i);
    lemma_phys_grows(ps, head, 0, ps.len() as int);
    assert(piece_phys(ps, head, 0) == head);
    if n == i + 1 {
        assert(ws[i].phys_offset as int == piece_phys(ps, head, i));
    } else {
        lemma_header_kept(dev, ps, head, offset, data, i, n - 1, t);
        lemma_phys_grows(ps, head, i + 1, n - 1);
        lemma_phys_grows(ps, head, n - 1, ps.len() as int);
        assert(ws[n - 1].phys_offset as int == piece_phys(ps, head, n - 1));
    }
}

/// Recovery rebuilds what a write did: once the block writes of a write
/// are in the log, replaying the headers from where the write began
/// rebuilds the write's map entries, in order, and the log's end.
pub proof fn lemma_replay_rebuilds(
    dev: spec_fn(int) -> u8,
    m: Map<u64, PhysicalAddr>,
    head: u64,
    bs: u64,
    offset: u64,
    data: Seq<u8>,
    k: int,
)
    requires
        0 < bs <= u32::MAX,
        offset + data.len() <= u64::MAX,
        piece_phys(
            pieces(offset as int, offset + data.len(), bs as int),
            head as int,
            pieces(offset as int, offset + data.len(), bs as int).len() as int,
        ) <= u64::MAX,
        0 <= k <= pieces(offset as int, offset + data.len(), bs as int).len(),
    ensures
        ({
            let ps = pieces(offset as int, offset + data.len(), bs as int);
            let n = ps.len() as int;
            let dev2 = apply_writes(dev, write_plan_of(ps, head as int, offset as int), data, n);
            replay_steps(m, dev2, head as int, k) == (map_after(m, ps, head as int, k), piece_phys(
                ps,
                head as int,
                k,
            ))
        }),
    decreases k,
{
    let ps = pieces(offset as int, offset + data.len(), bs as int);
    let n = ps.len() as int;
    let dev2 = apply_writes(dev, write_plan_of(ps, head as int, offset as int), data, n);
    if k > 0 {
        lemma_replay_rebuilds(dev, m, head, bs, offset, data, k - 1);
        lemma_pieces_bounds(offset as int, offset + data.len(), bs as int);
        let i = k - 1;
        let h = BlockHeader { lba: ps[i].0 as u64, len: ps[i].2 as u32 };
        let pos = piece_phys(ps, head as int, i);
        let stored = Seq::new(16, |t: int| dev2(pos + t));
        assert forall|t: int| 0 <= t < 16 implies stored[t] == header_bytes(h)[t] by {
            lemma_header_kept(dev, ps, head as int, offset as int, data, i, n, t);
        }
        assert(stored =~= header_bytes(h) + Seq::<u8>::empty());
        lemma_header_round_trip(h, Seq::<u8>::empty());
        assert(device_header(dev2, pos) == Some(h));
        assert(h.len as int == ps[i].2);
    }
}

} // verus!
