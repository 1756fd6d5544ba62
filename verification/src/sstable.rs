//! Sorted-string tables: checksummed fixed-size blocks of encoded entries,
//! preceded by a fixed-size metadata record.
use crate::encoding::{
    lemma_le32_roundtrip, lemma_le64_roundtrip, lemma_read_le32_window, lemma_read_le64_window, le32, le64, read_le32, read_le64, u32_from_le,
    u32_to_le, u64_from_le, u64_to_le,
};
use crate::memtable::{find_value, Memtable};
use crate::packing::{
    byte_of_some_key, encode_entry, entry_fits, lemma_key_range, lemma_pack_counts, lemma_padded_blocks_push,
    lemma_table_lookup_matches,
    max_key_byte, max_key_bytes, min_key_byte, min_key_bytes, pack_blocks, padded_blocks,
    table_block_contents,
};
use crate::storage::{stored_bytes, Storage, StorageError};
use crate::BLOCK_SIZE;
use vstd::prelude::*;
use vstd::slice::slice_subrange;
use vstd::std_specs::convert::FromSpec;

verus! {

/// Tag that marks the start of a table's metadata record.
pub const METADATA_MAGIC: u32 = 0x4D534C31;

/// Size in bytes of a table's metadata record.
pub const METADATA_SIZE: usize = 64;

/// Size in bytes that one block takes on storage: its data and its checksum.
pub const BLOCK_STRIDE: u64 = 4100;

/// The CRC-32 checksum of `data`.
pub uninterp spec fn crc32_of(data: Seq<u8>) -> u32;

/// Calls `crc32fast::hash`, which computes the CRC-32 (IEEE) checksum of the
/// bytes it is given; the contract only claims that the result is that
/// checksum of exactly the argument's bytes.
#[verifier::external_body]
fn crc32(data: &[u8]) -> (sum: u32)
    ensures
        sum == crc32_of(data@),
{
    crc32fast::hash(data)
}

/// `raw` cut or zero-padded to exactly one block.
pub open spec fn padded_block(raw: Seq<u8>) -> Seq<u8> {
    Seq::new(BLOCK_SIZE as nat, |i: int| if i < raw.len() { raw[i] } else { 0u8 })
}

/// A block of table data and the checksum of that data.
#[derive(Copy, Clone, Debug)]
pub struct Block {
    pub data: [u8; BLOCK_SIZE],
    pub checksum: u32,
}

/// The bytes a block occupies on storage: its data, then its checksum.
pub open spec fn block_bytes(b: Block) -> Seq<u8> {
    b.data@ + le32(b.checksum)
}

/// The block's checksum matches its data.
pub open spec fn block_is_valid(b: Block) -> bool {
    crc32_of(b.data@) == b.checksum
}

impl Block {
    /// A block holding the first `BLOCK_SIZE` bytes of `data`, zero-padded,
    /// with their checksum.
    pub fn new(data: &[u8]) -> (b: Self)
        ensures
            b.data@ == padded_block(data@),
            b.checksum == crc32_of(b.data@),
    {
        let mut block_data = [0u8; BLOCK_SIZE];
        let len: usize = if data.len() < BLOCK_SIZE {
            data.len()
        } else {
            BLOCK_SIZE
        };
        let mut i: usize = 0;
        while i < len
            invariant
                0 <= i <= len,
                len <= BLOCK_SIZE,
                len <= data@.len(),
                len == data@.len() || len == BLOCK_SIZE,
                block_data@.len() == BLOCK_SIZE,
                forall|j: int| 0 <= j < i ==> block_data@[j] == data@[j],
                forall|j: int| i <= j < BLOCK_SIZE ==> block_data@[j] == 0,
            decreases len - i,
        {
            block_data[i] = data[i];
            i = i + 1;
        }
        assert(block_data@ =~= padded_block(data@));
        let checksum = crc32(&block_data);
        Block { data: block_data, checksum }
    }

    /// Whether the stored checksum matches the data.
    pub fn verify(&self) -> (ok: bool)
        ensures
            ok == block_is_valid(*self),
    {
        crc32(&self.data) == self.checksum
    }

    /// Writes the data at `offset` and the checksum right after it.
    pub fn write<STORAGE: Storage>(&self, storage: &mut STORAGE, offset: u64) -> (r: Result<
        (),
        STORAGE::Error,
    >)
        requires
            offset + BLOCK_STRIDE <= u64::MAX + 1,
        ensures
            forall|a: int|
                !(offset <= a < offset + BLOCK_STRIDE) ==> #[trigger] final(storage).byte_at(a)
                    == old(storage).byte_at(a),
            final(storage).readable_end() >= old(storage).readable_end(),
            final(storage).writable_end() >= old(storage).writable_end(),
            offset + BLOCK_STRIDE <= old(storage).writable_end() ==> r is Ok,
            r is Ok ==> final(storage).readable_end() >= offset + BLOCK_STRIDE,
            r is Ok ==> forall|i: int|
                0 <= i < BLOCK_STRIDE ==> #[trigger] final(storage).byte_at(offset + i)
                    == block_bytes(*self)[i],
    {
        let ghost s0 = *storage;
        match storage.write_at(offset, &self.data) {
            Ok(()) => {},
            Err(e) => {
                return Err(e);
            },
        }
        let ghost s1 = *storage;
        let checksum_bytes = u32_to_le(self.checksum);
        let r = storage.write_at(offset + BLOCK_SIZE as u64, &checksum_bytes);
        proof {
            if r is Ok {
                assert forall|i: int| 0 <= i < BLOCK_STRIDE implies #[trigger] storage.byte_at(
                    offset + i,
                ) == block_bytes(*self)[i] by {
                    if i < BLOCK_SIZE {
                        assert(s1.byte_at(offset + i) == self.data@[i]);
                    } else {
                        assert(storage.byte_at(offset + BLOCK_SIZE + (i - BLOCK_SIZE))
                            == checksum_bytes@[i - BLOCK_SIZE]);
                    }
                }
            }
        }
        r
    }

    /// Reads a block's data at `offset` and its checksum right after it,
    /// without checking them against each other.
    pub fn read<STORAGE: Storage>(storage: &mut STORAGE, offset: u64) -> (r: Result<
        Self,
        STORAGE::Error,
    >)
        requires
            offset + BLOCK_STRIDE <= u64::MAX + 1,
        ensures
            forall|a: int| #[trigger] final(storage).byte_at(a) == old(storage).byte_at(a),
            final(storage).readable_end() == old(storage).readable_end(),
            offset + BLOCK_STRIDE <= old(storage).readable_end() ==> r is Ok,
            r matches Ok(b) ==> block_bytes(b) == stored_bytes(
                old(storage),
                offset as int,
                BLOCK_STRIDE as nat,
            ),
    {
        let mut data = [0u8; BLOCK_SIZE];
        match storage.read_at(offset, &mut data) {
            Ok(()) => {},
            Err(e) => {
                return Err(e);
            },
        }
        let mut checksum_bytes = [0u8; 4];
        match storage.read_at(offset + BLOCK_SIZE as u64, &mut checksum_bytes) {
            Ok(()) => {},
            Err(e) => {
                return Err(e);
            },
        }
        let checksum = u32_from_le(&checksum_bytes, 0);
        let b = Block { data, checksum };
        proof {
            let want = stored_bytes(old(storage), offset as int, BLOCK_STRIDE as nat);
            assert(checksum_bytes@ =~= want.subrange(BLOCK_SIZE as int, BLOCK_STRIDE as int));
            lemma_le32_of_read(want, BLOCK_SIZE as int);
            assert(block_bytes(b) =~= want);
        }
        Ok(b)
    }
}

/// Four bytes are the encoding of the `u32` they decode to.
pub proof fn lemma_le32_of_read(s: Seq<u8>, pos: int)
    requires
        0 <= pos,
        pos + 4 <= s.len(),
    ensures
        le32(read_le32(s, pos)) == s.subrange(pos, pos + 4),
{
    let x = read_le32(s, pos);
    let v = s[pos] as int + s[pos + 1] as int * 256 + s[pos + 2] as int * 65536 + s[pos + 3] as int
        * 16777216;
    assert(x == v);
    assert(v % 256 == s[pos] as int && (v / 256) % 256 == s[pos + 1] as int && (v / 65536) % 256
        == s[pos + 2] as int && (v / 16777216) % 256 == s[pos + 3] as int) by (nonlinear_arith)
        requires
            v == s[pos] as int + s[pos + 1] as int * 256 + s[pos + 2] as int * 65536 + s[pos
                + 3] as int * 16777216,
            0 <= s[pos] < 256,
            0 <= s[pos + 1] < 256,
            0 <= s[pos + 2] < 256,
            0 <= s[pos + 3] < 256,
    ;
    assert(le32(x) =~= s.subrange(pos, pos + 4));
}

/// Appends `src` to `v`.
fn append_bytes(v: &mut Vec<u8>, src: &[u8])
    ensures
        final(v)@ == old(v)@ + src@,
{
    let mut i: usize = 0;
    while i < src.len()
        invariant
            0 <= i <= src@.len(),
            v@ == old(v)@ + src@.subrange(0, i as int),
        decreases src@.len() - i,
    {
        v.push(src[i]);
        i = i + 1;
        assert(v@ =~= old(v)@ + src@.subrange(0, i as int));
    }
    assert(src@.subrange(0, src@.len() as int) =~= src@);
}

/// A table's metadata record.
#[derive(Clone, Debug, PartialEq)]
pub struct SSTableMetadata {
    pub magic: u32,
    pub version: u32,
    pub id: u32,
    pub block_count: u32,
    pub key_count: u32,
    pub min_key: [u8; 16],
    pub max_key: [u8; 16],
    pub total_size: u64,
}

impl SSTableMetadata {
    pub fn new(
        id: u32,
        block_count: u32,
        key_count: u32,
        min_key: [u8; 16],
        max_key: [u8; 16],
        total_size: u64,
    ) -> (md: Self)
        ensures
            md == (SSTableMetadata {
                magic: METADATA_MAGIC,
                version: 1,
                id,
                block_count,
                key_count,
                min_key,
                max_key,
                total_size,
            }),
    {
        SSTableMetadata {
            magic: METADATA_MAGIC,
            version: 1,
            id,
            block_count,
            key_count,
            min_key,
            max_key,
            total_size,
        }
    }
}

/// The 64-byte record a table's metadata is stored as: five little-endian
/// `u32` fields, the two 16-byte keys, the little-endian total size, and
/// four zero bytes.
pub open spec fn metadata_bytes(md: SSTableMetadata) -> Seq<u8> {
    le32(md.magic) + le32(md.version) + le32(md.id) + le32(md.block_count) + le32(md.key_count)
        + md.min_key@ + md.max_key@ + le64(md.total_size) + seq![0u8, 0u8, 0u8, 0u8]
}

/// `md` is what the metadata record `b` decodes to.
pub open spec fn metadata_decodes(b: Seq<u8>, md: SSTableMetadata) -> bool {
    &&& md.magic == read_le32(b, 0)
    &&& md.version == read_le32(b, 4)
    &&& md.id == read_le32(b, 8)
    &&& md.block_count == read_le32(b, 12)
    &&& md.key_count == read_le32(b, 16)
    &&& md.min_key@ == b.subrange(20, 36)
    &&& md.max_key@ == b.subrange(36, 52)
    &&& md.total_size == read_le64(b, 52)
}

/// Decoding the stored record of a metadata value gives that value back.
pub proof fn lemma_metadata_roundtrip(md: SSTableMetadata, decoded: SSTableMetadata)
    requires
        metadata_decodes(metadata_bytes(md), decoded),
    ensures
        decoded == md,
{
    lemma_metadata_decodes_own_bytes(md);
    lemma_metadata_decodes_unique(metadata_bytes(md), md, decoded);
}

/// Copies `src` into `buf` at `pos`.
fn put_bytes(buf: &mut [u8; METADATA_SIZE], pos: usize, src: &[u8])
    requires
        pos + src@.len() <= METADATA_SIZE,
    ensures
        final(buf)@ == old(buf)@.subrange(0, pos as int) + src@ + old(buf)@.subrange(
            pos + src@.len(),
            METADATA_SIZE as int,
        ),
{
    let mut i: usize = 0;
    while i < src.len()
        invariant
            0 <= i <= src@.len(),
            pos + src@.len() <= METADATA_SIZE,
            buf@.len() == METADATA_SIZE,
            forall|j: int| 0 <= j < pos ==> buf@[j] == old(buf)@[j],
            forall|j: int| 0 <= j < i ==> buf@[pos + j] == src@[j],
            forall|j: int| pos + i <= j < METADATA_SIZE ==> buf@[j] == old(buf)@[j],
        decreases src@.len() - i,
    {
        buf[pos + i] = src[i];
        i = i + 1;
    }
    assert(buf@ =~= old(buf)@.subrange(0, pos as int) + src@ + old(buf)@.subrange(
        pos + src@.len(),
        METADATA_SIZE as int,
    ));
}

/// Whether `data[start..start + key.len()]` equals `key`.
fn bytes_equal(data: &[u8], start: usize, key: &[u8]) -> (eq: bool)
    requires
        start + key@.len() <= data@.len(),
    ensures
        eq == (data@.subrange(start as int, start + key@.len()) == key@),
{
    let n = data.len();
    let mut i: usize = 0;
    while i < key.len()
        invariant
            0 <= i <= key@.len(),
            n == data@.len(),
            start + key@.len() <= data@.len(),
            forall|j: int| 0 <= j < i ==> data@[start + j] == key@[j],
        decreases key@.len() - i,
    {
        if data[start + i] != key[i] {
            assert(data@.subrange(start as int, start + key@.len())[i as int] != key@[i as int]);
            return false;
        }
        i = i + 1;
    }
    assert(data@.subrange(start as int, start + key@.len()) =~= key@);
    true
}

/// Where the value of the first entry stored for `key` lies in `data`,
/// scanning entries from `pos`: each entry is a little-endian `u32` key
/// length, the key, a little-endian `u32` value length and the value.  The
/// scan stops at the first entry that does not fit in `data`.
pub open spec fn scan_block(data: Seq<u8>, pos: int, key: Seq<u8>) -> Option<(int, int)>
    decreases data.len() - pos,
{
    if pos < 0 || pos + 4 > data.len() {
        None
    } else {
        let klen = read_le32(data, pos) as int;
        let p1 = pos + 4;
        if p1 + klen > data.len() {
            None
        } else {
            let p2 = p1 + klen;
            if p2 + 4 > data.len() {
                None
            } else {
                let vlen = read_le32(data, p2) as int;
                let p3 = p2 + 4;
                if p3 + vlen > data.len() {
                    None
                } else if klen == key.len() && data.subrange(p1, p2) == key {
                    Some((p3, vlen))
                } else {
                    scan_block(data, p3 + vlen, key)
                }
            }
        }
    }
}

/// The value the scan from `pos` finds for `key`.
pub open spec fn block_lookup_from(data: Seq<u8>, pos: int, key: Seq<u8>) -> Option<Seq<u8>> {
    match scan_block(data, pos, key) {
        Some((start, len)) => Some(data.subrange(start, start + len)),
        None => None,
    }
}

/// The value a block's data holds for `key`.
pub open spec fn block_lookup(data: Seq<u8>, key: Seq<u8>) -> Option<Seq<u8>> {
    block_lookup_from(data, 0, key)
}

/// The value the first block that holds `key` gives for it.
pub open spec fn blocks_lookup(blocks: Seq<Seq<u8>>, key: Seq<u8>) -> Option<Seq<u8>>
    decreases blocks.len(),
{
    if blocks.len() == 0 {
        None
    } else {
        match block_lookup(blocks[0], key) {
            Some(v) => Some(v),
            None => blocks_lookup(blocks.skip(1), key),
        }
    }
}

/// The data of each block.
pub open spec fn block_datas(blocks: Seq<Block>) -> Seq<Seq<u8>> {
    blocks.map_values(|b: Block| b.data@)
}

/// Where block `i` of a table stored at `base` starts, for the standard
/// layout in which blocks follow the metadata back to back.
pub open spec fn block_start(base: int, i: int) -> int {
    base + METADATA_SIZE + i * BLOCK_STRIDE
}

/// The standard block offsets of an `n`-block table.
pub open spec fn standard_offsets(n: nat) -> Seq<u64> {
    Seq::new(n, |i: int| (i * BLOCK_STRIDE) as u64)
}

/// The byte that writing the metadata and the first `n` blocks of a table
/// at `base` leaves at address `a`, if any of those writes covers `a`; a
/// later write wins over an earlier one.
pub open spec fn table_write_byte(
    md: SSTableMetadata,
    blocks: Seq<Block>,
    offsets: Seq<u64>,
    base: int,
    n: nat,
    a: int,
) -> Option<u8>
    decreases n,
{
    if n == 0 {
        if base <= a < base + METADATA_SIZE {
            Some(metadata_bytes(md)[a - base])
        } else {
            None
        }
    } else {
        let start = base + METADATA_SIZE + offsets[n - 1];
        if start <= a < start + BLOCK_STRIDE {
            Some(block_bytes(blocks[n - 1])[a - start])
        } else {
            table_write_byte(md, blocks, offsets, base, (n - 1) as nat, a)
        }
    }
}

/// Every address that one of the writes covers gets a byte.
pub proof fn lemma_write_byte_covered(
    md: SSTableMetadata,
    blocks: Seq<Block>,
    offsets: Seq<u64>,
    base: int,
    n: nat,
    a: int,
)
    ensures
        base <= a < base + METADATA_SIZE ==> table_write_byte(md, blocks, offsets, base, n, a) is Some,
        forall|k: int|
            0 <= k < n && base + METADATA_SIZE + #[trigger] offsets[k] <= a < base + METADATA_SIZE
                + offsets[k] + BLOCK_STRIDE ==> table_write_byte(md, blocks, offsets, base, n, a) is Some,
    decreases n,
{
    if n > 0 {
        lemma_write_byte_covered(md, blocks, offsets, base, (n - 1) as nat, a);
    }
}

/// A byte given by the first `m` writes is still given after `n >= m` of
/// them.
pub proof fn lemma_write_byte_monotone(
    md: SSTableMetadata,
    blocks: Seq<Block>,
    offsets: Seq<u64>,
    base: int,
    m: nat,
    n: nat,
    a: int,
)
    requires
        m <= n,
        table_write_byte(md, blocks, offsets, base, m, a) is Some,
    ensures
        table_write_byte(md, blocks, offsets, base, n, a) is Some,
    decreases n,
{
    if n > m {
        lemma_write_byte_monotone(md, blocks, offsets, base, m, (n - 1) as nat, a);
    }
}

/// A block read from block `i` of the table at `base` is valid exactly when
/// the stored checksum of that block matches its stored data.
pub proof fn lemma_block_read_validity<S: Storage>(s: &S, base: int, i: int, block: Block)
    requires
        block_bytes(block) == stored_bytes(s, block_start(base, i), BLOCK_STRIDE as nat),
    ensures
        block_is_valid(block) == stored_block_valid(s, base, i),
{
    let whole = stored_bytes(s, block_start(base, i), BLOCK_STRIDE as nat);
    assert(block.data@ =~= whole.subrange(0, BLOCK_SIZE as int));
    assert(block.data@ =~= stored_bytes(s, block_start(base, i), BLOCK_SIZE as nat));
    assert(le32(block.checksum) =~= whole.subrange(BLOCK_SIZE as int, BLOCK_STRIDE as int));
    assert(whole.subrange(BLOCK_SIZE as int, BLOCK_STRIDE as int) =~= stored_bytes(
        s,
        block_start(base, i) + BLOCK_SIZE,
        4,
    ));
    lemma_le32_roundtrip(block.checksum);
}

/// The blocks read so far, followed by the next one read, are still the
/// stored blocks.
proof fn lemma_blocks_push<S: Storage>(s: &S, base: int, blocks: Seq<Block>, block: Block)
    requires
        forall|k: int|
            0 <= k < blocks.len() ==> block_bytes(#[trigger] blocks[k]) == stored_bytes(
                s,
                block_start(base, k),
                BLOCK_STRIDE as nat,
            ) && block_is_valid(blocks[k]),
        block_bytes(block) == stored_bytes(s, block_start(base, blocks.len() as int), BLOCK_STRIDE as nat),
        block_is_valid(block),
    ensures
        forall|k: int|
            0 <= k < blocks.len() + 1 ==> block_bytes(#[trigger] blocks.push(block)[k]) == stored_bytes(
                s,
                block_start(base, k),
                BLOCK_STRIDE as nat,
            ) && block_is_valid(blocks.push(block)[k]),
{
    assert forall|k: int| 0 <= k < blocks.len() + 1 implies block_bytes(#[trigger] blocks.push(block)[k])
        == stored_bytes(s, block_start(base, k), BLOCK_STRIDE as nat) && block_is_valid(
        blocks.push(block)[k],
    ) by {
        if k < blocks.len() {
            assert(blocks.push(block)[k] == blocks[k]);
        }
    }
}

/// The metadata record stored at `base`.
pub open spec fn stored_metadata_bytes<S: Storage>(s: &S, base: int) -> Seq<u8> {
    stored_bytes(s, base, METADATA_SIZE as nat)
}

/// The block count recorded in the metadata stored at `base`.
pub open spec fn stored_block_count<S: Storage>(s: &S, base: int) -> int {
    read_le32(stored_metadata_bytes(s, base), 12) as int
}

/// The metadata stored at `base` carries the magic tag.
pub open spec fn stored_magic_ok<S: Storage>(s: &S, base: int) -> bool {
    read_le32(stored_metadata_bytes(s, base), 0) == METADATA_MAGIC
}

/// The checksum stored with block `i` of the table at `base` matches its
/// data.
pub open spec fn stored_block_valid<S: Storage>(s: &S, base: int, i: int) -> bool {
    crc32_of(stored_bytes(s, block_start(base, i), BLOCK_SIZE as nat)) == read_le32(
        stored_bytes(s, block_start(base, i) + BLOCK_SIZE, 4),
        0,
    )
}

/// The table stored at `base` has the magic tag and every block's checksum
/// matches.
pub open spec fn stored_table_valid<S: Storage>(s: &S, base: int) -> bool {
    &&& stored_magic_ok(s, base)
    &&& forall|i: int| 0 <= i < stored_block_count(s, base) ==> #[trigger] stored_block_valid(s, base, i)
}

/// All the reads of the table stored at `base` succeed.
pub open spec fn table_readable<S: Storage>(s: &S, base: int) -> bool {
    &&& base + METADATA_SIZE <= s.readable_end()
    &&& stored_magic_ok(s, base) ==> block_start(base, stored_block_count(s, base))
        <= s.readable_end()
}

/// `md`, `blocks` and `offsets` are what reading the table stored at `base`
/// gives.
pub open spec fn table_stored_at<S: Storage>(
    s: &S,
    base: int,
    md: SSTableMetadata,
    blocks: Seq<Block>,
    offsets: Seq<u64>,
) -> bool {
    &&& metadata_decodes(stored_metadata_bytes(s, base), md)
    &&& md.magic == METADATA_MAGIC
    &&& blocks.len() == md.block_count
    &&& offsets == standard_offsets(blocks.len())
    &&& forall|i: int|
        0 <= i < blocks.len() ==> block_bytes(#[trigger] blocks[i]) == stored_bytes(
            s,
            block_start(base, i),
            BLOCK_STRIDE as nat,
        ) && block_is_valid(blocks[i])
}

/// A table whose metadata, block count, block layout and checksums are
/// those that reading it back expects.
pub open spec fn table_is_well_formed(md: SSTableMetadata, blocks: Seq<Block>, offsets: Seq<u64>) -> bool {
    &&& md.magic == METADATA_MAGIC
    &&& md.block_count == blocks.len()
    &&& offsets == standard_offsets(blocks.len())
    &&& forall|i: int| 0 <= i < blocks.len() ==> block_is_valid(#[trigger] blocks[i])
}

/// Four bytes of `b` that encode `x` decode to `x`.
proof fn lemma_field32(b: Seq<u8>, pos: int, x: u32)
    requires
        0 <= pos,
        pos + 4 <= b.len(),
        b.subrange(pos, pos + 4) == le32(x),
    ensures
        read_le32(b, pos) == x,
{
    lemma_le32_roundtrip(x);
    assert(le32(x).subrange(0, 4) =~= le32(x));
    lemma_read_le32_window(b, pos, le32(x), 0);
}

/// Eight bytes of `b` that encode `x` decode to `x`.
proof fn lemma_field64(b: Seq<u8>, pos: int, x: u64)
    requires
        0 <= pos,
        pos + 8 <= b.len(),
        b.subrange(pos, pos + 8) == le64(x),
    ensures
        read_le64(b, pos) == x,
{
    lemma_le64_roundtrip(x);
    assert(le64(x).subrange(0, 8) =~= le64(x));
    lemma_read_le64_window(b, pos, le64(x), 0);
}

/// The stored record of a metadata value decodes to that value.
pub proof fn lemma_metadata_decodes_own_bytes(md: SSTableMetadata)
    ensures
        metadata_decodes(metadata_bytes(md), md),
{
    let b = metadata_bytes(md);
    assert(b.len() == 64);
    assert(read_le32(b, 0) == md.magic) by {
        assert(b.subrange(0, 4) =~= le32(md.magic));
        lemma_field32(b, 0, md.magic);
    }
    assert(read_le32(b, 4) == md.version) by {
        assert(b.subrange(4, 8) =~= le32(md.version));
        lemma_field32(b, 4, md.version);
    }
    assert(read_le32(b, 8) == md.id) by {
        assert(b.subrange(8, 12) =~= le32(md.id));
        lemma_field32(b, 8, md.id);
    }
    assert(read_le32(b, 12) == md.block_count) by {
        assert(b.subrange(12, 16) =~= le32(md.block_count));
        lemma_field32(b, 12, md.block_count);
    }
    assert(read_le32(b, 16) == md.key_count) by {
        assert(b.subrange(16, 20) =~= le32(md.key_count));
        lemma_field32(b, 16, md.key_count);
    }
    assert(read_le64(b, 52) == md.total_size) by {
        assert(b.subrange(52, 60) =~= le64(md.total_size));
        lemma_field64(b, 52, md.total_size);
    }
    assert(b.subrange(20, 36) =~= md.min_key@);
    assert(b.subrange(36, 52) =~= md.max_key@);
}

/// A metadata record decodes to at most one value.
pub proof fn lemma_metadata_decodes_unique(b: Seq<u8>, md1: SSTableMetadata, md2: SSTableMetadata)
    requires
        metadata_decodes(b, md1),
        metadata_decodes(b, md2),
    ensures
        md1 == md2,
{
    assert(md1.min_key =~= md2.min_key);
    assert(md1.max_key =~= md2.max_key);
}

/// The stored bytes of a block determine it.
pub proof fn lemma_block_bytes_injective(b1: Block, b2: Block)
    requires
        block_bytes(b1) == block_bytes(b2),
    ensures
        b1 == b2,
{
    assert(b1.data@ =~= block_bytes(b1).subrange(0, BLOCK_SIZE as int));
    assert(b2.data@ =~= block_bytes(b2).subrange(0, BLOCK_SIZE as int));
    assert(b1.data =~= b2.data);
    assert(le32(b1.checksum) =~= block_bytes(b1).subrange(BLOCK_SIZE as int, BLOCK_STRIDE as int));
    assert(le32(b2.checksum) =~= block_bytes(b2).subrange(BLOCK_SIZE as int, BLOCK_STRIDE as int));
    lemma_le32_roundtrip(b1.checksum);
    lemma_le32_roundtrip(b2.checksum);
}

/// A block whose bytes a storage holds at `offset`, as `Block::write`
/// leaves them, is what `Block::read` gives back there: any block read from
/// those bytes is that block, checksum included.
pub proof fn lemma_written_block_reads_back<S: Storage>(s: &S, offset: int, b: Block, read: Block)
    requires
        forall|i: int| 0 <= i < BLOCK_STRIDE ==> #[trigger] s.byte_at(offset + i) == block_bytes(b)[i],
        block_bytes(read) == stored_bytes(s, offset, BLOCK_STRIDE as nat),
    ensures
        read == b,
{
    assert(stored_bytes(s, offset, BLOCK_STRIDE as nat) =~= block_bytes(b));
    lemma_block_bytes_injective(read, b);
}

/// With the standard layout, the writes give the metadata region the
/// metadata record.
proof fn lemma_write_byte_in_metadata(
    md: SSTableMetadata,
    blocks: Seq<Block>,
    offsets: Seq<u64>,
    base: int,
    n: nat,
    a: int,
)
    requires
        n <= offsets.len(),
        forall|k: int| 0 <= k < n ==> #[trigger] offsets[k] == k * BLOCK_STRIDE,
        base <= a < base + METADATA_SIZE,
    ensures
        table_write_byte(md, blocks, offsets, base, n, a) == Some(metadata_bytes(md)[a - base]),
    decreases n,
{
    if n > 0 {
        assert(offsets[n - 1] == (n - 1) * BLOCK_STRIDE);
        lemma_write_byte_in_metadata(md, blocks, offsets, base, (n - 1) as nat, a);
    }
}

/// With the standard layout, the writes give block `i`'s region that
/// block's bytes.
proof fn lemma_write_byte_in_block(
    md: SSTableMetadata,
    blocks: Seq<Block>,
    offsets: Seq<u64>,
    base: int,
    n: nat,
    i: int,
    a: int,
)
    requires
        n <= offsets.len(),
        forall|k: int| 0 <= k < n ==> #[trigger] offsets[k] == k * BLOCK_STRIDE,
        0 <= i < n,
        block_start(base, i) <= a < block_start(base, i) + BLOCK_STRIDE,
    ensures
        table_write_byte(md, blocks, offsets, base, n, a) == Some(
            block_bytes(blocks[i])[a - block_start(base, i)],
        ),
    decreases n,
{
    assert(offsets[n - 1] == (n - 1) * BLOCK_STRIDE);
    if i < n - 1 {
        assert(offsets[i] == i * BLOCK_STRIDE);
        lemma_write_byte_in_block(md, blocks, offsets, base, (n - 1) as nat, i, a);
    }
}

/// A well-formed table, once written at `base`, is stored there: reading
/// it back succeeds and gives exactly that table.
pub proof fn lemma_written_table_reads_back<S: Storage>(
    s: &S,
    base: int,
    md: SSTableMetadata,
    blocks: Seq<Block>,
    offsets: Seq<u64>,
)
    requires
        table_is_well_formed(md, blocks, offsets),
        forall|a: int|
            #[trigger] table_write_byte(md, blocks, offsets, base, blocks.len(), a) matches Some(b)
                ==> s.byte_at(a) == b,
        base + METADATA_SIZE <= s.readable_end(),
        forall|i: int|
            0 <= i < blocks.len() ==> base + METADATA_SIZE + #[trigger] offsets[i] + BLOCK_STRIDE
                <= s.readable_end(),
    ensures
        table_readable(s, base),
        stored_table_valid(s, base),
        table_stored_at(s, base, md, blocks, offsets),
        forall|md2: SSTableMetadata, blocks2: Seq<Block>, offsets2: Seq<u64>|
            #[trigger] table_stored_at(s, base, md2, blocks2, offsets2) ==> md2 == md && blocks2
                == blocks && offsets2 == offsets,
{
    let n = blocks.len();
    assert forall|k: int| 0 <= k < n implies #[trigger] offsets[k] == k * BLOCK_STRIDE by {
        assert(offsets[k] == standard_offsets(n)[k]);
    }
    assert forall|j: int| 0 <= j < METADATA_SIZE implies #[trigger] stored_metadata_bytes(s, base)[j]
        == metadata_bytes(md)[j] by {
        lemma_write_byte_in_metadata(md, blocks, offsets, base, n, base + j);
    }
    assert(stored_metadata_bytes(s, base) =~= metadata_bytes(md));
    lemma_metadata_decodes_own_bytes(md);
    assert forall|i: int| 0 <= i < n implies block_bytes(#[trigger] blocks[i]) == stored_bytes(
        s,
        block_start(base, i),
        BLOCK_STRIDE as nat,
    ) && block_is_valid(blocks[i]) by {
        assert forall|j: int| 0 <= j < BLOCK_STRIDE implies #[trigger] stored_bytes(
            s,
            block_start(base, i),
            BLOCK_STRIDE as nat,
        )[j] == block_bytes(blocks[i])[j] by {
            lemma_write_byte_in_block(md, blocks, offsets, base, n, i, block_start(base, i) + j);
        }
        assert(block_bytes(blocks[i]) =~= stored_bytes(s, block_start(base, i), BLOCK_STRIDE as nat));
    }
    assert(table_stored_at(s, base, md, blocks, offsets));
    assert forall|i: int| 0 <= i < stored_block_count(s, base) implies #[trigger] stored_block_valid(
        s,
        base,
        i,
    ) by {
        lemma_block_read_validity(s, base, i, blocks[i]);
    }
    if n > 0 {
        assert(offsets[n - 1] == (n - 1) * BLOCK_STRIDE);
    }
    assert forall|md2: SSTableMetadata, blocks2: Seq<Block>, offsets2: Seq<u64>|
        #[trigger] table_stored_at(s, base, md2, blocks2, offsets2) implies md2 == md && blocks2
            == blocks && offsets2 == offsets by {
        lemma_metadata_decodes_unique(stored_metadata_bytes(s, base), md, md2);
        assert forall|i: int| 0 <= i < n implies blocks2[i] == blocks[i] by {
            lemma_block_bytes_injective(blocks2[i], blocks[i]);
        }
        assert(blocks2 =~= blocks);
    }
}

/// What reading a table gives depends only on the bytes of its own
/// region: a storage that agrees with one holding the table at `base` on
/// that region holds the same table there, with valid checksums.  Tables
/// written at offsets whose regions do not overlap stay readable.
pub proof fn lemma_table_region_determines_read<S: Storage>(
    s1: &S,
    s2: &S,
    base: int,
    md: SSTableMetadata,
    blocks: Seq<Block>,
    offsets: Seq<u64>,
)
    requires
        table_stored_at(s1, base, md, blocks, offsets),
        forall|a: int|
            base <= a < block_start(base, blocks.len() as int) ==> #[trigger] s2.byte_at(a)
                == s1.byte_at(a),
    ensures
        table_stored_at(s2, base, md, blocks, offsets),
        stored_table_valid(s2, base),
{
    let n = blocks.len() as int;
    assert(stored_metadata_bytes(s2, base) =~= stored_metadata_bytes(s1, base)) by {
        assert forall|j: int| 0 <= j < METADATA_SIZE implies #[trigger] stored_metadata_bytes(
            s2,
            base,
        )[j] == stored_metadata_bytes(s1, base)[j] by {
            assert(base <= base + j < block_start(base, n));
        }
    }
    assert forall|i: int| 0 <= i < n implies block_bytes(#[trigger] blocks[i]) == stored_bytes(
        s2,
        block_start(base, i),
        BLOCK_STRIDE as nat,
    ) && block_is_valid(blocks[i]) by {
        assert(i * 4100 + 4100 <= n * 4100) by (nonlinear_arith)
            requires
                0 <= i < n,
        ;
        assert(stored_bytes(s2, block_start(base, i), BLOCK_STRIDE as nat) =~= stored_bytes(
            s1,
            block_start(base, i),
            BLOCK_STRIDE as nat,
        )) by {
            assert forall|j: int| 0 <= j < BLOCK_STRIDE implies #[trigger] stored_bytes(
                s2,
                block_start(base, i),
                BLOCK_STRIDE as nat,
            )[j] == stored_bytes(s1, block_start(base, i), BLOCK_STRIDE as nat)[j] by {
                assert(base <= block_start(base, i) + j < block_start(base, n));
            }
        }
    }
    assert forall|i: int| 0 <= i < stored_block_count(s2, base) implies #[trigger] stored_block_valid(
        s2,
        base,
        i,
    ) by {
        lemma_block_read_validity(s2, base, i, blocks[i]);
    }
}

/// Reads block `i` of the table stored at `base_offset`.
fn read_table_block<STORAGE: Storage>(
    storage: &mut STORAGE,
    base_offset: u64,
    i: usize,
    total: usize,
) -> (r: Result<Block, STORAGE::Error>)
    requires
        i < total,
        block_start(base_offset as int, total as int) <= u64::MAX + 1,
    ensures
        forall|a: int| #[trigger] final(storage).byte_at(a) == old(storage).byte_at(a),
        final(storage).readable_end() == old(storage).readable_end(),
        block_start(base_offset as int, i + 1) <= old(storage).readable_end() ==> r is Ok,
        r matches Ok(b) ==> block_bytes(b) == stored_bytes(
            old(storage),
            block_start(base_offset as int, i as int),
            BLOCK_STRIDE as nat,
        ),
{
    proof {
        assert((i as int) * 4100 <= (total as int) * 4100) by (nonlinear_arith)
            requires
                i <= total,
        ;
    }
    let data_start = base_offset + METADATA_SIZE as u64;
    let offset = data_start + (i as u64) * (BLOCK_SIZE as u64 + 4);
    Block::read(storage, offset)
}

/// An immutable table: metadata, blocks, and where each block lies
/// relative to the end of the metadata.
#[derive(Clone, Debug)]
pub struct SSTable {
    pub metadata: SSTableMetadata,
    pub blocks: Vec<Block>,
    pub block_offsets: Vec<u64>,
}

/// A table as plain values: its metadata, its blocks and its block offsets.
pub type TableView = (SSTableMetadata, Seq<Block>, Seq<u64>);

impl View for SSTable {
    type V = TableView;

    open spec fn view(&self) -> TableView {
        (self.metadata, self.blocks@, self.block_offsets@)
    }
}

impl SSTable {
    /// Builds a table from the memtable's entries in insertion order, packed
    /// into blocks, with the key count and the per-position minimum and
    /// maximum key bytes.
    pub fn from_memtable<const K: usize, const V: usize>(memtable: &Memtable<K, V>, id: u32) -> (t:
        Self)
        requires
            memtable.wf(),
            memtable@.len() <= u32::MAX,
        ensures
            block_datas(t.blocks@) == padded_blocks(table_block_contents(memtable@)),
            forall|i: int| 0 <= i < t.blocks@.len() ==> block_is_valid(#[trigger] t.blocks@[i]),
            t.block_offsets@ == standard_offsets(t.blocks@.len()),
            t.blocks@.len() <= memtable@.len(),
            t.metadata.magic == METADATA_MAGIC,
            t.metadata.version == 1,
            t.metadata.id == id,
            t.metadata.block_count == t.blocks@.len(),
            t.metadata.key_count == memtable@.len(),
            t.metadata.min_key@ == min_key_bytes(memtable@),
            t.metadata.max_key@ == max_key_bytes(memtable@),
            t.metadata.total_size == t.blocks@.len() * BLOCK_STRIDE,
            K + V + 8 <= BLOCK_SIZE ==> forall|key: Seq<u8>|
                key.len() > 0 ==> #[trigger] blocks_lookup(block_datas(t.blocks@), key) == find_value(
                    memtable@,
                    key,
                ),
            forall|i: int, j: int|
                0 <= i < memtable@.len() && 0 <= j < 16 && j < K ==> t.metadata.min_key@[j]
                    <= #[trigger] memtable@[i].0[j] <= t.metadata.max_key@[j],
            forall|j: int|
                0 <= j < 16 && j < K && memtable@.len() > 0 ==> #[trigger] byte_of_some_key(
                    memtable@,
                    j,
                    t.metadata.min_key@[j],
                ),
            forall|j: int|
                0 <= j < 16 && j < K && memtable@.len() > 0 ==> #[trigger] byte_of_some_key(
                    memtable@,
                    j,
                    t.metadata.max_key@[j],
                ),
            forall|j: int|
                0 <= j < 16 && (j >= K || memtable@.len() == 0) ==> #[trigger] t.metadata.min_key@[j]
                    == 0xFF && t.metadata.max_key@[j] == 0,
    {
        let ghost entries = memtable@;
        proof {
            memtable.lemma_wf_view();
        }
        let n = memtable.len();
        let mut blocks: Vec<Block> = Vec::new();
        let mut block_offsets: Vec<u64> = Vec::new();
        let mut current: Vec<u8> = Vec::with_capacity(BLOCK_SIZE);
        let mut key_count: u32 = 0;
        let mut min_key = [0xFFu8; 16];
        let mut max_key = [0x00u8; 16];
        let mut it = memtable.iter();
        proof {
            assert(entries.skip(0) =~= entries);
            assert(entries.take(0) =~= Seq::<(Seq<u8>, Seq<u8>)>::empty());
            assert(block_datas(blocks@) =~= padded_blocks(Seq::<Seq<u8>>::empty()));
            assert(min_key@ =~= min_key_bytes(entries.take(0)));
            assert(max_key@ =~= max_key_bytes(entries.take(0)));
        }
        let mut i: usize = 0;
        while i < n
            invariant
                0 <= i <= n,
                n == entries.len(),
                n <= u32::MAX,
                forall|j: int| 0 <= j < n ==> (#[trigger] entries[j]).0.len() == K,
                forall|j: int| 0 <= j < n ==> (#[trigger] entries[j]).1.len() <= u16::MAX,
                it.remaining() == entries.skip(i as int).map_values(
                    |kv: (Seq<u8>, Seq<u8>)| Some(kv),
                ),
                block_datas(blocks@) == padded_blocks(pack_blocks(entries.take(i as int)).0),
                forall|j: int| 0 <= j < blocks@.len() ==> block_is_valid(#[trigger] blocks@[j]),
                current@ == pack_blocks(entries.take(i as int)).1,
                key_count == i,
                min_key@ == min_key_bytes(entries.take(i as int)),
                max_key@ == max_key_bytes(entries.take(i as int)),
            decreases n - i,
        {
            let ghost prefix = entries.take(i as int);
            let ghost next_prefix = entries.take(i + 1);
            proof {
                assert(next_prefix.drop_last() =~= prefix);
                assert(next_prefix.last() == entries[i as int]);
                assert(entries.skip(i as int)[0] == entries[i as int]);
                assert(it.remaining()[0] == Some(entries[i as int]));
                lemma_pack_counts(prefix);
            }
            let next = it.next();
            proof {
                assert(it.remaining() =~= entries.skip(i + 1).map_values(
                    |kv: (Seq<u8>, Seq<u8>)| Some(kv),
                ));
            }
            match next {
                Some((key, value)) => {
                    let ghost e = entries[i as int];
                    let vlen = value.len();
                    let cur_len = current.len();
                    let too_big = cur_len > BLOCK_SIZE || K > BLOCK_SIZE - cur_len || vlen + 8
                        > BLOCK_SIZE - cur_len - K;
                    proof {
                        assert(encode_entry(e).len() == K + vlen + 8);
                        assert(too_big == (cur_len + encode_entry(e).len() > BLOCK_SIZE));
                    }
                    if too_big && cur_len > 0 {
                        let block = Block::new(current.as_slice());
                        let ghost old_blocks = blocks@;
                        blocks.push(block);
                        current.clear();
                        proof {
                            assert(block_datas(blocks@) =~= block_datas(old_blocks).push(
                                block.data@,
                            ));
                            lemma_padded_blocks_push(
                                pack_blocks(prefix).0,
                                pack_blocks(prefix).1,
                            );
                        }
                    }
                    let ghost before = current@;
                    append_bytes(&mut current, &u32_to_le(#[verifier::truncate] (K as u32)));
                    append_bytes(&mut current, key.as_slice());
                    append_bytes(&mut current, &u32_to_le(vlen as u32));
                    append_bytes(&mut current, value);
                    proof {
                        assert(current@ =~= before + encode_entry(e));
                        assert(current@ == pack_blocks(next_prefix).1);
                    }
                    let lim: usize = if K < 16 {
                        K
                    } else {
                        16
                    };
                    let ghost min0 = min_key@;
                    let ghost max0 = max_key@;
                    let mut j: usize = 0;
                    while j < lim
                        invariant
                            0 <= j <= lim,
                            lim <= 16,
                            lim <= K,
                            lim == K || lim == 16,
                            key@ == e.0,
                            e.0.len() == K,
                            min0 == min_key_bytes(prefix),
                            max0 == max_key_bytes(prefix),
                            next_prefix.drop_last() == prefix,
                            next_prefix.last() == e,
                            next_prefix.len() > 0,
                            forall|jj: int| 0 <= jj < j ==> #[trigger] min_key@[jj] == min_key_byte(next_prefix, jj),
                            forall|jj: int| j <= jj < 16 ==> #[trigger] min_key@[jj] == min0[jj],
                            forall|jj: int| 0 <= jj < j ==> #[trigger] max_key@[jj] == max_key_byte(next_prefix, jj),
                            forall|jj: int| j <= jj < 16 ==> #[trigger] max_key@[jj] == max0[jj],
                        decreases lim - j,
                    {
                        if key[j] < min_key[j] {
                            min_key[j] = key[j];
                        }
                        if key[j] > max_key[j] {
                            max_key[j] = key[j];
                        }
                        j = j + 1;
                    }
                    proof {
                        assert forall|jj: int| 0 <= jj < 16 implies #[trigger] min_key@[jj]
                            == min_key_bytes(next_prefix)[jj] && max_key@[jj] == max_key_bytes(
                            next_prefix,
                        )[jj] by {
                            if jj >= lim {
                                assert(min_key_byte(next_prefix, jj) == min_key_byte(prefix, jj));
                                assert(max_key_byte(next_prefix, jj) == max_key_byte(prefix, jj));
                            }
                        }
                        assert(min_key@ =~= min_key_bytes(next_prefix));
                        assert(max_key@ =~= max_key_bytes(next_prefix));
                    }
                    key_count = key_count + 1;
                },
                None => {
                    proof {
                        assert(false);
                    }
                },
            }
            i = i + 1;
        }
        proof {
            assert(entries.take(n as int) =~= entries);
            lemma_pack_counts(entries);
        }
        if current.len() > 0 {
            let block = Block::new(current.as_slice());
            let ghost old_blocks = blocks@;
            blocks.push(block);
            proof {
                assert(block_datas(blocks@) =~= block_datas(old_blocks).push(block.data@));
                lemma_padded_blocks_push(pack_blocks(entries).0, pack_blocks(entries).1);
            }
        }
        let nblocks = blocks.len();
        let mut offset: u64 = 0;
        let mut j: usize = 0;
        while j < nblocks
            invariant
                0 <= j <= nblocks,
                nblocks <= u32::MAX,
                block_offsets@ == standard_offsets(j as nat),
                offset == j * BLOCK_STRIDE,
            decreases nblocks - j,
        {
            block_offsets.push(offset);
            offset = offset + BLOCK_STRIDE;
            j = j + 1;
            proof {
                assert(block_offsets@ =~= standard_offsets(j as nat));
            }
        }
        let t = SSTable {
            metadata: SSTableMetadata::new(id, nblocks as u32, key_count, min_key, max_key, offset),
            blocks,
            block_offsets,
        };
        proof {
            lemma_key_range(memtable@, K as int, t.metadata.min_key@, t.metadata.max_key@);
            if K + V + 8 <= BLOCK_SIZE {
                assert forall|i: int| 0 <= i < entries.len() implies entry_fits(#[trigger] entries[i]) by {
                    assert(entries[i].0.len() == K);
                    assert(entries[i].1.len() <= V);
                }
                assert forall|key: Seq<u8>| key.len() > 0 implies #[trigger] blocks_lookup(
                    block_datas(t.blocks@),
                    key,
                ) == find_value(entries, key) by {
                    lemma_table_lookup_matches(entries, key);
                }
            }
        }
        t
    }

    /// The value stored for `key` in the first block that holds it.
    pub fn get(&self, key: &[u8]) -> (r: Option<&[u8]>)
        ensures
            match r {
                Some(v) => blocks_lookup(block_datas(self.blocks@), key@) == Some(v@),
                None => blocks_lookup(block_datas(self.blocks@), key@) is None,
            },
    {
        let ghost datas = block_datas(self.blocks@);
        assert(datas.skip(0) =~= datas);
        let mut i: usize = 0;
        while i < self.blocks.len()
            invariant
                0 <= i <= self.blocks@.len(),
                datas == block_datas(self.blocks@),
                blocks_lookup(datas, key@) == blocks_lookup(datas.skip(i as int), key@),
            decreases self.blocks@.len() - i,
        {
            let block = &self.blocks[i];
            proof {
                assert(datas.skip(i as int)[0] == block.data@);
                assert(datas.skip(i as int).skip(1) =~= datas.skip(i + 1));
            }
            match Self::find_key_in_block(block, key) {
                Some(v) => {
                    return Some(v);
                },
                None => {},
            }
            i = i + 1;
        }
        None
    }

    /// Writes the metadata record at `base_offset`, then each block at its
    /// offset after the record.
    pub fn write_at<STORAGE: Storage>(&self, storage: &mut STORAGE, base_offset: u64) -> (r: Result<
        (),
        STORAGE::Error,
    >)
        requires
            self.block_offsets@.len() >= self.blocks@.len(),
            base_offset + METADATA_SIZE <= u64::MAX,
            forall|i: int|
                0 <= i < self.blocks@.len() ==> base_offset + METADATA_SIZE
                    + #[trigger] self.block_offsets@[i] + BLOCK_STRIDE <= u64::MAX + 1,
        ensures
            final(storage).readable_end() >= old(storage).readable_end(),
            final(storage).writable_end() >= old(storage).writable_end(),
            base_offset + METADATA_SIZE <= old(storage).writable_end() && (forall|i: int|
                0 <= i < self.blocks@.len() ==> base_offset + METADATA_SIZE
                    + #[trigger] self.block_offsets@[i] + BLOCK_STRIDE <= old(storage).writable_end())
                ==> r is Ok,
            forall|a: int|
                table_write_byte(
                    self.metadata,
                    self.blocks@,
                    self.block_offsets@,
                    base_offset as int,
                    self.blocks@.len(),
                    a,
                ) is None ==> #[trigger] final(storage).byte_at(a) == old(storage).byte_at(a),
            r is Ok ==> forall|a: int|
                #[trigger] table_write_byte(
                    self.metadata,
                    self.blocks@,
                    self.block_offsets@,
                    base_offset as int,
                    self.blocks@.len(),
                    a,
                ) matches Some(b) ==> final(storage).byte_at(a) == b,
            r is Ok ==> base_offset + METADATA_SIZE <= final(storage).readable_end(),
            r is Ok ==> forall|i: int|
                0 <= i < self.blocks@.len() ==> base_offset + METADATA_SIZE
                    + #[trigger] self.block_offsets@[i] + BLOCK_STRIDE <= final(storage).readable_end(),
    {
        let ghost md = self.metadata;
        let ghost blocks = self.blocks@;
        let ghost offsets = self.block_offsets@;
        let ghost base = base_offset as int;
        let metadata_bytes = self.serialize_metadata();
        let r0 = storage.write_at(base_offset, &metadata_bytes);
        proof {
            assert forall|a: int|
                #[trigger] table_write_byte(md, blocks, offsets, base, blocks.len(), a) is None
                    implies storage.byte_at(a) == old(storage).byte_at(a) by {
                lemma_write_byte_covered(md, blocks, offsets, base, blocks.len(), a);
            }
            if r0 is Ok {
                assert forall|a: int|
                    #[trigger] table_write_byte(md, blocks, offsets, base, 0, a) is Some implies
                        storage.byte_at(a) == table_write_byte(md, blocks, offsets, base, 0, a)->0 by {
                    assert(storage.byte_at(base_offset + (a - base)) == metadata_bytes@[a - base]);
                }
            }
        }
        match r0 {
            Ok(()) => {},
            Err(e) => {
                return Err(e);
            },
        }
        let data_start = base_offset + METADATA_SIZE as u64;
        let mut i: usize = 0;
        while i < self.blocks.len()
            invariant
                0 <= i <= blocks.len(),
                blocks == self.blocks@,
                offsets == self.block_offsets@,
                md == self.metadata,
                base == base_offset,
                data_start == base + METADATA_SIZE,
                offsets.len() >= blocks.len(),
                forall|k: int|
                    0 <= k < blocks.len() ==> base + METADATA_SIZE + #[trigger] offsets[k]
                        + BLOCK_STRIDE <= u64::MAX + 1,
                storage.readable_end() >= old(storage).readable_end(),
                storage.writable_end() >= old(storage).writable_end(),
                base + METADATA_SIZE <= storage.readable_end(),
                forall|k: int|
                    0 <= k < i ==> base + METADATA_SIZE + #[trigger] offsets[k] + BLOCK_STRIDE
                        <= storage.readable_end(),
                forall|a: int|
                    #[trigger] table_write_byte(md, blocks, offsets, base, i as nat, a) is None
                        ==> storage.byte_at(a) == old(storage).byte_at(a),
                forall|a: int|
                    #[trigger] table_write_byte(md, blocks, offsets, base, i as nat, a) matches Some(
                        b,
                    ) ==> storage.byte_at(a) == b,
            decreases blocks.len() - i,
        {
            let offset = data_start + self.block_offsets[i];
            let ghost prev = *storage;
            let r = self.blocks[i].write(storage, offset);
            proof {
                assert forall|a: int|
                    #[trigger] table_write_byte(md, blocks, offsets, base, (i + 1) as nat, a)
                        is None implies storage.byte_at(a) == old(storage).byte_at(a) by {
                    assert(table_write_byte(md, blocks, offsets, base, i as nat, a) is None);
                }
                if r is Ok {
                    assert forall|a: int|
                        #[trigger] table_write_byte(md, blocks, offsets, base, (i + 1) as nat, a)
                            is Some implies storage.byte_at(a) == table_write_byte(
                        md,
                        blocks,
                        offsets,
                        base,
                        (i + 1) as nat,
                        a,
                    )->0 by {
                        if offset <= a < offset + BLOCK_STRIDE {
                            assert(storage.byte_at(offset + (a - offset)) == block_bytes(
                                blocks[i as int],
                            )[a - offset]);
                        } else {
                            assert(table_write_byte(md, blocks, offsets, base, i as nat, a)
                                is Some);
                        }
                    }
                }
            }
            proof {
                assert forall|a: int|
                    #[trigger] table_write_byte(md, blocks, offsets, base, blocks.len(), a) is None
                        implies storage.byte_at(a) == old(storage).byte_at(a) by {
                    lemma_write_byte_covered(md, blocks, offsets, base, blocks.len(), a);
                    assert(offsets[i as int] == offsets[i as int]);
                    if table_write_byte(md, blocks, offsets, base, i as nat, a) is Some {
                        lemma_write_byte_monotone(md, blocks, offsets, base, i as nat, blocks.len(), a);
                    }
                    assert(!(offset <= a < offset + BLOCK_STRIDE));
                    assert(prev.byte_at(a) == storage.byte_at(a));
                }
            }
            match r {
                Ok(()) => {},
                Err(e) => {
                    return Err(e);
                },
            }
            i = i + 1;
        }
        Ok(())
    }

    /// Reads the table stored at `base_offset`, checking its magic tag and
    /// every block's checksum.
    #[verifier::rlimit(100)]
    pub fn read_at<STORAGE: Storage>(storage: &mut STORAGE, base_offset: u64) -> (r: Result<
        Self,
        STORAGE::Error,
    >)
        requires
            base_offset + METADATA_SIZE <= u64::MAX,
            stored_magic_ok(old(storage), base_offset as int) ==> block_start(
                base_offset as int,
                stored_block_count(old(storage), base_offset as int),
            ) <= u64::MAX + 1,
        ensures
            forall|a: int| #[trigger] final(storage).byte_at(a) == old(storage).byte_at(a),
            final(storage).readable_end() == old(storage).readable_end(),
            r matches Ok(t) ==> table_stored_at(
                old(storage),
                base_offset as int,
                t.metadata,
                t.blocks@,
                t.block_offsets@,
            ),
            table_readable(old(storage), base_offset as int) ==> (r is Ok <==> stored_table_valid(
                old(storage),
                base_offset as int,
            )),
            table_readable(old(storage), base_offset as int) && !stored_table_valid(
                old(storage),
                base_offset as int,
            ) ==> (r matches Err(e) && (<STORAGE::Error as FromSpec<StorageError>>::obeys_from_spec()
                ==> e == <STORAGE::Error as FromSpec<StorageError>>::from_spec(StorageError::Corruption))),
    {
        let ghost s0 = *storage;
        let ghost base = base_offset as int;
        let mut metadata_bytes = [0u8; METADATA_SIZE];
        match storage.read_at(base_offset, &mut metadata_bytes) {
            Ok(()) => {},
            Err(e) => {
                return Err(e);
            },
        }
        assert(metadata_bytes@ =~= stored_metadata_bytes(&s0, base));
        let metadata = match Self::deserialize_metadata(&metadata_bytes) {
            Ok(md) => md,
            Err(e) => {
                return Err(STORAGE::Error::from(e));
            },
        };
        if metadata.magic != METADATA_MAGIC {
            return Err(STORAGE::Error::from(StorageError::Corruption));
        }
        let total_blocks = metadata.block_count as usize;
        let mut blocks: Vec<Block> = Vec::with_capacity(total_blocks);
        let mut block_offsets: Vec<u64> = Vec::with_capacity(total_blocks);
        let data_start = base_offset + METADATA_SIZE as u64;
        let mut i: usize = 0;
        while i < total_blocks
            invariant
                0 <= i <= total_blocks,
                total_blocks == metadata.block_count,
                base == base_offset as int,
                s0 == *old(storage),
                total_blocks == stored_block_count(&s0, base),
                metadata_decodes(stored_metadata_bytes(&s0, base), metadata),
                metadata.magic == METADATA_MAGIC,
                data_start == base + METADATA_SIZE,
                block_start(base, total_blocks as int) <= u64::MAX + 1,
                forall|a: int| #[trigger] storage.byte_at(a) == s0.byte_at(a),
                storage.readable_end() == s0.readable_end(),
                blocks@.len() == i,
                block_offsets@ == standard_offsets(i as nat),
                forall|k: int|
                    0 <= k < i ==> block_bytes(#[trigger] blocks@[k]) == stored_bytes(
                        &s0,
                        block_start(base, k),
                        BLOCK_STRIDE as nat,
                    ) && block_is_valid(blocks@[k]),
                forall|k: int| 0 <= k < i ==> #[trigger] stored_block_valid(&s0, base, k),
            decreases total_blocks - i,
        {
            let ghost prev = *storage;
            let rb = read_table_block(storage, base_offset, i, total_blocks);
            proof {
                assert(stored_magic_ok(old(storage), base));
                assert(stored_block_count(old(storage), base) == total_blocks);
                assert forall|a: int| #[trigger] storage.byte_at(a) == s0.byte_at(a) by {
                    assert(prev.byte_at(a) == s0.byte_at(a));
                }
                crate::storage::lemma_stored_bytes_same(&prev, &s0, block_start(base, i as int), BLOCK_STRIDE as nat);
            }
            let block = match rb {
                Ok(b) => b,
                Err(e) => {
                    return Err(e);
                },
            };
            proof {
                lemma_block_read_validity(&s0, base, i as int, block);
            }
            if !block.verify() {
                assert(!stored_block_valid(old(storage), base, i as int));
                assert(stored_block_count(old(storage), base) == total_blocks);
                assert(!stored_table_valid(old(storage), base));
                return Err(STORAGE::Error::from(StorageError::Corruption));
            }
            let ghost old_blocks = blocks@;
            blocks.push(block);
            block_offsets.push((i as u64) * BLOCK_STRIDE);
            proof {
                lemma_blocks_push(&s0, base, old_blocks, block);
                assert(block_offsets@ =~= standard_offsets((i + 1) as nat));
            }
            i = i + 1;
        }
        Ok(SSTable { metadata, blocks, block_offsets })
    }

    /// Writes the table at the start of the storage.
    pub fn write<STORAGE: Storage>(&self, storage: &mut STORAGE) -> (r: Result<(), STORAGE::Error>)
        requires
            self.block_offsets@.len() >= self.blocks@.len(),
            forall|i: int|
                0 <= i < self.blocks@.len() ==> METADATA_SIZE + #[trigger] self.block_offsets@[i]
                    + BLOCK_STRIDE <= u64::MAX + 1,
        ensures
            final(storage).readable_end() >= old(storage).readable_end(),
            final(storage).writable_end() >= old(storage).writable_end(),
            METADATA_SIZE <= old(storage).writable_end() && (forall|i: int|
                0 <= i < self.blocks@.len() ==> METADATA_SIZE + #[trigger] self.block_offsets@[i]
                    + BLOCK_STRIDE <= old(storage).writable_end()) ==> r is Ok,
            forall|a: int|
                table_write_byte(
                    self.metadata,
                    self.blocks@,
                    self.block_offsets@,
                    0,
                    self.blocks@.len(),
                    a,
                ) is None ==> #[trigger] final(storage).byte_at(a) == old(storage).byte_at(a),
            r is Ok ==> forall|a: int|
                #[trigger] table_write_byte(
                    self.metadata,
                    self.blocks@,
                    self.block_offsets@,
                    0,
                    self.blocks@.len(),
                    a,
                ) matches Some(b) ==> final(storage).byte_at(a) == b,
            r is Ok ==> METADATA_SIZE <= final(storage).readable_end(),
            r is Ok ==> forall|i: int|
                0 <= i < self.blocks@.len() ==> METADATA_SIZE + #[trigger] self.block_offsets@[i]
                    + BLOCK_STRIDE <= final(storage).readable_end(),
    {
        self.write_at(storage, 0)
    }

    /// Reads the table stored at the start of the storage.
    pub fn read<STORAGE: Storage>(storage: &mut STORAGE) -> (r: Result<Self, STORAGE::Error>)
        requires
            stored_magic_ok(old(storage), 0) ==> block_start(
                0,
                stored_block_count(old(storage), 0),
            ) <= u64::MAX + 1,
        ensures
            forall|a: int| #[trigger] final(storage).byte_at(a) == old(storage).byte_at(a),
            final(storage).readable_end() == old(storage).readable_end(),
            r matches Ok(t) ==> table_stored_at(
                old(storage),
                0,
                t.metadata,
                t.blocks@,
                t.block_offsets@,
            ),
            table_readable(old(storage), 0) ==> (r is Ok <==> stored_table_valid(old(storage), 0)),
            table_readable(old(storage), 0) && !stored_table_valid(old(storage), 0) ==> (r matches Err(e)
                && (<STORAGE::Error as FromSpec<StorageError>>::obeys_from_spec() ==> e
                == <STORAGE::Error as FromSpec<StorageError>>::from_spec(StorageError::Corruption))),
    {
        Self::read_at(storage, 0)
    }

    /// Size of the table on storage: its blocks and its metadata record.
    pub fn total_size(&self) -> (size: u64)
        requires
            self.metadata.total_size + METADATA_SIZE <= u64::MAX,
        ensures
            size == self.metadata.total_size + METADATA_SIZE,
    {
        self.metadata.total_size + METADATA_SIZE as u64
    }

    fn serialize_metadata(&self) -> (bytes: [u8; METADATA_SIZE])
        ensures
            bytes@ == metadata_bytes(self.metadata),
    {
        let md = &self.metadata;
        let mut bytes = [0u8; METADATA_SIZE];
        let ghost zero = bytes@;
        put_bytes(&mut bytes, 0, &u32_to_le(md.magic));
        put_bytes(&mut bytes, 4, &u32_to_le(md.version));
        put_bytes(&mut bytes, 8, &u32_to_le(md.id));
        put_bytes(&mut bytes, 12, &u32_to_le(md.block_count));
        put_bytes(&mut bytes, 16, &u32_to_le(md.key_count));
        put_bytes(&mut bytes, 20, &md.min_key);
        put_bytes(&mut bytes, 36, &md.max_key);
        put_bytes(&mut bytes, 52, &u64_to_le(md.total_size));
        proof {
            assert(bytes@.subrange(0, 4) =~= le32(md.magic));
            assert(bytes@.subrange(4, 8) =~= le32(md.version));
            assert(bytes@.subrange(8, 12) =~= le32(md.id));
            assert(bytes@.subrange(12, 16) =~= le32(md.block_count));
            assert(bytes@.subrange(16, 20) =~= le32(md.key_count));
            assert(bytes@.subrange(20, 36) =~= md.min_key@);
            assert(bytes@.subrange(36, 52) =~= md.max_key@);
            assert(bytes@.subrange(52, 60) =~= le64(md.total_size));
            assert(bytes@.subrange(60, 64) =~= zero.subrange(60, 64));
            assert(bytes@ =~= metadata_bytes(*md));
        }
        bytes
    }

    fn deserialize_metadata(bytes: &[u8; METADATA_SIZE]) -> (r: Result<
        SSTableMetadata,
        StorageError,
    >)
        ensures
            r matches Ok(md) && metadata_decodes(bytes@, md),
    {
        let b: &[u8] = bytes.as_slice();
        let magic = u32_from_le(b, 0);
        let version = u32_from_le(b, 4);
        let id = u32_from_le(b, 8);
        let block_count = u32_from_le(b, 12);
        let key_count = u32_from_le(b, 16);
        let mut min_key = [0u8; 16];
        let mut max_key = [0u8; 16];
        let mut i: usize = 0;
        while i < 16
            invariant
                0 <= i <= 16,
                b@ == bytes@,
                b@.len() == METADATA_SIZE,
                forall|j: int| 0 <= j < i ==> min_key@[j] == b@[20 + j],
                forall|j: int| 0 <= j < i ==> max_key@[j] == b@[36 + j],
            decreases 16 - i,
        {
            min_key[i] = b[20 + i];
            max_key[i] = b[36 + i];
            i = i + 1;
        }
        let total_size = u64_from_le(b, 52);
        assert(min_key@ =~= bytes@.subrange(20, 36));
        assert(max_key@ =~= bytes@.subrange(36, 52));
        Ok(SSTableMetadata {
            magic,
            version,
            id,
            block_count,
            key_count,
            min_key,
            max_key,
            total_size,
        })
    }

    fn find_key_in_block<'a>(block: &'a Block, key: &[u8]) -> (r: Option<&'a [u8]>)
        ensures
            match r {
                Some(v) => block_lookup(block.data@, key@) == Some(v@),
                None => block_lookup(block.data@, key@) is None,
            },
    {
        let data: &'a [u8] = block.data.as_slice();
        let key_len = key.len();
        let mut pos: usize = 0;
        while pos + 4 <= data.len()
            invariant
                data@ == block.data@,
                data@.len() == BLOCK_SIZE,
                0 <= pos <= data@.len(),
                key_len == key@.len(),
                block_lookup_from(data@, pos as int, key@) == block_lookup(data@, key@),
            decreases data@.len() - pos,
        {
            let ghost start = pos as int;
            let block_key_len = u32_from_le(data, pos) as usize;
            pos = pos + 4;
            if block_key_len > data.len() - pos {
                return None;
            }
            let key_start = pos;
            pos = pos + block_key_len;
            if 4 > data.len() - pos {
                return None;
            }
            let val_len = u32_from_le(data, pos) as usize;
            pos = pos + 4;
            if val_len > data.len() - pos {
                return None;
            }
            if block_key_len == key_len && bytes_equal(data, key_start, key) {
                let v = slice_subrange(data, pos, pos + val_len);
                return Some(v);
            }
            pos = pos + val_len;
        }
        None
    }
}

} // verus!
