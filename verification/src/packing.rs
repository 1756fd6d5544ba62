//! How a memtable's entries are packed into table blocks, and why a table
//! built that way answers every lookup as the memtable does.
use crate::encoding::{le32, lemma_le32_roundtrip, lemma_read_le32_window, read_le32};
use crate::memtable::find_value;
use crate::sstable::{block_lookup, block_lookup_from, blocks_lookup, padded_block, scan_block};
use crate::BLOCK_SIZE;
use vstd::prelude::*;

verus! {

/// The stored form of one entry: key length, key, value length, value.
pub open spec fn encode_entry(e: (Seq<u8>, Seq<u8>)) -> Seq<u8> {
    le32(e.0.len() as u32) + e.0 + le32(e.1.len() as u32) + e.1
}

/// The stored forms of `entries`, one after the other.
pub open spec fn encode_entries(entries: Seq<(Seq<u8>, Seq<u8>)>) -> Seq<u8>
    decreases entries.len(),
{
    if entries.len() == 0 {
        Seq::empty()
    } else {
        encode_entry(entries[0]) + encode_entries(entries.skip(1))
    }
}

/// An entry's stored form fits in one block.
pub open spec fn entry_fits(e: (Seq<u8>, Seq<u8>)) -> bool {
    e.0.len() + e.1.len() + 8 <= BLOCK_SIZE
}

/// Packing entries in order: the finished blocks, the block being filled,
/// and the position of the first entry in that block.  An entry goes into
/// the current block unless that would take it past `BLOCK_SIZE` bytes
/// and the block already holds something; then the block is finished and
/// the entry starts the next one.
pub open spec fn pack_blocks(entries: Seq<(Seq<u8>, Seq<u8>)>) -> (Seq<Seq<u8>>, Seq<u8>, int)
    decreases entries.len(),
{
    if entries.len() == 0 {
        (Seq::empty(), Seq::empty(), 0)
    } else {
        let (done, cur, start) = pack_blocks(entries.drop_last());
        let enc = encode_entry(entries.last());
        if cur.len() + enc.len() > BLOCK_SIZE && cur.len() > 0 {
            (done.push(cur), enc, entries.len() - 1)
        } else {
            (done, cur + enc, start)
        }
    }
}

/// The contents of the blocks a table of `entries` has, before padding.
pub open spec fn table_block_contents(entries: Seq<(Seq<u8>, Seq<u8>)>) -> Seq<Seq<u8>> {
    let (done, cur, _start) = pack_blocks(entries);
    if cur.len() > 0 {
        done.push(cur)
    } else {
        done
    }
}

/// Byte `j` of the smallest-bytes key: for each position the smallest byte
/// any key has there, `0xFF` where no key reaches.
pub open spec fn min_key_byte(entries: Seq<(Seq<u8>, Seq<u8>)>, j: int) -> u8
    decreases entries.len(),
{
    if entries.len() == 0 {
        0xFFu8
    } else {
        let m = min_key_byte(entries.drop_last(), j);
        let k = entries.last().0;
        if j < k.len() && k[j] < m {
            k[j]
        } else {
            m
        }
    }
}

/// Byte `j` of the largest-bytes key: for each position the largest byte
/// any key has there, `0` where no key reaches.
pub open spec fn max_key_byte(entries: Seq<(Seq<u8>, Seq<u8>)>, j: int) -> u8
    decreases entries.len(),
{
    if entries.len() == 0 {
        0u8
    } else {
        let m = max_key_byte(entries.drop_last(), j);
        let k = entries.last().0;
        if j < k.len() && k[j] > m {
            k[j]
        } else {
            m
        }
    }
}

/// The minimum and maximum key bytes at position `j` bound the byte at
/// `j` of every key that reaches it, each is the byte of some such key,
/// and where no key reaches `j` they are `0xFF` and `0`.
pub proof fn lemma_key_byte_bounds(entries: Seq<(Seq<u8>, Seq<u8>)>, j: int)
    requires
        0 <= j,
    ensures
        forall|i: int|
            0 <= i < entries.len() && 0 <= j < entries[i].0.len() ==> min_key_byte(entries, j)
                <= #[trigger] entries[i].0[j] <= max_key_byte(entries, j),
        (exists|i: int| 0 <= i < entries.len() && 0 <= j < #[trigger] entries[i].0.len()) ==> (exists|
            i: int,
        |
            0 <= i < entries.len() && 0 <= j < entries[i].0.len() && #[trigger] entries[i].0[j]
                == min_key_byte(entries, j)) && (exists|i: int|
            0 <= i < entries.len() && 0 <= j < entries[i].0.len() && #[trigger] entries[i].0[j]
                == max_key_byte(entries, j)),
        (forall|i: int| 0 <= i < entries.len() ==> !(0 <= j < #[trigger] entries[i].0.len()))
            ==> min_key_byte(entries, j) == 0xFF && max_key_byte(entries, j) == 0,
    decreases entries.len(),
{
    if entries.len() > 0 {
        let init = entries.drop_last();
        let last = entries.last();
        lemma_key_byte_bounds(init, j);
        assert forall|i: int| 0 <= i < init.len() implies #[trigger] init[i] == entries[i] by {}
        assert(entries[entries.len() - 1] == last);
        assert forall|i: int|
            0 <= i < entries.len() && 0 <= j < entries[i].0.len() implies min_key_byte(entries, j)
            <= #[trigger] entries[i].0[j] <= max_key_byte(entries, j) by {
            if i < init.len() {
                assert(init[i] == entries[i]);
                assert(min_key_byte(init, j) <= init[i].0[j] <= max_key_byte(init, j));
            }
        }
        if exists|i: int| 0 <= i < entries.len() && 0 <= j < #[trigger] entries[i].0.len() {
            if exists|i: int| 0 <= i < init.len() && 0 <= j < #[trigger] init[i].0.len() {
                let a = choose|i: int|
                    0 <= i < init.len() && 0 <= j < init[i].0.len() && #[trigger] init[i].0[j]
                        == min_key_byte(init, j);
                let b = choose|i: int|
                    0 <= i < init.len() && 0 <= j < init[i].0.len() && #[trigger] init[i].0[j]
                        == max_key_byte(init, j);
                assert(entries[a] == init[a]);
                assert(entries[b] == init[b]);
                if 0 <= j < last.0.len() {
                    assert(entries[entries.len() - 1].0[j] == last.0[j]);
                }
            } else {
                let w = choose|i: int| 0 <= i < entries.len() && 0 <= j < #[trigger] entries[i].0.len();
                if w < init.len() {
                    assert(init[w] == entries[w]);
                    assert(0 <= j < init[w].0.len());
                }
                assert(w == entries.len() - 1);
                assert(0 <= j < last.0.len());
                assert(entries[entries.len() - 1].0[j] == last.0[j]);
            }
        }
        if forall|i: int| 0 <= i < entries.len() ==> !(0 <= j < #[trigger] entries[i].0.len()) {
            assert forall|i: int| 0 <= i < init.len() implies !(0 <= j < #[trigger] init[i].0.len()) by {
                assert(init[i] == entries[i]);
            }
            assert(!(0 <= j < entries[entries.len() - 1].0.len()));
            assert(min_key_byte(init, j) == 0xFF && max_key_byte(init, j) == 0);
            assert(min_key_byte(entries, j) == 0xFF);
            assert(max_key_byte(entries, j) == 0);
        }
    }
}

/// Some entry's key has byte `b` at position `j`.
pub open spec fn byte_of_some_key(entries: Seq<(Seq<u8>, Seq<u8>)>, j: int, b: u8) -> bool {
    exists|i: int| 0 <= i < entries.len() && 0 <= j < entries[i].0.len() && #[trigger] entries[i].0[j] == b
}

/// For keys of `k` bytes each, the 16 minimum and maximum key bytes bound
/// every key byte by byte at each position below 16 and `k`, each bound is
/// a byte of some key, and the other positions hold `0xFF` and `0`.
pub proof fn lemma_key_range(entries: Seq<(Seq<u8>, Seq<u8>)>, k: int, mn: Seq<u8>, mx: Seq<u8>)
    requires
        forall|i: int| 0 <= i < entries.len() ==> (#[trigger] entries[i]).0.len() == k,
        mn == min_key_bytes(entries),
        mx == max_key_bytes(entries),
    ensures
        forall|i: int, j: int|
            0 <= i < entries.len() && 0 <= j < 16 && j < k ==> mn[j] <= #[trigger] entries[i].0[j]
                <= mx[j],
        forall|j: int|
            0 <= j < 16 && j < k && entries.len() > 0 ==> #[trigger] byte_of_some_key(entries, j, mn[j]),
        forall|j: int|
            0 <= j < 16 && j < k && entries.len() > 0 ==> #[trigger] byte_of_some_key(entries, j, mx[j]),
        forall|j: int| 0 <= j < 16 && (j >= k || entries.len() == 0) ==> #[trigger] mn[j] == 0xFF && mx[j] == 0,
{
    assert forall|i: int, j: int|
        0 <= i < entries.len() && 0 <= j < 16 && j < k implies mn[j] <= #[trigger] entries[i].0[j] <= mx[j] by {
        lemma_key_byte_bounds(entries, j);
        assert(entries[i].0.len() == k);
    }
    assert forall|j: int| 0 <= j < 16 && j < k && entries.len() > 0 implies #[trigger] byte_of_some_key(
        entries,
        j,
        mn[j],
    ) by {
        lemma_key_byte_bounds(entries, j);
        assert(entries[0].0.len() == k);
        assert(0 <= j < entries[0].0.len());
        let a = choose|i: int|
            0 <= i < entries.len() && 0 <= j < entries[i].0.len() && #[trigger] entries[i].0[j]
                == min_key_byte(entries, j);
        assert(entries[a].0[j] == mn[j]);
    }
    assert forall|j: int| 0 <= j < 16 && j < k && entries.len() > 0 implies #[trigger] byte_of_some_key(
        entries,
        j,
        mx[j],
    ) by {
        lemma_key_byte_bounds(entries, j);
        assert(entries[0].0.len() == k);
        assert(0 <= j < entries[0].0.len());
        let b = choose|i: int|
            0 <= i < entries.len() && 0 <= j < entries[i].0.len() && #[trigger] entries[i].0[j]
                == max_key_byte(entries, j);
        assert(entries[b].0[j] == mx[j]);
    }
    assert forall|j: int| 0 <= j < 16 && (j >= k || entries.len() == 0) implies #[trigger] mn[j] == 0xFF
        && mx[j] == 0 by {
        lemma_key_byte_bounds(entries, j);
        assert forall|i: int| 0 <= i < entries.len() implies !(0 <= j < #[trigger] entries[i].0.len()) by {
            assert(entries[i].0.len() == k);
        }
    }
}

/// The 16 per-position minimum key bytes.
pub open spec fn min_key_bytes(entries: Seq<(Seq<u8>, Seq<u8>)>) -> Seq<u8> {
    Seq::new(16, |j: int| min_key_byte(entries, j))
}

/// The 16 per-position maximum key bytes.
pub open spec fn max_key_bytes(entries: Seq<(Seq<u8>, Seq<u8>)>) -> Seq<u8> {
    Seq::new(16, |j: int| max_key_byte(entries, j))
}

/// Each block content zero-padded to a full block.
pub open spec fn padded_blocks(contents: Seq<Seq<u8>>) -> Seq<Seq<u8>> {
    contents.map_values(|b: Seq<u8>| padded_block(b))
}

/// The value `a` gives, or else the one `b` gives.
pub open spec fn or_else(a: Option<Seq<u8>>, b: Option<Seq<u8>>) -> Option<Seq<u8>> {
    match a {
        Some(v) => Some(v),
        None => b,
    }
}

/// Appending an entry appends its stored form.
pub proof fn lemma_encode_entries_push(entries: Seq<(Seq<u8>, Seq<u8>)>, e: (Seq<u8>, Seq<u8>))
    ensures
        encode_entries(entries.push(e)) == encode_entries(entries) + encode_entry(e),
    decreases entries.len(),
{
    if entries.len() == 0 {
        assert(entries.push(e).skip(1) =~= Seq::<(Seq<u8>, Seq<u8>)>::empty());
        assert(encode_entries(entries.push(e).skip(1)) =~= Seq::<u8>::empty());
        assert(entries.push(e)[0] == e);
        assert(encode_entries(entries.push(e)) =~= encode_entry(e));
    } else {
        assert(entries.push(e).skip(1) =~= entries.skip(1).push(e));
        lemma_encode_entries_push(entries.skip(1), e);
        assert(encode_entries(entries.push(e)) =~= encode_entries(entries) + encode_entry(e));
    }
}

/// Every stored form is at least 8 bytes long.
pub proof fn lemma_encode_entries_len(entries: Seq<(Seq<u8>, Seq<u8>)>)
    ensures
        entries.len() > 0 ==> encode_entries(entries).len() >= 8,
        entries.len() == 0 ==> encode_entries(entries).len() == 0,
    decreases entries.len(),
{
    if entries.len() > 0 {
        lemma_encode_entries_len(entries.skip(1));
    }
}

/// Looking `key` up in two runs of entries, one after the other.
pub proof fn lemma_find_value_concat(
    a: Seq<(Seq<u8>, Seq<u8>)>,
    b: Seq<(Seq<u8>, Seq<u8>)>,
    key: Seq<u8>,
)
    ensures
        find_value(a + b, key) == or_else(find_value(a, key), find_value(b, key)),
    decreases a.len(),
{
    if a.len() == 0 {
        assert(a + b =~= b);
    } else {
        assert((a + b)[0] == a[0]);
        assert((a + b).skip(1) =~= a.skip(1) + b);
        lemma_find_value_concat(a.skip(1), b, key);
    }
}

/// Looking `key` up in blocks with one more block at the end.
pub proof fn lemma_blocks_lookup_push(blocks: Seq<Seq<u8>>, last: Seq<u8>, key: Seq<u8>)
    ensures
        blocks_lookup(blocks.push(last), key) == or_else(
            blocks_lookup(blocks, key),
            block_lookup(last, key),
        ),
    decreases blocks.len(),
{
    if blocks.len() == 0 {
        assert(blocks.push(last).skip(1) =~= Seq::<Seq<u8>>::empty());
        assert(blocks.push(last)[0] == last);
        assert(blocks_lookup(blocks.push(last).skip(1), key) is None);
    } else {
        assert(blocks.push(last)[0] == blocks[0]);
        assert(blocks.push(last).skip(1) =~= blocks.skip(1).push(last));
        lemma_blocks_lookup_push(blocks.skip(1), last, key);
    }
}

/// Scanning over the stored form of one entry: the scan either stops at it
/// or goes on right after it.
pub proof fn lemma_scan_entry(data: Seq<u8>, pos: int, e: (Seq<u8>, Seq<u8>), key: Seq<u8>)
    requires
        0 <= pos,
        pos + encode_entry(e).len() <= data.len(),
        data.subrange(pos, pos + encode_entry(e).len()) == encode_entry(e),
        entry_fits(e),
    ensures
        block_lookup_from(data, pos, key) == if e.0 == key {
            Some(e.1)
        } else {
            block_lookup_from(data, pos + encode_entry(e).len(), key)
        },
{
    let enc = encode_entry(e);
    let kl = e.0.len() as int;
    let vl = e.1.len() as int;
    lemma_le32_roundtrip(e.0.len() as u32);
    lemma_le32_roundtrip(e.1.len() as u32);
    assert(data.subrange(pos, pos + 4) =~= enc.subrange(0, 4));
    assert(le32(e.0.len() as u32).subrange(0, 4) =~= enc.subrange(0, 4));
    lemma_read_le32_window(data, pos, le32(e.0.len() as u32), 0);
    assert(read_le32(data, pos) as int == kl);
    let p1 = pos + 4;
    let p2 = p1 + kl;
    assert(data.subrange(p2, p2 + 4) =~= enc.subrange(4 + kl, 8 + kl));
    assert(le32(e.1.len() as u32).subrange(0, 4) =~= enc.subrange(4 + kl, 8 + kl));
    lemma_read_le32_window(data, p2, le32(e.1.len() as u32), 0);
    assert(read_le32(data, p2) as int == vl);
    let p3 = p2 + 4;
    let whole = data.subrange(pos, pos + enc.len());
    assert forall|j: int| 0 <= j < kl implies data.subrange(p1, p2)[j] == e.0[j] by {
        assert(whole[4 + j] == enc[4 + j]);
        assert(enc[4 + j] == e.0[j]);
    }
    assert forall|j: int| 0 <= j < vl implies data.subrange(p3, p3 + vl)[j] == e.1[j] by {
        assert(whole[8 + kl + j] == enc[8 + kl + j]);
        assert(enc[8 + kl + j] == e.1[j]);
    }
    assert(data.subrange(p1, p2) =~= e.0);
    assert(data.subrange(p3, p3 + vl) =~= e.1);
    assert(p3 + vl == pos + enc.len());
    if e.0 == key {
        assert(scan_block(data, pos, key) == Some((p3, vl)));
    } else {
        if kl == key.len() {
            assert(data.subrange(p1, p2) != key);
        }
        assert(scan_block(data, pos, key) == scan_block(data, p3 + vl, key));
    }
}

/// Scanning over the stored forms of a run of entries finds the run's value
/// for `key`, or goes on right after the run.
pub proof fn lemma_scan_entries(
    data: Seq<u8>,
    pos: int,
    entries: Seq<(Seq<u8>, Seq<u8>)>,
    key: Seq<u8>,
)
    requires
        0 <= pos,
        pos + encode_entries(entries).len() <= data.len(),
        data.subrange(pos, pos + encode_entries(entries).len()) == encode_entries(entries),
        forall|i: int| 0 <= i < entries.len() ==> entry_fits(#[trigger] entries[i]),
    ensures
        block_lookup_from(data, pos, key) == or_else(
            find_value(entries, key),
            block_lookup_from(data, pos + encode_entries(entries).len(), key),
        ),
    decreases entries.len(),
{
    if entries.len() > 0 {
        let e = entries[0];
        let rest = entries.skip(1);
        let enc = encode_entry(e);
        let all = encode_entries(entries);
        assert(all == enc + encode_entries(rest));
        assert(data.subrange(pos, pos + enc.len()) =~= all.subrange(0, enc.len() as int));
        assert(all.subrange(0, enc.len() as int) =~= enc);
        lemma_scan_entry(data, pos, e, key);
        assert(data.subrange(pos + enc.len(), pos + enc.len() + encode_entries(rest).len())
            =~= all.subrange(enc.len() as int, all.len() as int));
        assert(all.subrange(enc.len() as int, all.len() as int) =~= encode_entries(rest));
        assert forall|i: int| 0 <= i < rest.len() implies entry_fits(#[trigger] rest[i]) by {
            assert(rest[i] == entries[i + 1]);
        }
        lemma_scan_entries(data, pos + enc.len(), rest, key);
    }
}

/// Scanning zero bytes finds nothing for a non-empty key.
pub proof fn lemma_scan_zeros(data: Seq<u8>, pos: int, key: Seq<u8>)
    requires
        0 <= pos,
        key.len() > 0,
        forall|j: int| pos <= j < data.len() ==> data[j] == 0,
    ensures
        block_lookup_from(data, pos, key) is None,
    decreases data.len() - pos,
{
    if pos + 4 <= data.len() {
        assert(read_le32(data, pos) == 0);
        if pos + 8 <= data.len() {
            assert(read_le32(data, pos + 4) == 0);
            lemma_scan_zeros(data, pos + 8, key);
        }
    }
}

/// A block holding the stored forms of a run of entries, zero-padded,
/// gives the run's value for every non-empty key.
pub proof fn lemma_block_of_entries(entries: Seq<(Seq<u8>, Seq<u8>)>, key: Seq<u8>)
    requires
        key.len() > 0,
        encode_entries(entries).len() <= BLOCK_SIZE,
        forall|i: int| 0 <= i < entries.len() ==> entry_fits(#[trigger] entries[i]),
    ensures
        block_lookup(padded_block(encode_entries(entries)), key) == find_value(entries, key),
{
    let raw = encode_entries(entries);
    let data = padded_block(raw);
    assert(data.subrange(0, raw.len() as int) =~= raw);
    lemma_scan_entries(data, 0, entries, key);
    lemma_scan_zeros(data, raw.len() as int, key);
}

/// A packing never has more blocks than entries: every finished block
/// holds at least one entry, and the current block holds something exactly
/// when an entry follows its start.
pub proof fn lemma_pack_counts(entries: Seq<(Seq<u8>, Seq<u8>)>)
    ensures
        0 <= pack_blocks(entries).2 <= entries.len(),
        pack_blocks(entries).0.len() <= pack_blocks(entries).2,
        pack_blocks(entries).1.len() > 0 <==> pack_blocks(entries).2 < entries.len(),
        table_block_contents(entries).len() <= entries.len(),
    decreases entries.len(),
{
    if entries.len() > 0 {
        lemma_pack_counts(entries.drop_last());
        let e = entries.last();
        assert(encode_entry(e).len() >= 8);
    }
}

/// The shape of a packing: where the current block starts, that it holds
/// the stored forms of the entries from there on, and that every block
/// fits.
pub proof fn lemma_pack_shape(entries: Seq<(Seq<u8>, Seq<u8>)>)
    requires
        forall|i: int| 0 <= i < entries.len() ==> entry_fits(#[trigger] entries[i]),
    ensures
        ({
            let (done, cur, start) = pack_blocks(entries);
            &&& 0 <= start <= entries.len()
            &&& done.len() <= start
            &&& (cur.len() > 0 <==> start < entries.len())
            &&& cur == encode_entries(entries.subrange(start, entries.len() as int))
            &&& cur.len() <= BLOCK_SIZE
        }),
    decreases entries.len(),
{
    if entries.len() > 0 {
        let prev = entries.drop_last();
        assert forall|i: int| 0 <= i < prev.len() implies entry_fits(#[trigger] prev[i]) by {
            assert(prev[i] == entries[i]);
        }
        lemma_pack_shape(prev);
        let (done0, cur0, start0) = pack_blocks(prev);
        let e = entries.last();
        let n = entries.len() as int;
        assert(entry_fits(entries[n - 1]));
        if cur0.len() + encode_entry(e).len() > BLOCK_SIZE && cur0.len() > 0 {
            let one = entries.subrange(n - 1, n);
            assert(one =~= Seq::<(Seq<u8>, Seq<u8>)>::empty().push(e));
            lemma_encode_entries_push(Seq::<(Seq<u8>, Seq<u8>)>::empty(), e);
            assert(encode_entries(Seq::<(Seq<u8>, Seq<u8>)>::empty()) =~= Seq::<u8>::empty());
            assert(encode_entries(one) =~= encode_entry(e));
        } else {
            assert(entries.subrange(start0, n) =~= prev.subrange(start0, n - 1).push(e));
            lemma_encode_entries_push(prev.subrange(start0, n - 1), e);
        }
    }
}

/// Padding one more block content.
pub proof fn lemma_padded_blocks_push(contents: Seq<Seq<u8>>, last: Seq<u8>)
    ensures
        padded_blocks(contents.push(last)) == padded_blocks(contents).push(padded_block(last)),
{
    assert(padded_blocks(contents.push(last)) =~= padded_blocks(contents).push(padded_block(last)));
}

/// Finishing a block whose content is the stored forms of `group`, after
/// blocks that give the value of `before`, gives blocks that give the value
/// of `before` followed by `group`.
proof fn lemma_finish_block(
    done: Seq<Seq<u8>>,
    before: Seq<(Seq<u8>, Seq<u8>)>,
    group: Seq<(Seq<u8>, Seq<u8>)>,
    key: Seq<u8>,
)
    requires
        key.len() > 0,
        blocks_lookup(padded_blocks(done), key) == find_value(before, key),
        encode_entries(group).len() <= BLOCK_SIZE,
        forall|i: int| 0 <= i < group.len() ==> entry_fits(#[trigger] group[i]),
    ensures
        blocks_lookup(padded_blocks(done.push(encode_entries(group))), key) == find_value(
            before + group,
            key,
        ),
{
    lemma_padded_blocks_push(done, encode_entries(group));
    lemma_blocks_lookup_push(padded_blocks(done), padded_block(encode_entries(group)), key);
    lemma_block_of_entries(group, key);
    lemma_find_value_concat(before, group, key);
}

/// The finished blocks of a packing give, for every non-empty key, the
/// value of the entries before the current block.
pub proof fn lemma_pack_lookup(entries: Seq<(Seq<u8>, Seq<u8>)>, key: Seq<u8>)
    requires
        key.len() > 0,
        forall|i: int| 0 <= i < entries.len() ==> entry_fits(#[trigger] entries[i]),
    ensures
        blocks_lookup(padded_blocks(pack_blocks(entries).0), key) == find_value(
            entries.take(pack_blocks(entries).2),
            key,
        ),
    decreases entries.len(),
{
    if entries.len() == 0 {
        assert(entries.take(0) =~= entries);
    } else {
        let prev = entries.drop_last();
        assert forall|i: int| 0 <= i < prev.len() implies entry_fits(#[trigger] prev[i]) by {
            assert(prev[i] == entries[i]);
        }
        lemma_pack_lookup(prev, key);
        lemma_pack_shape(prev);
        let done0 = pack_blocks(prev).0;
        let cur0 = pack_blocks(prev).1;
        let start0 = pack_blocks(prev).2;
        let e = entries.last();
        let n = entries.len() as int;
        if cur0.len() + encode_entry(e).len() > BLOCK_SIZE && cur0.len() > 0 {
            let group = prev.subrange(start0, n - 1);
            assert forall|i: int| 0 <= i < group.len() implies entry_fits(#[trigger] group[i]) by {
                assert(group[i] == entries[start0 + i]);
            }
            lemma_finish_block(done0, prev.take(start0), group, key);
            assert(entries.take(n - 1) =~= prev.take(start0) + group);
        } else {
            assert(entries.take(start0) =~= prev.take(start0));
        }
    }
}

/// A table built from `entries` whose stored forms each fit in a block
/// answers every non-empty key as the entries do: it gives the value of the
/// first entry with that key, and nothing when there is none.
pub proof fn lemma_table_lookup_matches(entries: Seq<(Seq<u8>, Seq<u8>)>, key: Seq<u8>)
    requires
        key.len() > 0,
        forall|i: int| 0 <= i < entries.len() ==> entry_fits(#[trigger] entries[i]),
    ensures
        blocks_lookup(padded_blocks(table_block_contents(entries)), key) == find_value(
            entries,
            key,
        ),
{
    lemma_pack_shape(entries);
    lemma_pack_lookup(entries, key);
    let done = pack_blocks(entries).0;
    let cur = pack_blocks(entries).1;
    let start = pack_blocks(entries).2;
    let n = entries.len() as int;
    if cur.len() > 0 {
        let group = entries.subrange(start, n);
        assert forall|i: int| 0 <= i < group.len() implies entry_fits(#[trigger] group[i]) by {
            assert(group[i] == entries[start + i]);
        }
        lemma_finish_block(done, entries.take(start), group, key);
        assert(entries =~= entries.take(start) + group);
    } else {
        assert(entries.take(start) =~= entries);
    }
}

} // verus!
