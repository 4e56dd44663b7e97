use std::io::Write;
use vstd::prelude::*;
use vstd::seq_lib::lemma_flatten_concat;
use vstd::utf8::encode_utf8;
use crate::bytes::{be16, be32, be64, le32, extend_bytes, push_be16, push_be32, push_be64, push_le32};
use crate::text::{concat_map, contains_text, lemma_concat_map_take_step, lemma_contains_at, push_str, str_chars};
use crate::xml::{xml_escape, xml_escaped};

verus! {

// ---------------------------------------------------------------- checksums

/// The running sums `(a, b)` of Adler-32 over `data`, each kept modulo 65521.
pub open spec fn adler_sums(data: Seq<u8>) -> (int, int)
    decreases data.len(),
{
    if data.len() == 0 {
        (1, 0)
    } else {
        let (a, b) = adler_sums(data.drop_last());
        let a2 = (a + data.last()) % 65521;
        (a2, (b + a2) % 65521)
    }
}

/// The Adler-32 checksum of `data`: `b * 65536 + a`.
pub open spec fn adler32_of(data: Seq<u8>) -> u32 {
    (adler_sums(data).1 * 65536 + adler_sums(data).0) as u32
}

/// Adler-32 checksum (RFC 1950).
pub fn adler32(data: &[u8]) -> (r: u32)
    ensures
        r == adler32_of(data@),
{
    let mut a: u32 = 1;
    let mut b: u32 = 0;
    let n = data.len();
    for i in 0..n
        invariant
            n == data@.len(),
            a < 65521,
            b < 65521,
            (a as int, b as int) == adler_sums(data@.take(i as int)),
    {
        let byte = data[i];
        assert(data@.take(i + 1).drop_last() =~= data@.take(i as int));
        a = (a + byte as u32) % 65521;
        b = (b + a) % 65521;
    }
    assert(data@.take(n as int) =~= data@);
    assert((b << 16u32) | a == b * 65536 + a) by (bit_vector)
        requires
            a < 65521,
            b < 65521,
    ;
    (b << 16u32) | a
}

// ---------------------------------------------------------------- header text

/// UTF-16 code units of one character, each written little-endian.
pub open spec fn utf16le_char(c: char) -> Seq<u8> {
    let v = c as u32;
    if v < 0x10000 {
        seq![v as u8, (v >> 8u32) as u8]
    } else {
        let w = (v - 0x10000) as u32;
        let hi = (0xd800 + (w >> 10u32)) as u32;
        let lo = (0xdc00 + (w & 0x3ffu32)) as u32;
        seq![hi as u8, (hi >> 8u32) as u8, lo as u8, (lo >> 8u32) as u8]
    }
}

/// UTF-16LE encoding of a character sequence.
pub open spec fn utf16le(s: Seq<char>) -> Seq<u8> {
    concat_map(s, |c: char| utf16le_char(c))
}

fn push_utf16le_char(out: &mut Vec<u8>, c: char)
    ensures
        final(out)@ == old(out)@ + utf16le_char(c),
{
    let v = c as u32;
    if v < 0x10000 {
        out.push(v as u8);
        out.push((v >> 8u32) as u8);
    } else {
        proof {
            vstd::utf8::char_is_scalar(c);
        }
        let w = v - 0x10000;
        assert(w >> 10u32 <= 0x3ff && w & 0x3ffu32 <= 0x3ff) by (bit_vector)
            requires
                w <= 0xfffff,
        ;
        let hi = 0xd800 + (w >> 10u32);
        let lo = 0xdc00 + (w & 0x3ffu32);
        out.push(hi as u8);
        out.push((hi >> 8u32) as u8);
        out.push(lo as u8);
        out.push((lo >> 8u32) as u8);
    }
    assert(final(out)@ =~= old(out)@ + utf16le_char(c));
}

/// Encodes characters as UTF-16LE.
fn encode_utf16le(cs: &Vec<char>) -> (out: Vec<u8>)
    ensures
        out@ == utf16le(cs@),
{
    let mut out: Vec<u8> = Vec::new();
    let n = cs.len();
    let ghost f = |c: char| utf16le_char(c);
    for i in 0..n
        invariant
            n == cs.len(),
            f == (|c: char| utf16le_char(c)),
            out@ == concat_map(cs@.take(i as int), f),
    {
        push_utf16le_char(&mut out, cs[i]);
        proof {
            lemma_concat_map_take_step(cs@, i as int, f);
        }
    }
    assert(cs@.take(n as int) =~= cs@);
    out
}

/// The sum of the bytes.
pub open spec fn byte_sum(data: Seq<u8>) -> int
    decreases data.len(),
{
    if data.len() == 0 {
        0
    } else {
        data[0] + byte_sum(data.drop_first())
    }
}

/// The sum of `(n - i) * data[i]` over the `n` bytes.
pub open spec fn weighted_byte_sum(data: Seq<u8>) -> int
    decreases data.len(),
{
    if data.len() == 0 {
        0
    } else {
        data.len() * data[0] + weighted_byte_sum(data.drop_first())
    }
}

proof fn lemma_sums_drop_last(data: Seq<u8>)
    requires
        data.len() > 0,
    ensures
        byte_sum(data) == byte_sum(data.drop_last()) + data.last(),
        weighted_byte_sum(data) == weighted_byte_sum(data.drop_last()) + byte_sum(data),
    decreases data.len(),
{
    if data.len() > 1 {
        let r = data.drop_first();
        lemma_sums_drop_last(r);
        assert(r.drop_last() =~= data.drop_last().drop_first());
        assert(data.len() * data[0] == (data.len() - 1) * data[0] + data[0]) by (nonlinear_arith);
    } else {
        assert(data.drop_first() =~= Seq::<u8>::empty());
        assert(data.drop_last() =~= Seq::<u8>::empty());
    }
}

/// Adler-32 in closed form (RFC 1950): the low half is one plus the sum of the
/// bytes, the high half is the length plus the sum of each byte times the number
/// of bytes from it to the end, both modulo 65521.
pub proof fn lemma_adler32_closed_form(data: Seq<u8>)
    ensures
        adler_sums(data).0 == (1 + byte_sum(data)) % 65521,
        adler_sums(data).1 == (data.len() + weighted_byte_sum(data)) % 65521,
        adler32_of(data) as int == ((data.len() + weighted_byte_sum(data)) % 65521) * 65536 + (1
            + byte_sum(data)) % 65521,
    decreases data.len(),
{
    if data.len() > 0 {
        let p = data.drop_last();
        lemma_adler32_closed_form(p);
        lemma_sums_drop_last(data);
        let m: int = 65521;
        vstd::arithmetic::div_mod::lemma_add_mod_noop(1 + byte_sum(p), data.last() as int, m);
        vstd::arithmetic::div_mod::lemma_small_mod(data.last() as nat, m as nat);
        vstd::arithmetic::div_mod::lemma_add_mod_noop(
            p.len() + weighted_byte_sum(p),
            1 + byte_sum(data),
            m,
        );
    }
    let a = adler_sums(data).0;
    let b = adler_sums(data).1;
    assert(0 <= a < 65521 && 0 <= b < 65521);
    assert(b * 65536 + a < 0x1_0000_0000);
}

// ---------------------------------------------------------------- compression

/// The zlib stream (default compression level) that `flate2`'s `ZlibEncoder`
/// writes for `data`.
pub uninterp spec fn zlib_compressed(data: Seq<u8>) -> Seq<u8>;

/// Compresses `data` into a zlib stream with `flate2::write::ZlibEncoder` at
/// `Compression::default()`.  Claimed: the result is the stream that encoder
/// produces for `data`, a function of `data` alone.  Writing into a `Vec` does
/// not fail, so the encoder's errors are not looked at.
#[verifier::external_body]
fn zlib_compress(data: &[u8]) -> (out: Vec<u8>)
    ensures
        out@ == zlib_compressed(data@),
{
    let mut enc = flate2::write::ZlibEncoder::new(Vec::new(), flate2::Compression::default());
    let _ = enc.write_all(data);
    enc.finish().unwrap_or_default()
}

/// An MDX block: compression type 2 (zlib) as a little-endian `u32`, the Adler-32
/// of the uncompressed bytes big-endian, then the zlib stream.
pub open spec fn mdx_block(decomp: Seq<u8>) -> Seq<u8> {
    le32(2) + be32(adler32_of(decomp)) + zlib_compressed(decomp)
}

/// MDX block format: [u32 LE: 2 (zlib)] [u32 BE: adler32 of decomp] [zlib data]
pub fn compress_block(decomp: &[u8]) -> (out: Vec<u8>)
    ensures
        out@ == mdx_block(decomp@),
{
    let mut out: Vec<u8> = Vec::new();
    push_le32(&mut out, 2);
    let adler = adler32(decomp);
    push_be32(&mut out, adler);
    let mut z = zlib_compress(decomp);
    out.append(&mut z);
    out
}

// ---------------------------------------------------------------- blocks

/// Upper bound on the uncompressed bytes of a key block.
pub const KEY_BLOCK_SZ: usize = 32768;

/// Upper bound on the uncompressed bytes of a record block.
pub const REC_BLOCK_SZ: usize = 65536;

/// Items packed greedily into blocks, in order: each item joins the current block,
/// except that a new block is started before an item that would take a non-empty
/// current block past `limit` bytes.  Each block is given as its list of items.
pub open spec fn pack_blocks(items: Seq<Seq<u8>>, limit: int) -> Seq<Seq<Seq<u8>>>
    decreases items.len(),
{
    if items.len() == 0 {
        seq![]
    } else {
        let g = pack_blocks(items.drop_last(), limit);
        let it = items.last();
        if g.len() == 0 {
            seq![seq![it]]
        } else if g.last().flatten().len() + it.len() > limit && g.last().flatten().len() > 0 {
            g.push(seq![it])
        } else {
            g.update(g.len() - 1, g.last().push(it))
        }
    }
}

/// One packing step, as the loops that build blocks take it.
pub proof fn lemma_pack_step(items: Seq<Seq<u8>>, i: int, limit: int)
    requires
        0 <= i < items.len(),
    ensures
        ({
            let g = pack_blocks(items.take(i), limit);
            let it = items[i];
            pack_blocks(items.take(i + 1), limit) == if g.len() == 0 {
                seq![seq![it]]
            } else if g.last().flatten().len() + it.len() > limit && g.last().flatten().len()
                > 0 {
                g.push(seq![it])
            } else {
                g.update(g.len() - 1, g.last().push(it))
            }
        }),
        pack_blocks(items.take(i + 1), limit).len() > 0,
{
    assert(items.take(i + 1).drop_last() =~= items.take(i));
    assert(items.take(i + 1).last() == items[i]);
}

/// The blocks after one more item: either a new block holding just that item, or
/// the last block extended by it.
pub proof fn lemma_pack_after_step(items: Seq<Seq<u8>>, i: int, limit: int)
    requires
        0 <= i < items.len(),
    ensures
        ({
            let g = pack_blocks(items.take(i), limit);
            let h = pack_blocks(items.take(i + 1), limit);
            let it = items[i];
            if g.len() == 0 || (g.last().flatten().len() + it.len() > limit
                && g.last().flatten().len() > 0) {
                &&& h.len() == g.len() + 1
                &&& h.take(g.len() as int) == g
                &&& h.last() == seq![it]
                &&& h.last().flatten() == it
            } else {
                &&& h.len() == g.len()
                &&& h.take(g.len() - 1) == g.take(g.len() - 1)
                &&& h.last() == g.last().push(it)
                &&& h.last().flatten() == g.last().flatten() + it
            }
        }),
{
    lemma_pack_step(items, i, limit);
    let g = pack_blocks(items.take(i), limit);
    let h = pack_blocks(items.take(i + 1), limit);
    let it = items[i];
    seq![it].lemma_flatten_singleton();
    if g.len() == 0 || (g.last().flatten().len() + it.len() > limit && g.last().flatten().len()
        > 0) {
        assert(h.take(g.len() as int) =~= g);
    } else {
        assert(h.take(g.len() - 1) =~= g.take(g.len() - 1));
        g.last().lemma_flatten_push(it);
    }
}

/// There are never more blocks than items.
pub proof fn lemma_pack_blocks_count(items: Seq<Seq<u8>>, limit: int)
    ensures
        pack_blocks(items, limit).len() <= items.len(),
        items.len() > 0 ==> pack_blocks(items, limit).len() > 0,
    decreases items.len(),
{
    if items.len() > 0 {
        lemma_pack_blocks_count(items.drop_last(), limit);
    }
}

/// Every item lands in exactly one block, in order: the blocks, joined, are the items.
pub proof fn lemma_pack_blocks_partition(items: Seq<Seq<u8>>, limit: int)
    ensures
        pack_blocks(items, limit).flatten() == items,
        forall|k: int|
            0 <= k < pack_blocks(items, limit).len() ==> #[trigger] pack_blocks(
                items,
                limit,
            )[k].len() > 0,
    decreases items.len(),
{
    if items.len() > 0 {
        let rest = items.drop_last();
        let g = pack_blocks(rest, limit);
        let it = items.last();
        lemma_pack_blocks_partition(rest, limit);
        if g.len() == 0 {
            assert(seq![seq![it]].flatten() =~= seq![it]) by {
                seq![seq![it]].lemma_flatten_singleton();
            }
            assert(rest =~= Seq::<Seq<u8>>::empty()) by {
                if rest.len() > 0 {
                    assert(g.flatten().len() == 0);
                }
            }
            assert(items =~= seq![it]);
        } else if g.last().flatten().len() + it.len() > limit && g.last().flatten().len() > 0 {
            g.lemma_flatten_push(seq![it]);
            assert(items =~= rest.push(it));
        } else {
            let h = g.update(g.len() - 1, g.last().push(it));
            assert(g =~= g.drop_last().push(g.last()));
            assert(h =~= g.drop_last().push(g.last().push(it)));
            g.drop_last().lemma_flatten_push(g.last());
            g.drop_last().lemma_flatten_push(g.last().push(it));
            g.last().lemma_flatten_push(it);
            assert(items =~= rest.push(it));
        }
    }
}

/// Each item of a block is one of the packed items.
pub proof fn lemma_pack_item_is_input(items: Seq<Seq<u8>>, limit: int, k: int, j: int)
    requires
        0 <= k < pack_blocks(items, limit).len(),
        0 <= j < pack_blocks(items, limit)[k].len(),
    ensures
        items.contains(pack_blocks(items, limit)[k][j]),
    decreases items.len(),
{
    let rest = items.drop_last();
    let g = pack_blocks(rest, limit);
    let it = items.last();
    let h = pack_blocks(items, limit);
    if g.len() == 0 {
        assert(h[k][j] == it);
        assert(items[items.len() - 1] == it);
    } else if k < g.len() && !(k == g.len() - 1 && j == g[k].len() && h.len() == g.len()) {
        if h.len() == g.len() && k == g.len() - 1 {
            assert(h[k] == g[k].push(it));
        } else {
            assert(h[k] == g[k]);
        }
        lemma_pack_item_is_input(rest, limit, k, j);
        let w = choose|w: int| 0 <= w < rest.len() && rest[w] == h[k][j];
        assert(items[w] == rest[w]);
    } else {
        assert(h[k][j] == it);
        assert(items[items.len() - 1] == it);
    }
}

/// A block is closed only when the next item would take it past `limit` bytes:
/// each block but the last, together with the first item of the block after it,
/// is longer than `limit`.
pub proof fn lemma_pack_blocks_closing(items: Seq<Seq<u8>>, limit: int)
    ensures
        forall|k: int|
            0 <= k < pack_blocks(items, limit).len() - 1 ==> (#[trigger] pack_blocks(
                items,
                limit,
            )[k]).flatten().len() + pack_blocks(items, limit)[k + 1][0].len() > limit,
    decreases items.len(),
{
    if items.len() > 0 {
        let rest = items.drop_last();
        let g = pack_blocks(rest, limit);
        let it = items.last();
        let h = pack_blocks(items, limit);
        lemma_pack_blocks_closing(rest, limit);
        lemma_pack_blocks_partition(rest, limit);
        if g.len() == 0 {
        } else if g.last().flatten().len() + it.len() > limit && g.last().flatten().len() > 0 {
            assert forall|k: int| 0 <= k < h.len() - 1 implies (#[trigger] h[k]).flatten().len()
                + h[k + 1][0].len() > limit by {
                if k < g.len() - 1 {
                    assert(h[k] == g[k] && h[k + 1] == g[k + 1]);
                } else {
                    assert(h[k] == g.last() && h[k + 1] == seq![it]);
                }
            }
        } else {
            assert forall|k: int| 0 <= k < h.len() - 1 implies (#[trigger] h[k]).flatten().len()
                + h[k + 1][0].len() > limit by {
                assert(h[k] == g[k]);
                if k + 1 < g.len() - 1 {
                    assert(h[k + 1] == g[k + 1]);
                } else {
                    assert(h[k + 1] == g.last().push(it));
                    assert(h[k + 1][0] == g[k + 1][0]);
                }
            }
        }
    }
}

/// When no item is empty, a block holds at most `limit` bytes unless it is a
/// single item.
pub proof fn lemma_pack_blocks_limit(items: Seq<Seq<u8>>, limit: int)
    requires
        forall|i: int| 0 <= i < items.len() ==> #[trigger] items[i].len() > 0,
    ensures
        forall|k: int|
            0 <= k < pack_blocks(items, limit).len() ==> (#[trigger] pack_blocks(items, limit)[k]).flatten().len()
                <= limit || pack_blocks(items, limit)[k].len() == 1,
    decreases items.len(),
{
    if items.len() > 0 {
        let rest = items.drop_last();
        let g = pack_blocks(rest, limit);
        let it = items.last();
        lemma_pack_blocks_limit(rest, limit);
        let h = pack_blocks(items, limit);
        if g.len() == 0 {
            seq![seq![it]].lemma_flatten_singleton();
        } else if g.last().flatten().len() + it.len() > limit && g.last().flatten().len() > 0 {
            seq![it].lemma_flatten_singleton();
            assert forall|k: int| 0 <= k < h.len() implies (#[trigger] h[k]).flatten().len()
                <= limit || h[k].len() == 1 by {
                if k < g.len() {
                    assert(h[k] == g[k]);
                }
            }
        } else {
            g.last().lemma_flatten_push(it);
            lemma_pack_blocks_partition(rest, limit);
            assert(g.last().len() > 0);
            g.last().lemma_flatten_length_ge_single_element_length(0);
            assert(g.last()[0].len() > 0) by {
                lemma_pack_blocks_partition(rest, limit);
                lemma_pack_item_is_input(rest, limit, g.len() - 1, 0);
            }
            assert forall|k: int| 0 <= k < h.len() implies (#[trigger] h[k]).flatten().len()
                <= limit || h[k].len() == 1 by {
                if k < g.len() - 1 {
                    assert(h[k] == g[k]);
                }
            }
        }
    }
}

// ---------------------------------------------------------------- records and keys

/// The record of an entry: its body in UTF-8 followed by a NUL byte.
pub open spec fn record_items(entries: Seq<(String, String)>) -> Seq<Seq<u8>> {
    Seq::new(entries.len(), |i: int| encode_utf8(entries[i].1@).push(0u8))
}

/// Where the record of entry `i` starts in the records joined in order.
pub open spec fn record_offset(entries: Seq<(String, String)>, i: int) -> int {
    record_items(entries).take(i).flatten().len() as int
}

/// The key-block item of an entry: its record offset as a big-endian `u64`, then
/// its key in UTF-8 followed by a NUL byte.
pub open spec fn key_items(entries: Seq<(String, String)>) -> Seq<Seq<u8>> {
    Seq::new(
        entries.len(),
        |i: int| be64(record_offset(entries, i) as u64) + encode_utf8(entries[i].0@).push(0u8),
    )
}

/// The record blocks, each as its list of records.
pub open spec fn record_blocks(entries: Seq<(String, String)>) -> Seq<Seq<Seq<u8>>> {
    pack_blocks(record_items(entries), REC_BLOCK_SZ as int)
}

/// The key blocks, each as its list of key items.
pub open spec fn key_blocks(entries: Seq<(String, String)>) -> Seq<Seq<Seq<u8>>> {
    pack_blocks(key_items(entries), KEY_BLOCK_SZ as int)
}

/// A block of items, joined and compressed.
pub open spec fn compressed_block(g: Seq<Seq<u8>>) -> Seq<u8> {
    mdx_block(g.flatten())
}

/// The record block index entry: compressed size, then uncompressed size, both
/// big-endian `u64`.
pub open spec fn record_index_entry(g: Seq<Seq<u8>>) -> Seq<u8> {
    be64(compressed_block(g).len() as u64) + be64(g.flatten().len() as u64)
}

/// The key block index entry: number of keys, length and bytes of the first and
/// of the last key (each with its NUL), compressed size, and 0 for the
/// uncompressed size.
pub open spec fn key_index_entry(g: Seq<Seq<u8>>) -> Seq<u8> {
    be64(g.len() as u64) + be16((g[0].len() - 9) as u16) + g[0].skip(8) + be16(
        (g.last().len() - 9) as u16,
    ) + g.last().skip(8) + be64(compressed_block(g).len() as u64) + be64(0)
}

/// Record and key data fit in memory.
pub open spec fn mdx_fits(entries: Seq<(String, String)>) -> bool {
    &&& record_items(entries).flatten().len() <= usize::MAX
    &&& key_items(entries).flatten().len() <= usize::MAX
}

proof fn lemma_take_flatten_step(items: Seq<Seq<u8>>, i: int)
    requires
        0 <= i < items.len(),
    ensures
        items.take(i + 1).flatten() == items.take(i).flatten() + items[i],
        items.take(i + 1).flatten().len() <= items.flatten().len(),
{
    assert(items.take(i + 1) =~= items.take(i).push(items[i]));
    items.take(i).lemma_flatten_push(items[i]);
    assert(items =~= items.take(i + 1) + items.skip(i + 1));
    lemma_flatten_concat(items.take(i + 1), items.skip(i + 1));
}

/// The record stage: record offsets, the compressed record blocks joined, and the
/// record block index.
fn build_records(entries: &[(String, String)]) -> (r: (Vec<u64>, Vec<u8>, Vec<u8>, usize))
    requires
        mdx_fits(entries@),
    ensures
        r.0@ == Seq::new(entries@.len(), |i: int| record_offset(entries@, i) as u64),
        r.1@ == concat_map(record_blocks(entries@), |g: Seq<Seq<u8>>| compressed_block(g)),
        r.2@ == concat_map(record_blocks(entries@), |g: Seq<Seq<u8>>| record_index_entry(g)),
        r.3 == record_blocks(entries@).len(),
{
    let ghost items = record_items(entries@);
    let ghost lim = REC_BLOCK_SZ as int;
    let ghost fblock = |g: Seq<Seq<u8>>| compressed_block(g);
    let ghost fidx = |g: Seq<Seq<u8>>| record_index_entry(g);
    let n = entries.len();
    let mut offsets: Vec<u64> = Vec::new();
    let mut data: Vec<u8> = Vec::new();
    let mut index: Vec<u8> = Vec::new();
    let mut nblocks: usize = 0;
    let mut buf: Vec<u8> = Vec::new();
    let mut off: usize = 0;
    assert(items.take(0).flatten() =~= Seq::<u8>::empty());
    for i in 0..n
        invariant
            n == entries@.len() == items.len(),
            items == record_items(entries@),
            lim == REC_BLOCK_SZ as int,
            fblock == (|g: Seq<Seq<u8>>| compressed_block(g)),
            fidx == (|g: Seq<Seq<u8>>| record_index_entry(g)),
            mdx_fits(entries@),
            off == items.take(i as int).flatten().len(),
            buf@.len() <= off,
            offsets@ == Seq::new(i as nat, |j: int| record_offset(entries@, j) as u64),
            i == 0 ==> buf@.len() == 0 && nblocks == 0,
            nblocks <= i,
            i > 0 ==> buf@.len() > 0,
            i > 0 ==> pack_blocks(items.take(i as int), lim).len() == nblocks + 1 && buf@
                == pack_blocks(items.take(i as int), lim).last().flatten(),
            data@ == concat_map(pack_blocks(items.take(i as int), lim).take(nblocks as int), fblock),
            index@ == concat_map(pack_blocks(items.take(i as int), lim).take(nblocks as int), fidx),
    {
        let b = entries[i].1.as_str().as_bytes();
        proof {
            lemma_take_flatten_step(items, i as int);
            lemma_pack_step(items, i as int, lim);
            assert(items[i as int] == b@.push(0u8));
        }
        let ghost g = pack_blocks(items.take(i as int), lim);
        proof {
            lemma_pack_blocks_count(items.take(i as int), lim);
        }
        let elen = b.len() + 1;
        if buf.len() + elen > REC_BLOCK_SZ && !buf.is_empty() {
            let c = compress_block(buf.as_slice());
            push_be64(&mut index, c.len() as u64);
            push_be64(&mut index, buf.len() as u64);
            extend_bytes(&mut data, c.as_slice());
            proof {
                assert(g.take(nblocks + 1) =~= g.take(nblocks as int).push(g.last()));
                lemma_concat_map_take_step(g, nblocks as int, fblock);
                lemma_concat_map_take_step(g, nblocks as int, fidx);
                assert(g.take(nblocks + 1) =~= g);
                assert(data@ == concat_map(g, fblock));
                assert(index@ == concat_map(g, fidx));
            }
            nblocks = nblocks + 1;
            buf.clear();
        }
        offsets.push(off as u64);
        extend_bytes(&mut buf, b);
        buf.push(0);
        off = off + elen;
        proof {
            let h = pack_blocks(items.take(i + 1), lim);
            if i > 0 && h.len() == g.len() {
                g.last().lemma_flatten_push(items[i as int]);
                assert(h.take(nblocks as int) =~= g.take(nblocks as int));
            }
            if i == 0 {
                seq![items[0]].lemma_flatten_singleton();
                assert(h.take(0) =~= g.take(0));
            }
            if i > 0 && h.len() != g.len() {
                seq![items[i as int]].lemma_flatten_singleton();
                assert(h.take(nblocks as int) =~= g);
                assert(data@ == concat_map(h.take(nblocks as int), fblock));
            }
            assert(offsets@ =~= Seq::new((i + 1) as nat, |j: int| record_offset(entries@, j) as u64));
        }
    }
    let ghost g = pack_blocks(items, lim);
    assert(items.take(n as int) =~= items);
    proof {
        lemma_pack_blocks_count(items, lim);
    }
    if !buf.is_empty() {
        let c = compress_block(buf.as_slice());
        push_be64(&mut index, c.len() as u64);
        push_be64(&mut index, buf.len() as u64);
        extend_bytes(&mut data, c.as_slice());
        proof {
            assert(g.take(nblocks + 1) =~= g.take(nblocks as int).push(g.last()));
            lemma_concat_map_take_step(g, nblocks as int, fblock);
            lemma_concat_map_take_step(g, nblocks as int, fidx);
        }
        nblocks = nblocks + 1;
    }
    proof {
        if n > 0 {
            assert(g.take(nblocks as int) =~= g);
        } else {
            assert(g.take(0) =~= g);
        }
    }
    (offsets, data, index, nblocks)
}

/// Closes a key block: appends its compressed bytes to `data` and its index entry
/// to `index`.
fn flush_key_block(
    data: &mut Vec<u8>,
    index: &mut Vec<u8>,
    buf: &Vec<u8>,
    n_in_block: usize,
    first_key: &Vec<u8>,
    last_key: &Vec<u8>,
    Ghost(g): Ghost<Seq<Seq<Seq<u8>>>>,
    Ghost(k): Ghost<int>,
)
    requires
        0 <= k < g.len(),
        g[k].len() > 0,
        buf@ == g[k].flatten(),
        n_in_block == g[k].len(),
        first_key@ == g[k][0].skip(8),
        last_key@ == g[k].last().skip(8),
        g[k][0].len() >= 9,
        g[k].last().len() >= 9,
        old(data)@ == concat_map(g.take(k), |b: Seq<Seq<u8>>| compressed_block(b)),
        old(index)@ == concat_map(g.take(k), |b: Seq<Seq<u8>>| key_index_entry(b)),
    ensures
        final(data)@ == concat_map(g.take(k + 1), |b: Seq<Seq<u8>>| compressed_block(b)),
        final(index)@ == concat_map(g.take(k + 1), |b: Seq<Seq<u8>>| key_index_entry(b)),
{
    let c = compress_block(buf.as_slice());
    push_be64(index, n_in_block as u64);
    push_be16(index, (first_key.len() - 1) as u16);
    extend_bytes(index, first_key.as_slice());
    push_be16(index, (last_key.len() - 1) as u16);
    extend_bytes(index, last_key.as_slice());
    push_be64(index, c.len() as u64);
    push_be64(index, 0);
    extend_bytes(data, c.as_slice());
    proof {
        let fblock = |b: Seq<Seq<u8>>| compressed_block(b);
        let fidx = |b: Seq<Seq<u8>>| key_index_entry(b);
        assert(index@ =~= concat_map(g.take(k), fidx) + key_index_entry(g[k]));
        lemma_concat_map_take_step(g, k, fblock);
        lemma_concat_map_take_step(g, k, fidx);
    }
}

/// The key stage: the compressed key blocks joined, the uncompressed key block
/// index, and the number of key blocks.
fn build_keys(entries: &[(String, String)], offsets: &Vec<u64>) -> (r: (Vec<u8>, Vec<u8>, usize))
    requires
        mdx_fits(entries@),
        offsets@ == Seq::new(entries@.len(), |i: int| record_offset(entries@, i) as u64),
    ensures
        r.0@ == concat_map(key_blocks(entries@), |g: Seq<Seq<u8>>| compressed_block(g)),
        r.1@ == concat_map(key_blocks(entries@), |g: Seq<Seq<u8>>| key_index_entry(g)),
        r.2 == key_blocks(entries@).len(),
{
    let ghost items = key_items(entries@);
    let ghost lim = KEY_BLOCK_SZ as int;
    let ghost fblock = |g: Seq<Seq<u8>>| compressed_block(g);
    let ghost fidx = |g: Seq<Seq<u8>>| key_index_entry(g);
    let n = entries.len();
    let mut data: Vec<u8> = Vec::new();
    let mut index: Vec<u8> = Vec::new();
    let mut nblocks: usize = 0;
    let mut buf: Vec<u8> = Vec::new();
    let mut n_in_block: usize = 0;
    let mut first_key: Vec<u8> = Vec::new();
    let mut last_key: Vec<u8> = Vec::new();
    let ghost mut used: int = 0;
    assert(items.take(0).flatten() =~= Seq::<u8>::empty());
    for i in 0..n
        invariant
            n == entries@.len() == items.len() == offsets@.len(),
            items == key_items(entries@),
            offsets@ == Seq::new(entries@.len(), |i: int| record_offset(entries@, i) as u64),
            lim == KEY_BLOCK_SZ as int,
            fblock == (|g: Seq<Seq<u8>>| compressed_block(g)),
            fidx == (|g: Seq<Seq<u8>>| key_index_entry(g)),
            mdx_fits(entries@),
            used == items.take(i as int).flatten().len(),
            buf@.len() <= used,
            i == 0 ==> buf@.len() == 0 && nblocks == 0,
            nblocks <= i,
            n_in_block <= i,
            i > 0 ==> buf@.len() > 0,
            i > 0 ==> ({
                let g = pack_blocks(items.take(i as int), lim);
                &&& g.len() == nblocks + 1
                &&& buf@ == g.last().flatten()
                &&& n_in_block == g.last().len()
                &&& g.last().len() > 0
                &&& first_key@ == g.last()[0].skip(8)
                &&& last_key@ == g.last().last().skip(8)
                &&& g.last()[0].len() >= 9
                &&& g.last().last().len() >= 9
            }),
            data@ == concat_map(pack_blocks(items.take(i as int), lim).take(nblocks as int), fblock),
            index@ == concat_map(pack_blocks(items.take(i as int), lim).take(nblocks as int), fidx),
    {
        let k = entries[i].0.as_str().as_bytes();
        let ghost item = items[i as int];
        proof {
            lemma_take_flatten_step(items, i as int);
            lemma_pack_after_step(items, i as int, lim);
            lemma_pack_blocks_count(items.take(i as int), lim);
            assert(item == be64(offsets@[i as int]) + k@.push(0u8));
        }
        let ghost g = pack_blocks(items.take(i as int), lim);
        let ghost h = pack_blocks(items.take(i + 1), lim);
        let elen = 8 + k.len() + 1;
        if buf.len() + elen > KEY_BLOCK_SZ && !buf.is_empty() {
            flush_key_block(&mut data, &mut index, &buf, n_in_block, &first_key, &last_key, Ghost(g), Ghost(nblocks as int));
            nblocks = nblocks + 1;
            buf.clear();
            n_in_block = 0;
        }
        let mut this_key: Vec<u8> = Vec::new();
        extend_bytes(&mut this_key, k);
        this_key.push(0);
        assert(this_key@ =~= item.skip(8));
        if n_in_block == 0 {
            first_key = this_key.clone();
            assert(first_key@ == this_key@);
        }
        last_key = this_key;
        push_be64(&mut buf, offsets[i]);
        extend_bytes(&mut buf, k);
        buf.push(0);
        n_in_block = n_in_block + 1;
        proof {
            used = used + elen;
            assert(buf@.len() > 0);
            if h.len() == g.len() {
                assert(buf@ =~= g.last().flatten() + item);
                assert(h.take(nblocks as int) == g.take(nblocks as int));
            } else {
                assert(buf@ =~= item);
                assert(g.take(g.len() as int) =~= g);
                assert(h.take(0) =~= g.take(0));
            }
        }
    }
    let ghost g = pack_blocks(items, lim);
    assert(items.take(n as int) =~= items);
    proof {
        lemma_pack_blocks_count(items, lim);
    }
    if !buf.is_empty() {
        flush_key_block(&mut data, &mut index, &buf, n_in_block, &first_key, &last_key, Ghost(g), Ghost(nblocks as int));
        nblocks = nblocks + 1;
    }
    proof {
        assert(g.take(nblocks as int) =~= g);
    }
    (data, index, nblocks)
}

// ---------------------------------------------------------------- the file

/// The dictionary header: an XML element naming the format, the description and
/// the title, ended by CR LF and a NUL character.
pub open spec fn mdx_header_text(title: Seq<char>, description: Seq<char>) -> Seq<char> {
    "<Dictionary GeneratedByEngineVersion=\"2.0\" RequiredEngineVersion=\"2.0\" Encrypted=\"No\" Encoding=\"UTF-8\" Format=\"Html\" Stripkey=\"Yes\" CreationDate=\"2026-07-04\" Compact=\"Yes\" Compat=\"Yes\" KeyCaseSensitive=\"No\" Description=\""@
        + xml_escaped(description) + "\" Title=\""@ + xml_escaped(title)
        + "\" DataSourceFormat=\"106\" StyleSheet=\"\" Left2Right=\"Yes\" RegisterBy=\"\" />\r\n\x00"@
}

/// The header declares the encoding of what the file stores (`key_items` and
/// `record_items` write keys and bodies in UTF-8): it is a `<Dictionary` element
/// that holds `Encoding="UTF-8"` and the other fixed attributes, the description
/// and the title escaped for XML, and ends with ` />`, CR LF and a NUL.
pub proof fn lemma_mdx_header_attributes(title: Seq<char>, description: Seq<char>)
    ensures
        ({
            let h = mdx_header_text(title, description);
            &&& "<Dictionary "@.is_prefix_of(h)
            &&& contains_text(h, "GeneratedByEngineVersion=\"2.0\""@)
            &&& contains_text(h, "RequiredEngineVersion=\"2.0\""@)
            &&& contains_text(h, "Encrypted=\"No\""@)
            &&& contains_text(h, "Encoding=\"UTF-8\""@)
            &&& contains_text(h, "Description=\""@ + xml_escaped(description) + "\""@)
            &&& contains_text(h, "Title=\""@ + xml_escaped(title) + "\""@)
            &&& contains_text(h, "Format=\"Html\""@)
            &&& contains_text(h, "Stripkey=\"Yes\""@)
            &&& contains_text(h, "CreationDate=\"2026-07-04\""@)
            &&& contains_text(h, "Compact=\"Yes\""@)
            &&& contains_text(h, "Compat=\"Yes\""@)
            &&& contains_text(h, "KeyCaseSensitive=\"No\""@)
            &&& contains_text(h, "DataSourceFormat=\"106\""@)
            &&& contains_text(h, "StyleSheet=\"\""@)
            &&& contains_text(h, "Left2Right=\"Yes\""@)
            &&& contains_text(h, "RegisterBy=\"\""@)
            &&& " />\r\n\x00"@.is_suffix_of(h)
        }),
{
    reveal_strlit("<Dictionary GeneratedByEngineVersion=\"2.0\" RequiredEngineVersion=\"2.0\" Encrypted=\"No\" Encoding=\"UTF-8\" Format=\"Html\" Stripkey=\"Yes\" CreationDate=\"2026-07-04\" Compact=\"Yes\" Compat=\"Yes\" KeyCaseSensitive=\"No\" Description=\"");
    reveal_strlit("\" Title=\"");
    reveal_strlit("\" DataSourceFormat=\"106\" StyleSheet=\"\" Left2Right=\"Yes\" RegisterBy=\"\" />\r\n\x00");
    reveal_strlit("<Dictionary ");
    reveal_strlit(" />\r\n\x00");
    reveal_strlit("Description=\"");
    reveal_strlit("Title=\"");
    reveal_strlit("\"");
    let h = mdx_header_text(title, description);
    let d = xml_escaped(description);
    let t = xml_escaped(title);
    let l1 = "<Dictionary GeneratedByEngineVersion=\"2.0\" RequiredEngineVersion=\"2.0\" Encrypted=\"No\" Encoding=\"UTF-8\" Format=\"Html\" Stripkey=\"Yes\" CreationDate=\"2026-07-04\" Compact=\"Yes\" Compat=\"Yes\" KeyCaseSensitive=\"No\" Description=\""@;
    let l2 = "\" Title=\""@;
    let l3 = "\" DataSourceFormat=\"106\" StyleSheet=\"\" Left2Right=\"Yes\" RegisterBy=\"\" />\r\n\x00"@;
    assert(h =~= l1 + d + l2 + t + l3);
    assert(l1.len() == 220 && l2.len() == 9 && l3.len() == 75);
    let e: int = 220int + d.len() + 9 + t.len();
    assert("<Dictionary "@ =~= h.subrange(0, 12));
    reveal_strlit("GeneratedByEngineVersion=\"2.0\"");
    assert(h.subrange(12, 42) =~= "GeneratedByEngineVersion=\"2.0\""@);
    lemma_contains_at(h, 12, "GeneratedByEngineVersion=\"2.0\""@);
    reveal_strlit("RequiredEngineVersion=\"2.0\"");
    assert(h.subrange(43, 70) =~= "RequiredEngineVersion=\"2.0\""@);
    lemma_contains_at(h, 43, "RequiredEngineVersion=\"2.0\""@);
    reveal_strlit("Encrypted=\"No\"");
    assert(h.subrange(71, 85) =~= "Encrypted=\"No\""@);
    lemma_contains_at(h, 71, "Encrypted=\"No\""@);
    reveal_strlit("Encoding=\"UTF-8\"");
    assert(h.subrange(86, 102) =~= "Encoding=\"UTF-8\""@);
    lemma_contains_at(h, 86, "Encoding=\"UTF-8\""@);
    reveal_strlit("Format=\"Html\"");
    assert(h.subrange(103, 116) =~= "Format=\"Html\""@);
    lemma_contains_at(h, 103, "Format=\"Html\""@);
    reveal_strlit("Stripkey=\"Yes\"");
    assert(h.subrange(117, 131) =~= "Stripkey=\"Yes\""@);
    lemma_contains_at(h, 117, "Stripkey=\"Yes\""@);
    reveal_strlit("CreationDate=\"2026-07-04\"");
    assert(h.subrange(132, 157) =~= "CreationDate=\"2026-07-04\""@);
    lemma_contains_at(h, 132, "CreationDate=\"2026-07-04\""@);
    reveal_strlit("Compact=\"Yes\"");
    assert(h.subrange(158, 171) =~= "Compact=\"Yes\""@);
    lemma_contains_at(h, 158, "Compact=\"Yes\""@);
    reveal_strlit("Compat=\"Yes\"");
    assert(h.subrange(172, 184) =~= "Compat=\"Yes\""@);
    lemma_contains_at(h, 172, "Compat=\"Yes\""@);
    reveal_strlit("KeyCaseSensitive=\"No\"");
    assert(h.subrange(185, 206) =~= "KeyCaseSensitive=\"No\""@);
    lemma_contains_at(h, 185, "KeyCaseSensitive=\"No\""@);
    reveal_strlit("DataSourceFormat=\"106\"");
    assert(h.subrange(e + 2, e + 24) =~= "DataSourceFormat=\"106\""@);
    lemma_contains_at(h, e + 2, "DataSourceFormat=\"106\""@);
    reveal_strlit("StyleSheet=\"\"");
    assert(h.subrange(e + 25, e + 38) =~= "StyleSheet=\"\""@);
    lemma_contains_at(h, e + 25, "StyleSheet=\"\""@);
    reveal_strlit("Left2Right=\"Yes\"");
    assert(h.subrange(e + 39, e + 55) =~= "Left2Right=\"Yes\""@);
    lemma_contains_at(h, e + 39, "Left2Right=\"Yes\""@);
    reveal_strlit("RegisterBy=\"\"");
    assert(h.subrange(e + 56, e + 69) =~= "RegisterBy=\"\""@);
    lemma_contains_at(h, e + 56, "RegisterBy=\"\""@);
    let dp = "Description=\""@ + d + "\""@;
    assert(h.subrange(207, 207int + dp.len()) =~= dp);
    lemma_contains_at(h, 207, dp);
    let tp = "Title=\""@ + t + "\""@;
    let k: int = 220int + d.len() + 2;
    assert(h.subrange(k, k + tp.len()) =~= tp);
    lemma_contains_at(h, k, tp);
    assert(" />\r\n\x00"@ =~= h.subrange(h.len() - 6, h.len() as int));
}

/// The header text of an MDX dictionary.
pub fn mdx_header(title: &str, description: &str) -> (res: String)
    ensures
        res@ == mdx_header_text(title@, description@),
{
    let mut h = String::new();
    push_str(
        &mut h,
        "<Dictionary GeneratedByEngineVersion=\"2.0\" RequiredEngineVersion=\"2.0\" Encrypted=\"No\" Encoding=\"UTF-8\" Format=\"Html\" Stripkey=\"Yes\" CreationDate=\"2026-07-04\" Compact=\"Yes\" Compat=\"Yes\" KeyCaseSensitive=\"No\" Description=\"",
    );
    let d = xml_escape(description);
    push_str(&mut h, d.as_str());
    push_str(&mut h, "\" Title=\"");
    let t = xml_escape(title);
    push_str(&mut h, t.as_str());
    push_str(
        &mut h,
        "\" DataSourceFormat=\"106\" StyleSheet=\"\" Left2Right=\"Yes\" RegisterBy=\"\" />\r\n\x00",
    );
    h
}

/// The key section header: number of key blocks, number of entries, size of the
/// key block index uncompressed and compressed, and total size of the key blocks,
/// each a big-endian `u64`.
pub open spec fn key_section_header(entries: Seq<(String, String)>) -> Seq<u8> {
    let kb = key_blocks(entries);
    let kidx = concat_map(kb, |g: Seq<Seq<u8>>| key_index_entry(g));
    be64(kb.len() as u64) + be64(entries.len() as u64) + be64(kidx.len() as u64) + be64(
        mdx_block(kidx).len() as u64,
    ) + be64(concat_map(kb, |g: Seq<Seq<u8>>| compressed_block(g)).len() as u64)
}

/// The bytes of an MDX (version 2) dictionary file holding `entries` as
/// (key, HTML body) pairs in the given order.
pub open spec fn mdx_file(title: Seq<char>, description: Seq<char>, entries: Seq<(String, String)>) -> Seq<u8> {
    let hdr = utf16le(mdx_header_text(title, description));
    let kb = key_blocks(entries);
    let rb = record_blocks(entries);
    let kidx = concat_map(kb, |g: Seq<Seq<u8>>| key_index_entry(g));
    let khead = key_section_header(entries);
    let rdata = concat_map(rb, |g: Seq<Seq<u8>>| compressed_block(g));
    be32(hdr.len() as u32) + hdr + le32(adler32_of(hdr))
        + khead + be32(adler32_of(khead)) + mdx_block(kidx)
        + concat_map(kb, |g: Seq<Seq<u8>>| compressed_block(g))
        + be64(rb.len() as u64) + be64(entries.len() as u64) + be64((16 * rb.len()) as u64)
        + be64(rdata.len() as u64)
        + concat_map(rb, |g: Seq<Seq<u8>>| record_index_entry(g)) + rdata
}

proof fn lemma_record_index_len(rb: Seq<Seq<Seq<u8>>>)
    ensures
        concat_map(rb, |g: Seq<Seq<u8>>| record_index_entry(g)).len() == 16 * rb.len(),
    decreases rb.len(),
{
    if rb.len() > 0 {
        lemma_record_index_len(rb.drop_first());
    }
}

/// Builds an MDX v2 dictionary from (key, html_body) entries, which the caller has
/// sorted, and returns the bytes of the file.
pub fn mdx_bytes(title: &str, description: &str, entries: &[(String, String)]) -> (out: Vec<u8>)
    requires
        mdx_fits(entries@),
    ensures
        out@ == mdx_file(title@, description@, entries@),
{
    let n = entries.len();
    let (offsets, rec_data, rec_index, n_rec_blocks) = build_records(entries);
    let (key_data, key_index, n_key_blocks) = build_keys(entries, &offsets);
    let key_index_comp = compress_block(key_index.as_slice());

    let header = mdx_header(title, description);
    let header_chars = str_chars(header.as_str());
    let hdr = encode_utf16le(&header_chars);
    let hdr_adler = adler32(hdr.as_slice());

    let mut out: Vec<u8> = Vec::new();
    push_be32(&mut out, hdr.len() as u32);
    extend_bytes(&mut out, hdr.as_slice());
    push_le32(&mut out, hdr_adler);

    let mut h: Vec<u8> = Vec::new();
    push_be64(&mut h, n_key_blocks as u64);
    push_be64(&mut h, n as u64);
    push_be64(&mut h, key_index.len() as u64);
    push_be64(&mut h, key_index_comp.len() as u64);
    push_be64(&mut h, key_data.len() as u64);
    let a = adler32(h.as_slice());
    extend_bytes(&mut out, h.as_slice());
    push_be32(&mut out, a);
    extend_bytes(&mut out, key_index_comp.as_slice());
    extend_bytes(&mut out, key_data.as_slice());

    proof {
        lemma_record_index_len(record_blocks(entries@));
    }
    push_be64(&mut out, n_rec_blocks as u64);
    push_be64(&mut out, n as u64);
    push_be64(&mut out, rec_index.len() as u64);
    push_be64(&mut out, rec_data.len() as u64);
    extend_bytes(&mut out, rec_index.as_slice());
    extend_bytes(&mut out, rec_data.as_slice());
    assert(h@ =~= key_section_header(entries@));
    assert(out@ =~= mdx_file(title@, description@, entries@));
    out
}

// ---------------------------------------------------------------- layout laws

proof fn lemma_flatten_of_flattened<A>(s: Seq<Seq<Seq<A>>>)
    ensures
        s.map_values(|g: Seq<Seq<A>>| g.flatten()).flatten() == s.flatten().flatten(),
    decreases s.len(),
{
    if s.len() > 0 {
        lemma_flatten_of_flattened(s.drop_first());
        assert(s.map_values(|g: Seq<Seq<A>>| g.flatten()).drop_first() =~= s.drop_first().map_values(
            |g: Seq<Seq<A>>| g.flatten(),
        ));
        assert(s.flatten() == s[0] + s.drop_first().flatten());
        lemma_flatten_concat(s[0], s.drop_first().flatten());
    }
}

/// The blocks of an MDX file hold every entry exactly once and in order: the key
/// blocks joined are the key items, the record blocks joined are the records, no
/// block passes its size limit unless it holds a single item, and a block is
/// closed only when the next entry would take it past the limit.
pub proof fn lemma_mdx_blocks_partition(entries: Seq<(String, String)>)
    ensures
        key_blocks(entries).flatten() == key_items(entries),
        record_blocks(entries).flatten() == record_items(entries),
        forall|k: int|
            0 <= k < key_blocks(entries).len() ==> (#[trigger] key_blocks(entries)[k]).flatten().len()
                <= KEY_BLOCK_SZ || key_blocks(entries)[k].len() == 1,
        forall|k: int|
            0 <= k < record_blocks(entries).len() ==> (#[trigger] record_blocks(
                entries,
            )[k]).flatten().len() <= REC_BLOCK_SZ || record_blocks(entries)[k].len() == 1,
        forall|k: int|
            0 <= k < key_blocks(entries).len() - 1 ==> (#[trigger] key_blocks(entries)[k]).flatten().len()
                + key_blocks(entries)[k + 1][0].len() > KEY_BLOCK_SZ,
        forall|k: int|
            0 <= k < record_blocks(entries).len() - 1 ==> (#[trigger] record_blocks(
                entries,
            )[k]).flatten().len() + record_blocks(entries)[k + 1][0].len() > REC_BLOCK_SZ,
{
    lemma_pack_blocks_closing(key_items(entries), KEY_BLOCK_SZ as int);
    lemma_pack_blocks_closing(record_items(entries), REC_BLOCK_SZ as int);
    lemma_pack_blocks_partition(key_items(entries), KEY_BLOCK_SZ as int);
    lemma_pack_blocks_partition(record_items(entries), REC_BLOCK_SZ as int);
    lemma_pack_blocks_limit(key_items(entries), KEY_BLOCK_SZ as int);
    lemma_pack_blocks_limit(record_items(entries), REC_BLOCK_SZ as int);
}

/// A body is found where its key points: in the uncompressed record blocks read
/// one after another, the bytes at the offset stored with entry `i`'s key are that
/// entry's body in UTF-8, followed by a NUL.
pub proof fn lemma_mdx_record_lookup(entries: Seq<(String, String)>, i: int)
    requires
        0 <= i < entries.len(),
    ensures
        ({
            let stream = record_blocks(entries).map_values(|g: Seq<Seq<u8>>| g.flatten()).flatten();
            let off = record_offset(entries, i);
            let body = encode_utf8(entries[i].1@);
            &&& key_items(entries)[i] == be64(off as u64) + encode_utf8(entries[i].0@).push(0u8)
            &&& off + body.len() < stream.len()
            &&& stream.subrange(off, off + body.len()) == body
            &&& stream[off + body.len()] == 0
        }),
{
    let items = record_items(entries);
    let rb = record_blocks(entries);
    lemma_pack_blocks_partition(items, REC_BLOCK_SZ as int);
    lemma_flatten_of_flattened(rb);
    let stream = items.flatten();
    assert(items =~= items.take(i) + (seq![items[i]] + items.skip(i + 1)));
    lemma_flatten_concat(items.take(i), seq![items[i]] + items.skip(i + 1));
    lemma_flatten_concat(seq![items[i]], items.skip(i + 1));
    seq![items[i]].lemma_flatten_singleton();
    let off = record_offset(entries, i);
    let body = encode_utf8(entries[i].1@);
    assert(items[i] == body.push(0u8));
    assert(stream.subrange(off, off + body.len()) =~= body);
}

} // verus!
