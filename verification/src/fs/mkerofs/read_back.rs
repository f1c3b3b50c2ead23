//! What the EROFS reader finds in an image that `write_image` made.
use vstd::prelude::*;
use vstd::utf8::encode_utf8;
use crate::bytes::{bytes16, bytes32, bytes64, ceil_div, le16, le32, le64, lemma_bytes16,
    lemma_bytes32, lemma_bytes64, lemma_round_up, round_up};
use crate::error::Error;
use crate::fs::erofs::{after_inode, block_size, bytes_from, compat, data_of, inode_at, inode_in,
    inode_offset, open_fault, prefixes_of, signed_time, InodeView, COMPAT_MTIME};
use crate::fs::read_range;
use crate::fs::mkerofs::layout::{block_of, data_blocks, extended, inline_tail, inode_len,
    lemma_mod_pos, lemma_next_block_mono, lemma_record, meta_end, next_block, nid_of, nlink,
    record_end, record_len, record_start, size_of, start_at, total_blocks, xattr_len, SB_END};
use crate::fs::mkerofs::{block_bits, body_len, checksum, compact_bytes, content, data_upto,
    extended_bytes, format_of, image_of, inode_bytes, lemma_block_size, lemma_content,
    lemma_meta_len, lemma_nid, lemma_ready, lemma_record_bytes, lemma_size_fits, meta_bytes,
    meta_upto, mode_of, ready, record_bytes, sb_bytes, sb_rest, supported_block_size, write_fault,
    Params, COMPAT_SB_CHKSUM, EROFS_MAGIC};
use crate::fs::mkext4::Node;
use crate::fs::tree::{items_of, Numbered};
use crate::fs::xattr::attrs_of;

verus! {

broadcast use crate::bytes::group_byte_lens;

/// A number that stands at `at` reads back.
proof fn lemma_at16(s: Seq<u8>, at: int, v: int)
    requires
        0 <= at,
        at + 2 <= s.len(),
        s.subrange(at, at + 2) == bytes16(v),
        0 <= v < 0x1_0000,
    ensures
        le16(s, at) == v,
{
    lemma_bytes16(v);
    let d = s.subrange(at, at + 2);
    assert(d[0] == s[at] && d[1] == s[at + 1]);
}

proof fn lemma_at32(s: Seq<u8>, at: int, v: int)
    requires
        0 <= at,
        at + 4 <= s.len(),
        s.subrange(at, at + 4) == bytes32(v),
        0 <= v < 0x1_0000_0000,
    ensures
        le32(s, at) == v,
{
    lemma_bytes32(v);
    let d = s.subrange(at, at + 4);
    assert(d[0] == s[at] && d[1] == s[at + 1] && d[2] == s[at + 2] && d[3] == s[at + 3]);
}

proof fn lemma_at64(s: Seq<u8>, at: int, v: int)
    requires
        0 <= at,
        at + 8 <= s.len(),
        s.subrange(at, at + 8) == bytes64(v),
        0 <= v < 0x1_0000_0000_0000_0000,
    ensures
        le64(s, at) == v,
{
    lemma_bytes64(v);
    let d = s.subrange(at, at + 8);
    assert(d[0] == s[at] && d[1] == s[at + 1] && d[2] == s[at + 2] && d[3] == s[at + 3]);
    assert(d[4] == s[at + 4] && d[5] == s[at + 5] && d[6] == s[at + 6] && d[7] == s[at + 7]);
}

/// What the law asks of an image: it could be written.
pub open spec fn writable(root: Node, p: Params) -> bool {
    &&& write_fault(root, p) is None
    &&& p.block_size != 512
}

pub proof fn lemma_writable(root: Node, p: Params)
    requires
        writable(root, p),
    ensures
        ready(root, p.block_size as int),
        1024 <= p.block_size <= 65536,
        encode_utf8(p.volume_name@).len() <= 16,
        nid_of(items_of(root), 0, p.block_size as int) <= 0xFFFF,
        total_blocks(items_of(root), p.block_size as int) <= u32::MAX,
        items_of(root).len() > 0,
{
    reveal(ready);
    lemma_block_size(p.block_size as int);
    lemma_ready(root, p.block_size as int);
}

/// The superblock fields behind the checksum.
proof fn lemma_sb_rest(items: Seq<Numbered>, p: Params)
    requires
        encode_utf8(p.volume_name@).len() <= 16,
        0 <= nid_of(items, 0, p.block_size as int) <= 0xFFFF,
        0 <= total_blocks(items, p.block_size as int) <= u32::MAX,
    ensures
        ({
            let r = sb_rest(items, p);
            let bs = p.block_size as int;
            &&& r.len() == 120
            &&& le32(r, 0) == COMPAT_SB_CHKSUM
            &&& r[4] == block_bits(bs) as u8
            &&& le16(r, 6) == nid_of(items, 0, bs)
            &&& le64(r, 16) == p.timestamp
            &&& le32(r, 28) == total_blocks(items, bs)
            &&& le32(r, 32) == 0
            &&& le32(r, 36) == 0
            &&& le32(r, 72) == 0
        }),
{
    let r = sb_rest(items, p);
    let bs = p.block_size as int;
    assert(r.subrange(0, 4) =~= bytes32(COMPAT_SB_CHKSUM as int));
    lemma_at32(r, 0, COMPAT_SB_CHKSUM as int);
    assert(r.subrange(6, 8) =~= bytes16(nid_of(items, 0, bs)));
    lemma_at16(r, 6, nid_of(items, 0, bs));
    assert(r.subrange(16, 24) =~= bytes64(p.timestamp as int));
    lemma_at64(r, 16, p.timestamp as int);
    assert(r.subrange(28, 32) =~= bytes32(total_blocks(items, bs)));
    lemma_at32(r, 28, total_blocks(items, bs));
}

pub proof fn lemma_sb_rest_len(items: Seq<Numbered>, p: Params)
    requires
        encode_utf8(p.volume_name@).len() <= 16,
    ensures
        sb_rest(items, p).len() == 120,
{
}

/// Whatever follows, the metadata before the first inode stays.
pub proof fn lemma_meta_start(root: Node, i: int, p: Params, crc: int)
    requires
        ready(root, p.block_size as int),
        encode_utf8(p.volume_name@).len() <= 16,
        0 <= i <= items_of(root).len(),
    ensures
        ({
            let m = meta_upto(items_of(root), i, p, crc);
            let start = meta_upto(items_of(root), 0, p, crc);
            &&& start.len() <= m.len()
            &&& m.take(start.len() as int) == start
        }),
    decreases i,
{
    let items = items_of(root);
    let m = meta_upto(items, i, p, crc);
    let start = meta_upto(items, 0, p, crc);
    if i > 0 {
        lemma_meta_start(root, i - 1, p, crc);
        let before = meta_upto(items, i - 1, p, crc);
        assert(m.take(start.len() as int) =~= before.take(start.len() as int));
    } else {
        assert(m.take(start.len() as int) =~= start);
    }
}

/// The superblock of the image.
pub proof fn lemma_sb(root: Node, p: Params)
    requires
        writable(root, p),
    ensures
        ({
            let img = image_of(root, p);
            let items = items_of(root);
            let bs = p.block_size as int;
            &&& img.len() >= SB_END
            &&& le32(img, 1024) == EROFS_MAGIC
            &&& le32(img, 1032) == COMPAT_SB_CHKSUM
            &&& img[1036] == block_bits(bs) as u8
            &&& le16(img, 1038) == nid_of(items, 0, bs)
            &&& le64(img, 1048) == p.timestamp
            &&& le32(img, 1060) == total_blocks(items, bs)
            &&& le32(img, 1064) == 0
            &&& le32(img, 1068) == 0
            &&& le32(img, 1104) == 0
        }),
{
    let img = image_of(root, p);
    let items = items_of(root);
    let bs = p.block_size as int;
    let crc = checksum(items, p) as int;
    lemma_writable(root, p);
    lemma_ready(root, bs);
    lemma_nid(items, 0, bs);
    lemma_next_block_mono(items, 0, items.len() as int, bs);
    lemma_record(items, items.len() as int, bs);
    lemma_round_up(meta_end(items, bs), bs);
    assert(0 <= next_block(items, 0, bs)) by {
        reveal(next_block);
    }
    lemma_sb_rest(items, p);
    lemma_meta_start(root, items.len() as int, p, crc);
    lemma_meta_len(root, 0, p, crc);
    lemma_record(items, 0, bs);
    let m = meta_upto(items, items.len() as int, p, crc);
    let start = meta_upto(items, 0, p, crc);
    let sb = sb_bytes(items, p, crc);
    let r = sb_rest(items, p);
    assert forall|k: int| 0 <= k < 120 implies #[trigger] img[1032 + k] == r[k] by {
        assert(sb[8 + k] == r[k]);
        assert(start[1032 + k] == sb[8 + k]);
        assert(m.take(start.len() as int)[1032 + k] == m[1032 + k]);
    }
    let magic = bytes32(EROFS_MAGIC as int);
    assert forall|k: int| 0 <= k < 4 implies #[trigger] img[1024 + k] == magic[k] by {
        assert(sb[k] == magic[k]);
        assert(start[1024 + k] == sb[k]);
        assert(m.take(start.len() as int)[1024 + k] == m[1024 + k]);
    }
    assert(img[1024 + 0int] == magic[0] && img[1024 + 1int] == magic[1]);
    assert(img[1024 + 2int] == magic[2] && img[1024 + 3int] == magic[3]);
    assert(img.subrange(1024, 1028) =~= magic);
    lemma_at32(img, 1024, EROFS_MAGIC as int);
    lemma_shift32(img, r, 0);
    lemma_shift32(img, r, 28);
    lemma_shift32(img, r, 32);
    lemma_shift32(img, r, 36);
    lemma_shift32(img, r, 72);
    assert(img[1032 + 4int] == r[4]);
    assert(img[1032 + 6int] == r[6] && img[1032 + 7int] == r[7]);
    lemma_shift32(img, r, 16);
    lemma_shift32(img, r, 20);
}

proof fn lemma_shift32(img: Seq<u8>, r: Seq<u8>, at: int)
    requires
        0 <= at <= 116,
        r.len() == 120,
        forall|k: int| 0 <= k < 120 ==> #[trigger] img[1032 + k] == r[k],
    ensures
        le32(img, 1032 + at) == le32(r, at),
{
    assert(img[1032 + at] == r[at]);
    assert(img[1032 + (at + 1)] == r[at + 1]);
    assert(img[1032 + (at + 2)] == r[at + 2]);
    assert(img[1032 + (at + 3)] == r[at + 3]);
}

/// The record of item `i` stands in the metadata once it is written.
proof fn lemma_record_in_meta(root: Node, i: int, j: int, p: Params, crc: int)
    requires
        ready(root, p.block_size as int),
        encode_utf8(p.volume_name@).len() <= 16,
        0 <= i < j <= items_of(root).len(),
    ensures
        ({
            let items = items_of(root);
            let bs = p.block_size as int;
            let m = meta_upto(items, j, p, crc);
            let start = record_start(items, i, bs);
            &&& 0 <= start
            &&& start + record_len(items, i, bs) <= m.len()
            &&& m.subrange(start, start + record_len(items, i, bs)) == record_bytes(
                items,
                i,
                p.timestamp as int,
                p.timestamp_nsec as int,
                bs,
            )
        }),
    decreases j,
{
    let items = items_of(root);
    let bs = p.block_size as int;
    let start = record_start(items, i, bs);
    let len = record_len(items, i, bs);
    let m = meta_upto(items, j, p, crc);
    let before = meta_upto(items, j - 1, p, crc);
    lemma_ready(root, bs);
    lemma_record(items, i, bs);
    lemma_meta_len(root, j - 1, p, crc);
    lemma_record_bytes(root, i, p.timestamp as int, p.timestamp_nsec as int, bs);
    let rec = record_bytes(items, i, p.timestamp as int, p.timestamp_nsec as int, bs);
    if i < j - 1 {
        lemma_record_in_meta(root, i, j - 1, p, crc);
        assert(m.subrange(start, start + len) =~= before.subrange(start, start + len));
    } else {
        lemma_meta_len(root, j, p, crc);
        assert(m.subrange(start, start + len) =~= rec);
    }
}

/// Whole blocks of data follow the metadata.
proof fn lemma_data_len(root: Node, i: int, bs: int)
    requires
        ready(root, bs),
        0 <= i <= items_of(root).len(),
    ensures
        data_upto(items_of(root), i, bs).len() == (next_block(items_of(root), i, bs) - next_block(
            items_of(root),
            0,
            bs,
        )) * bs,
    decreases i,
{
    let items = items_of(root);
    lemma_ready(root, bs);
    reveal(next_block);
    if i > 0 {
        lemma_data_len(root, i - 1, bs);
        lemma_content(root, i - 1, bs);
        lemma_body_blocks(items, i - 1, bs);
        let body = body_len(items, i - 1, bs);
        let n0 = next_block(items, 0, bs);
        let n1 = next_block(items, i - 1, bs);
        let d = data_blocks(items, i - 1, bs);
        lemma_round_up(body, bs);
        assert((n1 + d - n0) * bs == (n1 - n0) * bs + d * bs) by (nonlinear_arith);
    } else {
        assert(0 * bs == 0) by (nonlinear_arith);
    }
}

/// The body of an item takes its data blocks.
proof fn lemma_body_blocks(items: Seq<Numbered>, i: int, bs: int)
    requires
        0 < bs,
        0 <= i < items.len(),
    ensures
        round_up(body_len(items, i, bs), bs) == data_blocks(items, i, bs) * bs,
{
    let size = size_of(items, i, bs);
    let body = body_len(items, i, bs);
    lemma_round_up(body, bs);
    if inline_tail(items, i, bs) {
        let q = size / bs;
        assert(body == q * bs) by (nonlinear_arith)
            requires
                body == size - size % bs,
                q == size / bs,
                0 < bs,
        ;
        assert(body % bs == 0) by (nonlinear_arith)
            requires
                body == q * bs,
                0 < bs,
        ;
    }
}

/// The metadata takes the blocks before the first data block.
proof fn lemma_meta_blocks(root: Node, p: Params, crc: int)
    requires
        ready(root, p.block_size as int),
        encode_utf8(p.volume_name@).len() <= 16,
    ensures
        ({
            let items = items_of(root);
            let bs = p.block_size as int;
            let m = meta_bytes(items, p, crc);
            &&& m.len() == next_block(items, 0, bs) * bs
            &&& meta_end(items, bs) <= m.len()
            &&& 0 <= next_block(items, 0, bs)
        }),
{
    let items = items_of(root);
    let bs = p.block_size as int;
    lemma_ready(root, bs);
    lemma_meta_len(root, items.len() as int, p, crc);
    lemma_record(items, items.len() as int, bs);
    lemma_round_up(meta_end(items, bs), bs);
    reveal(next_block);
}

/// An image has as many bytes as `image_size` says: all its blocks.
pub proof fn image_length(root: Node, p: Params)
    requires
        writable(root, p),
    ensures
        image_of(root, p).len() == total_blocks(items_of(root), p.block_size as int)
            * p.block_size,
{
    let items = items_of(root);
    let bs = p.block_size as int;
    lemma_writable(root, p);
    lemma_meta_blocks(root, p, checksum(items, p) as int);
    lemma_data_len(root, items.len() as int, bs);
    let n0 = next_block(items, 0, bs);
    let n = total_blocks(items, bs);
    assert(n0 * bs + (n - n0) * bs == n * bs) by (nonlinear_arith);
}

/// The body of item `i` stands in the data blocks once it is written.
proof fn lemma_body_in_data(root: Node, i: int, j: int, bs: int)
    requires
        ready(root, bs),
        0 <= i < j <= items_of(root).len(),
    ensures
        ({
            let items = items_of(root);
            let d = data_upto(items, j, bs);
            let at = (next_block(items, i, bs) - next_block(items, 0, bs)) * bs;
            let n = body_len(items, i, bs);
            &&& 0 <= at
            &&& at + n <= d.len()
            &&& d.subrange(at, at + n) == content(items, i, bs).take(n)
        }),
    decreases j,
{
    let items = items_of(root);
    let n0 = next_block(items, 0, bs);
    let at = (next_block(items, i, bs) - n0) * bs;
    let n = body_len(items, i, bs);
    let d = data_upto(items, j, bs);
    let before = data_upto(items, j - 1, bs);
    lemma_ready(root, bs);
    lemma_content(root, i, bs);
    lemma_data_len(root, i, bs);
    lemma_data_len(root, j - 1, bs);
    if i < j - 1 {
        lemma_body_in_data(root, i, j - 1, bs);
        assert(d.subrange(at, at + n) =~= before.subrange(at, at + n));
    } else {
        lemma_round_up(n, bs);
        assert(d.subrange(at, at + n) =~= content(items, i, bs).take(n));
    }
}

/// The record of item `i` in the image.
pub proof fn lemma_record_in_image(root: Node, i: int, p: Params)
    requires
        writable(root, p),
        0 <= i < items_of(root).len(),
    ensures
        ({
            let items = items_of(root);
            let bs = p.block_size as int;
            let img = image_of(root, p);
            let start = record_start(items, i, bs);
            &&& 0 <= start
            &&& start + record_len(items, i, bs) <= img.len()
            &&& img.subrange(start, start + record_len(items, i, bs)) == record_bytes(
                items,
                i,
                p.timestamp as int,
                p.timestamp_nsec as int,
                bs,
            )
        }),
{
    let items = items_of(root);
    let bs = p.block_size as int;
    let img = image_of(root, p);
    let crc = checksum(items, p) as int;
    lemma_writable(root, p);
    lemma_record_in_meta(root, i, items.len() as int, p, crc);
    let m = meta_upto(items, items.len() as int, p, crc);
    let start = record_start(items, i, bs);
    let len = record_len(items, i, bs);
    assert(img.subrange(start, start + len) =~= m.subrange(start, start + len));
}

/// The body of item `i` in the image.
proof fn lemma_body_in_image(root: Node, i: int, p: Params)
    requires
        writable(root, p),
        0 <= i < items_of(root).len(),
    ensures
        ({
            let items = items_of(root);
            let bs = p.block_size as int;
            let img = image_of(root, p);
            let at = next_block(items, i, bs) * bs;
            let n = body_len(items, i, bs);
            &&& 0 <= at
            &&& at + n <= img.len()
            &&& img.subrange(at, at + n) == content(items, i, bs).take(n)
        }),
{
    let items = items_of(root);
    let bs = p.block_size as int;
    let img = image_of(root, p);
    let crc = checksum(items, p) as int;
    lemma_writable(root, p);
    lemma_content(root, i, bs);
    lemma_body_in_data(root, i, items.len() as int, bs);
    lemma_meta_blocks(root, p, crc);
    let d = data_upto(items, items.len() as int, bs);
    let m = meta_bytes(items, p, crc);
    let n0 = next_block(items, 0, bs);
    let ni = next_block(items, i, bs);
    let at = ni * bs;
    let n = body_len(items, i, bs);
    assert(n0 * bs + (ni - n0) * bs == ni * bs) by (nonlinear_arith);
    assert(img.subrange(at, at + n) =~= d.subrange((ni - n0) * bs, (ni - n0) * bs + n));
}

/// No inode crosses a block: it lies with its xattr header and its inline
/// tail in one block.
pub proof fn record_in_one_block(root: Node, i: int, bs: int)
    requires
        ready(root, bs),
        0 <= i < items_of(root).len(),
    ensures
        record_start(items_of(root), i, bs) % bs + record_len(items_of(root), i, bs) <= bs,
{
    let items = items_of(root);
    lemma_ready(root, bs);
    lemma_record(items, i, bs);
    let pos = record_end(items, i, bs);
    let size = size_of(items, i, bs);
    lemma_mod_pos(size, bs);
    lemma_round_up(pos, bs);
    reveal(start_at);
    assert(attrs_of(items[i].node).len() <= 2);
    assert(record_len(items, i, bs) <= bs);
}

/// The fields of a compact inode.
proof fn lemma_compact(
    head: Seq<u8>,
    nlink: int,
    size: int,
    block: int,
    number: int,
    uid: int,
    gid: int,
)
    requires
        head.len() == 6,
        0 <= size <= u32::MAX,
        0 <= block <= u32::MAX,
        0 <= uid <= 0xFFFF,
        0 <= gid <= 0xFFFF,
    ensures
        ({
            let b = compact_bytes(head, nlink, size, block, number, uid, gid);
            &&& b.len() == 32
            &&& b.take(6) == head
            &&& le32(b, 8) == size
            &&& le32(b, 16) == block
            &&& le16(b, 24) == uid
            &&& le16(b, 26) == gid
        }),
{
    let b = compact_bytes(head, nlink, size, block, number, uid, gid);
    assert(b.take(6) =~= head);
    assert(b.subrange(8, 12) =~= bytes32(size));
    lemma_at32(b, 8, size);
    assert(b.subrange(16, 20) =~= bytes32(block));
    lemma_at32(b, 16, block);
    assert(b.subrange(24, 26) =~= bytes16(uid));
    lemma_at16(b, 24, uid);
    assert(b.subrange(26, 28) =~= bytes16(gid));
    lemma_at16(b, 26, gid);
}

/// The fields of an extended inode.
proof fn lemma_extended(
    head: Seq<u8>,
    nlink: int,
    size: int,
    block: int,
    number: int,
    uid: int,
    gid: int,
    time: int,
    nsec: int,
)
    requires
        head.len() == 6,
        0 <= size <= u64::MAX,
        0 <= block <= u32::MAX,
        0 <= uid <= u32::MAX,
        0 <= gid <= u32::MAX,
        0 <= time <= u64::MAX,
    ensures
        ({
            let b = extended_bytes(head, nlink, size, block, number, uid, gid, time, nsec);
            &&& b.len() == 64
            &&& b.take(6) == head
            &&& le64(b, 8) == size
            &&& le32(b, 16) == block
            &&& le32(b, 24) == uid
            &&& le32(b, 28) == gid
            &&& le64(b, 32) == time
        }),
{
    let b = extended_bytes(head, nlink, size, block, number, uid, gid, time, nsec);
    assert(b.take(6) =~= head);
    assert(b.subrange(8, 16) =~= bytes64(size));
    lemma_at64(b, 8, size);
    assert(b.subrange(16, 20) =~= bytes32(block));
    lemma_at32(b, 16, block);
    assert(b.subrange(24, 28) =~= bytes32(uid));
    lemma_at32(b, 24, uid);
    assert(b.subrange(28, 32) =~= bytes32(gid));
    lemma_at32(b, 28, gid);
    assert(b.subrange(32, 40) =~= bytes64(time));
    lemma_at64(b, 32, time);
}

/// The first three fields of an inode.
proof fn lemma_head(format: int, icount: int, mode: int, b: Seq<u8>)
    requires
        b.len() >= 6,
        b.take(6) == bytes16(format) + bytes16(icount) + bytes16(mode),
        0 <= format <= 0xFFFF,
        0 <= icount <= 0xFFFF,
        0 <= mode <= 0xFFFF,
    ensures
        le16(b, 0) == format,
        le16(b, 2) == icount,
        le16(b, 4) == mode,
{
    let h = bytes16(format) + bytes16(icount) + bytes16(mode);
    assert(b.subrange(0, 2) =~= b.take(6).subrange(0, 2));
    assert(b.subrange(2, 4) =~= b.take(6).subrange(2, 4));
    assert(b.subrange(4, 6) =~= b.take(6).subrange(4, 6));
    assert(h.subrange(0, 2) =~= bytes16(format));
    assert(h.subrange(2, 4) =~= bytes16(icount));
    assert(h.subrange(4, 6) =~= bytes16(mode));
    lemma_at16(b, 0, format);
    lemma_at16(b, 2, icount);
    lemma_at16(b, 4, mode);
}

/// The inode of item `i` as the reader sees it.
pub open spec fn inode_seen(root: Node, i: int, p: Params) -> InodeView {
    let items = items_of(root);
    let bs = p.block_size as int;
    let n = items[i].node;
    InodeView {
        nid: nid_of(items, i, bs),
        layout: if inline_tail(items, i, bs) {
            2
        } else {
            0
        },
        isize: inode_len(items, i, bs),
        xattr_isize: xattr_len(n),
        mode: mode_of(n),
        size: size_of(items, i, bs),
        u: block_of(items, i, bs),
        uid: n.uid as int,
        gid: n.gid as int,
        mtime: signed_time(p.timestamp as int),
    }
}

/// In an image that could be written, data blocks can be addressed.
proof fn lemma_block_of(root: Node, i: int, p: Params)
    requires
        writable(root, p),
        0 <= i < items_of(root).len(),
    ensures
        0 <= block_of(items_of(root), i, p.block_size as int) < u32::MAX,
        0 <= size_of(items_of(root), i, p.block_size as int) <= u64::MAX,
{
    let items = items_of(root);
    let bs = p.block_size as int;
    lemma_writable(root, p);
    lemma_size_fits(items, i, bs);
    lemma_next_block_mono(items, i + 1, items.len() as int, bs);
    lemma_next_block_mono(items, 0, i, bs);
    lemma_meta_blocks(root, p, 0);
    reveal(next_block);
}

proof fn lemma_inode_bytes(root: Node, i: int, p: Params)
    requires
        writable(root, p),
        0 <= i < items_of(root).len(),
        compat(image_of(root, p)) & COMPAT_MTIME == 0,
        le64(image_of(root, p), 1048) == p.timestamp,
    ensures
        ({
            let items = items_of(root);
            let bs = p.block_size as int;
            let b = inode_bytes(items, i, p.timestamp as int, p.timestamp_nsec as int, bs);
            &&& b.len() == inode_len(items, i, bs)
            &&& le16(b, 0) % 2 == (if extended(items, i, bs) {
                1int
            } else {
                0
            })
            &&& inode_in(image_of(root, p), nid_of(items, i, bs), b) == inode_seen(root, i, p)
        }),
{
    let items = items_of(root);
    let bs = p.block_size as int;
    let n = items[i].node;
    let attrs = attrs_of(n).len() as int;
    let icount = if attrs == 0 {
        0
    } else {
        attrs + 1
    };
    let format = format_of(items, i, bs);
    let head = bytes16(format) + bytes16(icount) + bytes16(mode_of(n));
    let size = size_of(items, i, bs);
    let block = block_of(items, i, bs);
    let number = (i + 1) % 0x1_0000_0000;
    let time = p.timestamp as int;
    let nsec = p.timestamp_nsec as int;
    let b = inode_bytes(items, i, time, nsec, bs);
    reveal(inode_bytes);
    lemma_block_of(root, i, p);
    if extended(items, i, bs) {
        lemma_extended(
            head,
            nlink(n),
            size,
            block,
            number,
            n.uid as int,
            n.gid as int,
            time,
            nsec,
        );
    } else {
        lemma_compact(head, nlink(n), size, block, number, n.uid as int, n.gid as int);
    }
    lemma_head(format, icount, mode_of(n), b);
}

/// The reader finds the inode of item `i` at its nid.
pub proof fn lemma_inode(root: Node, i: int, p: Params)
    requires
        writable(root, p),
        0 <= i < items_of(root).len(),
    ensures
        inode_at(image_of(root, p), nid_of(items_of(root), i, p.block_size as int)) == Ok::<
            InodeView,
            Error,
        >(inode_seen(root, i, p)),
        block_size(image_of(root, p)) == p.block_size,
        inode_offset(image_of(root, p), nid_of(items_of(root), i, p.block_size as int))
            == record_start(items_of(root), i, p.block_size as int),
{
    let items = items_of(root);
    let bs = p.block_size as int;
    let img = image_of(root, p);
    let nid = nid_of(items, i, bs);
    let start = record_start(items, i, bs);
    let len = record_len(items, i, bs);
    let rec = record_bytes(items, i, p.timestamp as int, p.timestamp_nsec as int, bs);
    let b = inode_bytes(items, i, p.timestamp as int, p.timestamp_nsec as int, bs);
    lemma_writable(root, p);
    lemma_ready(root, bs);
    lemma_sb(root, p);
    lemma_image_block_size(root, p);
    assert(1u32 & 2u32 == 0) by (bit_vector);
    lemma_inode_bytes(root, i, p);
    lemma_record_in_image(root, i, p);
    lemma_nid(items, i, bs);
    image_length(root, p);
    lemma_record(items, i, bs);
    assert(0 * bs == 0) by (nonlinear_arith);
    let n = inode_len(items, i, bs);
    lemma_record_bytes(root, i, p.timestamp as int, p.timestamp_nsec as int, bs);
    assert(img.subrange(start, start + n) =~= b) by {
        assert(img.subrange(start, start + n) =~= img.subrange(start, start + len).take(n));
        assert(rec.take(n) =~= b);
    }
    let short = img.subrange(start, start + 32);
    assert(short =~= b.take(32));
    assert(le16(short, 0) == le16(b, 0));
}

proof fn lemma_image_block_size(root: Node, p: Params)
    requires
        writable(root, p),
    ensures
        block_size(image_of(root, p)) == p.block_size,
        9 <= image_of(root, p)[1036] <= 16,
{
    lemma_writable(root, p);
    lemma_ready(root, p.block_size as int);
    lemma_sb(root, p);
    reveal(block_size);
    reveal(supported_block_size);
}

/// The reader opens the image.
pub proof fn lemma_opens(root: Node, p: Params)
    requires
        writable(root, p),
    ensures
        open_fault(image_of(root, p)) is None,
        prefixes_of(image_of(root, p)) == Ok::<Seq<(u8, Seq<u8>)>, Error>(Seq::empty()),
{
    lemma_sb(root, p);
    lemma_image_block_size(root, p);
    assert(0u32 & 0xFFFF_FF88u32 == 0) by (bit_vector);
    assert(0u32 & 0x40u32 == 0) by (bit_vector);
}

/// A file without an inline tail reads back.
proof fn lemma_flat_plain(img: Seq<u8>, inode: InodeView, c: Seq<u8>)
    requires
        inode.layout == 0,
        inode.size == c.len(),
        inode.u != u32::MAX,
        c.len() > 0 ==> read_range(img, inode.u * block_size(img), inode.size) == Ok::<
            Seq<u8>,
            Error,
        >(c),
    ensures
        data_of(img, inode) == Ok::<Seq<u8>, Error>(c),
{
    reveal_with_fuel(bytes_from, 2);
    if c.len() > 0 {
        assert(c + Seq::<u8>::empty() =~= c);
    } else {
        assert(c =~= Seq::empty());
    }
}

/// A file with an inline tail reads back.
proof fn lemma_flat_inline(img: Seq<u8>, inode: InodeView, c: Seq<u8>, body: int)
    requires
        inode.layout == 2,
        inode.size == c.len(),
        0 <= body < c.len(),
        body == (ceil_div(inode.size, block_size(img)) - 1) * block_size(img),
        after_inode(img, inode) % block_size(img) + (inode.size - body) <= block_size(img),
        body > 0 ==> inode.u != u32::MAX && read_range(img, inode.u * block_size(img), body) == Ok::<
            Seq<u8>,
            Error,
        >(c.take(body)),
        read_range(img, after_inode(img, inode), inode.size - body) == Ok::<Seq<u8>, Error>(
            c.skip(body),
        ),
    ensures
        data_of(img, inode) == Ok::<Seq<u8>, Error>(c),
{
    reveal_with_fuel(bytes_from, 3);
    if body > 0 {
        assert(c.take(body) + (c.skip(body) + Seq::<u8>::empty()) =~= c);
    } else {
        assert(c.skip(0) + Seq::<u8>::empty() =~= c);
    }
}

/// An item with a body has data blocks.
proof fn lemma_has_blocks(items: Seq<Numbered>, i: int, bs: int)
    requires
        0 < bs,
        0 <= i < items.len(),
        body_len(items, i, bs) > 0,
    ensures
        block_of(items, i, bs) == next_block(items, i, bs),
{
    let body = body_len(items, i, bs);
    let d = data_blocks(items, i, bs);
    lemma_body_blocks(items, i, bs);
    lemma_round_up(body, bs);
    assert(d > 0) by (nonlinear_arith)
        requires
            d * bs >= body > 0,
            0 < bs,
    ;
}

/// The inline tail of item `i` in the image.
proof fn lemma_tail_in_image(root: Node, i: int, p: Params)
    requires
        writable(root, p),
        0 <= i < items_of(root).len(),
        inline_tail(items_of(root), i, p.block_size as int),
    ensures
        ({
            let items = items_of(root);
            let bs = p.block_size as int;
            let after = record_start(items, i, bs) + inode_len(items, i, bs) + xattr_len(
                items[i].node,
            );
            let body = body_len(items, i, bs);
            let size = size_of(items, i, bs);
            &&& 0 <= body < size
            &&& body == (ceil_div(size, bs) - 1) * bs
            &&& after % bs + (size - body) <= bs
            &&& read_range(image_of(root, p), after, size - body) == Ok::<Seq<u8>, Error>(
                content(items, i, bs).skip(body),
            )
        }),
{
    let items = items_of(root);
    let bs = p.block_size as int;
    let img = image_of(root, p);
    let c = content(items, i, bs);
    let size = size_of(items, i, bs);
    let body = body_len(items, i, bs);
    let start = record_start(items, i, bs);
    lemma_writable(root, p);
    lemma_content(root, i, bs);
    lemma_record_in_image(root, i, p);
    lemma_record_bytes(root, i, p.timestamp as int, p.timestamp_nsec as int, bs);
    lemma_mod_pos(size, bs);
    let after = start + inode_len(items, i, bs) + xattr_len(items[i].node);
    let rec = record_bytes(items, i, p.timestamp as int, p.timestamp_nsec as int, bs);
    let len = record_len(items, i, bs);
    lemma_tail_split(size, bs);
    record_in_one_block(root, i, bs);
    lemma_mod_add(start, inode_len(items, i, bs) + xattr_len(items[i].node), bs);
    assert(img.subrange(after, after + (size - body)) =~= c.skip(body)) by {
        assert(img.subrange(after, start + len) =~= img.subrange(start, start + len).skip(
            after - start,
        ));
        assert(rec.skip(after - start) =~= c.skip(body));
    }
}

/// The content of item `i`, read back.
pub proof fn lemma_data(root: Node, i: int, p: Params)
    requires
        writable(root, p),
        0 <= i < items_of(root).len(),
    ensures
        data_of(image_of(root, p), inode_seen(root, i, p)) == Ok::<Seq<u8>, Error>(
            content(items_of(root), i, p.block_size as int),
        ),
{
    let items = items_of(root);
    let bs = p.block_size as int;
    let img = image_of(root, p);
    let inode = inode_seen(root, i, p);
    let c = content(items, i, bs);
    let body = body_len(items, i, bs);
    lemma_writable(root, p);
    lemma_inode(root, i, p);
    lemma_content(root, i, bs);
    lemma_block_of(root, i, p);
    lemma_body_in_image(root, i, p);
    if body > 0 {
        lemma_has_blocks(items, i, bs);
    }
    if inline_tail(items, i, bs) {
        lemma_tail_in_image(root, i, p);
        lemma_flat_inline(img, inode, c, body);
    } else {
        assert(c.take(body) =~= c);
        lemma_flat_plain(img, inode, c);
    }
}

proof fn lemma_tail_split(size: int, bs: int)
    requires
        0 < bs,
        0 <= size,
        size % bs > 0,
    ensures
        (ceil_div(size, bs) - 1) * bs == size - size % bs,
        size > 0,
{
    let q = size / bs;
    let r = size % bs;
    assert(size == q * bs + r) by (nonlinear_arith)
        requires
            0 < bs,
            q == size / bs,
            r == size % bs,
    ;
    assert((size + bs - 1) / bs == q + 1) by (nonlinear_arith)
        requires
            size == q * bs + r,
            0 < r < bs,
    ;
}

proof fn lemma_mod_add(a: int, b: int, m: int)
    requires
        0 < m,
        0 <= b,
        a % m + b < m,
    ensures
        (a + b) % m == a % m + b,
{
    let q = a / m;
    assert(a == q * m + a % m) by (nonlinear_arith)
        requires
            0 < m,
            q == a / m,
    ;
    assert((a + b) % m == a % m + b) by (nonlinear_arith)
        requires
            a == q * m + a % m,
            0 <= a % m + b < m,
            0 <= b,
            0 < m,
    ;
}

} // verus!
