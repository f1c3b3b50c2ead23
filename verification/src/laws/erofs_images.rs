//! The fields and the checksum of a new EROFS image.
use vstd::prelude::*;
use vstd::utf8::encode_utf8;
use crate::bytes::{bytes16, bytes32, bytes64, ceil_div, le16, le32, le64, lemma_bytes16,
    lemma_bytes32,
    lemma_bytes64, lemma_round_up, len_bytes16, len_bytes32, len_bytes64};
use crate::fs::mkerofs::layout::{meta_end, nid_of, nlink, total_blocks};
use crate::fs::mkerofs::read_back::{lemma_writable, writable};
use crate::fs::mkerofs::{checksum, crc_of, crc_step, crc_steps, image_of, lemma_checksum_place,
    lemma_meta_len, lemma_ready, meta_bytes, meta_upto, sb_bytes, sb_rest, supported_block_size,
        Params};
use crate::fs::mkext4::{Node, NodeKind};
use crate::fs::tree::{items_of, Numbered};
use crate::laws::ext4_images::{dirs_among, lemma_all_dirs};

verus! {

broadcast use {len_bytes16, len_bytes32, len_bytes64};

/// The superblock of an image: the magic number, the block size as a power of
/// two, the root, how many inodes and blocks there are, the build time, the id
/// and the name.
pub proof fn superblock_says_the_image(items: Seq<Numbered>, p: Params, crc: int)
    requires
        supported_block_size(p.block_size as int),
        encode_utf8(p.volume_name@).len() <= 16,
        0 <= crc <= u32::MAX,
        0 <= nid_of(items, 0, p.block_size as int) < 0x1_0000,
        0 <= items.len() <= u64::MAX,
        0 <= total_blocks(items, p.block_size as int) <= u32::MAX,
    ensures
        ({
            let sb = sb_bytes(items, p, crc);
            let bs = p.block_size as int;
            let name = encode_utf8(p.volume_name@);
            &&& sb.len() == 128
            &&& le32(sb, 0) == 0xE0F5_E1E2
            &&& le32(sb, 4) == crc
            &&& le32(sb, 8) == 1
            &&& 9 <= sb[12] <= 16 && bs == vstd::arithmetic::power2::pow2(sb[12] as nat)
            &&& le16(sb, 14) == nid_of(items, 0, bs)
            &&& le64(sb, 16) == items.len()
            &&& le64(sb, 24) == p.timestamp
            &&& le32(sb, 32) == p.timestamp_nsec
            &&& le32(sb, 36) == total_blocks(items, bs)
            &&& sb.subrange(48, 64) == p.uuid@
            &&& sb.subrange(64, 64 + name.len() as int) == name
            &&& forall|k: int| 64 + name.len() <= k < 80 ==> sb[k] == 0
        }),
{
    reveal(supported_block_size);
    let bs = p.block_size as int;
    let sb = sb_bytes(items, p, crc);
    let r = sb_rest(items, p);
    let name = encode_utf8(p.volume_name@);
    let nid = nid_of(items, 0, bs);
    let n = items.len() as int;
    let total = total_blocks(items, bs);
    vstd::arithmetic::power2::lemma2_to64();
    lemma_bytes32(0xE0F5_E1E2);
    lemma_bytes32(crc);
    lemma_bytes32(1);
    lemma_bytes16(nid);
    lemma_bytes64(n);
    lemma_bytes64(p.timestamp as int);
    lemma_bytes32(p.timestamp_nsec as int);
    lemma_bytes32(total);
    assert(r.len() == 120);
    assert(sb.len() == 128);
    assert(le32(sb, 0) == le32(bytes32(0xE0F5_E1E2), 0));
    assert(le32(sb, 4) == le32(bytes32(crc), 0));
    assert(le32(r, 0) == le32(bytes32(1), 0));
    assert(le16(r, 6) == le16(bytes16(nid), 0));
    assert(le64(r, 8) == le64(bytes64(n), 0));
    assert(le64(r, 16) == le64(bytes64(p.timestamp as int), 0));
    assert(le32(r, 24) == le32(bytes32(p.timestamp_nsec as int), 0));
    assert(le32(r, 28) == le32(bytes32(total), 0));
    assert(r.subrange(40, 56) =~= p.uuid@);
    assert(r.subrange(56, 56 + name.len() as int) =~= name);
    assert forall|k: int| 0 <= k < 120 implies #[trigger] r[k] == sb[8 + k] by {
    }
    assert(sb[12] == r[4]);
    assert(r[4] == crate::fs::mkerofs::block_bits(bs) as u8);
    assert(le32(r, 0) == le32(sb, 8));
    assert(le16(r, 6) == le16(sb, 14));
    assert(le64(r, 8) == le64(sb, 16));
    assert(le64(r, 16) == le64(sb, 24));
    assert(le32(r, 24) == le32(sb, 32));
    assert(le32(r, 28) == le32(sb, 36));
    assert(sb.subrange(48, 64) =~= r.subrange(40, 56));
    assert(sb.subrange(64, 64 + name.len() as int) =~= r.subrange(56, 56 + name.len() as int));
    assert forall|k: int| 64 + name.len() <= k < 80 implies sb[k] == 0 by {
        assert(sb[k] == r[k - 8]);
    }
}

/// A bit of the checksum moves down, and where one falls out the polynomial of
/// Castagnoli is added; this is linear.
pub proof fn checksums_are_castagnoli(x: u32, a: u32, b: u32)
    ensures
        x < 0x8000_0000 ==> crc_step((2 * x) as u32) == x,
        x < 0x8000_0000 ==> crc_step((2 * x + 1) as u32) == x ^ 0x82F6_3B78,
        crc_step(a ^ b) == crc_step(a) ^ crc_step(b),
{
    if x < 0x8000_0000 {
        let e: u32 = (2 * x) as u32;
        let o: u32 = (2 * x + 1) as u32;
        assert((e >> 1) == x && e & 1 == 0) by (bit_vector)
            requires
                x < 0x8000_0000,
                e == 2 * x,
        ;
        assert((o >> 1) == x && o & 1 != 0) by (bit_vector)
            requires
                x < 0x8000_0000,
                o == 2 * x + 1,
        ;
        assert(x ^ 0u32 == x) by (bit_vector);
    }
    let p: u32 = 0x82F6_3B78;
    let c: u32 = a ^ b;
    assert(((c >> 1) ^ (if c & 1 != 0 {
        p
    } else {
        0u32
    })) == (((a >> 1) ^ (if a & 1 != 0 {
        p
    } else {
        0u32
    })) ^ ((b >> 1) ^ (if b & 1 != 0 {
        p
    } else {
        0u32
    })))) by (bit_vector)
        requires
            c == a ^ b,
    ;
}

/// The checksum of some bytes goes on with the bytes behind them. A byte goes in
/// with eight steps.
pub proof fn checksums_go_on(crc: u32, a: Seq<u8>, b: Seq<u8>, n: int, x: u8)
    requires
        0 <= n <= b.len(),
    ensures
        crc_of(crc, a + b, a.len() + n) == crc_of(crc_of(crc, a, a.len() as int), b, n),
        crc_of(crc, seq![x], 1) == crc_step(
            crc_step(
                crc_step(crc_step(crc_step(crc_step(crc_step(crc_step(crc ^ x as u32))))))
            ),
        ),
    decreases n,
{
    reveal_with_fuel(crc_of, 2);
    reveal_with_fuel(crc_steps, 9);
    assert(seq![x][0] == x);
    if n > 0 {
        checksums_go_on(crc, a, b, n - 1, x);
        assert((a + b)[a.len() + n - 1] == b[n - 1]);
    } else {
        lemma_crc_prefix(crc, a, b, a.len() as int);
    }
}

proof fn lemma_crc_prefix(crc: u32, a: Seq<u8>, b: Seq<u8>, n: int)
    requires
        0 <= n <= a.len(),
    ensures
        crc_of(crc, a + b, n) == crc_of(crc, a, n),
    decreases n,
{
    if n > 0 {
        lemma_crc_prefix(crc, a, b, n - 1);
        assert((a + b)[n - 1] == a[n - 1]);
    }
}

/// The checksum of an image is that of the part of its first block behind the
/// first 1024 bytes, with zeros in place of the checksum itself.
pub proof fn checksum_is_of_the_first_block(root: Node, p: Params, z: Seq<u8>)
    requires
        writable(root, p),
        p.block_size >= 2048,
        z.len() == p.block_size - 1024,
        forall|k: int|
            0 <= k < z.len() ==> #[trigger] z[k] == if 4 <= k < 8 {
                0
            } else {
                image_of(root, p)[1024 + k]
            },
    ensures
        le32(image_of(root, p), 1028) == crc_of(0xFFFF_FFFF, z, z.len() as int),
{
    let items = items_of(root);
    let bs = p.block_size as int;
    let n = items.len() as int;
    let crc = checksum(items, p) as int;
    lemma_writable(root, p);
    lemma_ready(root, bs);
    lemma_checksum_place(root, n, p, crc);
    lemma_checksum_place(root, n, p, 0);
    lemma_meta_len(root, n, p, 0);
    lemma_meta_len(root, n, p, crc);
    lemma_bytes32(0);
    lemma_bytes32(crc);
    let img = image_of(root, p);
    let a = meta_bytes(items, p, 0);
    let b = meta_bytes(items, p, crc);
    let m = meta_upto(items, n, p, 0);
    let w = meta_upto(items, n, p, crc);
    let end = meta_end(items, bs);
    assert(m.len() == w.len());
    assert(end == m.len());
    lemma_round_up(end, bs);
    let q = ceil_div(end, bs);
    assert(q * bs >= bs) by (nonlinear_arith)
        requires
            q == (end + bs - 1) / bs,
            end > 0,
            bs > 0,
    ;
    assert(bs <= a.len() && a.len() == b.len());
    assert(bytes32(0)[0] == 0 && bytes32(0)[1] == 0 && bytes32(0)[2] == 0 && bytes32(0)[3] == 0);
    assert(m[1028] == bytes32(0)[0] && m[1029] == bytes32(0)[1] && m[1030] == bytes32(0)[2]
        && m[1031]
        == bytes32(0)[3]);
    assert(a.subrange(1024, bs) =~= z) by {
        assert forall|k: int| 0 <= k < z.len() implies a[1024 + k] == #[trigger] z[k] by {
            assert(img[1024 + k] == b[1024 + k]);
            if 1024 + k < m.len() {
                assert(a[1024 + k] == m[1024 + k] && b[1024 + k] == w[1024 + k]);
            }
        }
    }
    assert forall|k: int| 0 <= k < 4 implies #[trigger] bytes32(crc)[k] == img[1028 + k] by {
        assert(img[1028 + k] == w[1028 + k]);
    }
    assert(le32(img, 1028) == le32(bytes32(crc), 0));
}

/// A file or symlink has one link; a directory has one from its parent, one from
/// itself and one from each directory in it.
pub proof fn links_are_counted(node: Node)
    ensures
        match node.kind {
            NodeKind::Dir(ch) => ch@.len() < 0x1000_0000 ==> nlink(node) == 2 + dirs_among(
                ch@,
                ch@.len() as int,
            ),
            _ => nlink(node) == 1,
        },
{
    if let NodeKind::Dir(ch) = node.kind {
        lemma_all_dirs(node);
    }
}

} // verus!
