//! Where the parts of a written image stand.
use vstd::prelude::*;
use crate::bytes::{bytes16, bytes32, le16, le32, lemma_bytes16, lemma_bytes32, zero_seq};
use crate::error::Error;
use crate::fs::ext4::{block_size, blocks_count, desc_size, gdt_offset, groups, incompat, inode_at,
    inode_in, inode_size, inode_table, inodes_count, inodes_per_group, is_64bit, open_fault, sb16,
    sb32, InodeView};
use crate::fs::mkext4::extents::data_ok;
use crate::fs::mkext4::image::{desc_bytes, descs, field, gdt, group_bytes, group_head, groups_upto,
    last_ino, lemma_descs_len, lemma_gdt_len, lemma_group_len, lemma_superblock_len, log_size,
    reserved_of, sb_counts, sb_head, sb_offset, sb_rest, sb_revision, sb_state, superblock, taken,
        window, Content,
    COMPAT_FEATURES, INCOMPAT_FEATURES, RO_COMPAT_FEATURES};
use crate::fs::mkext4::layout::{capacity, first_block, group_len, group_start, home, lemma_bounds,
    lemma_group, lemma_home, nth_block, overhead, room, room_before, super_blocks, well_formed,
    Groups};
use crate::fs::mkext4::read_extents::{data_block, shows};
use crate::fs::mkext4::Params;

verus! {

broadcast use crate::bytes::group_byte_lens;

/// The whole image.
pub open spec fn whole(l: Groups, p: Params, c: Content) -> Seq<u8> {
    groups_upto(l, p, c, l.groups)
}

pub proof fn lemma_upto_len(l: Groups, p: Params, c: Content, g: int)
    requires
        well_formed(l),
        0 <= g <= l.groups,
    ensures
        g < l.groups ==> groups_upto(l, p, c, g).len() == group_start(l, g) * l.bs,
        g == l.groups ==> groups_upto(l, p, c, g).len() == l.blocks * l.bs,
    decreases g,
{
    lemma_bounds(l);
    let bs = l.bs;
    if g > 0 {
        lemma_upto_len(l, p, c, g - 1);
        lemma_group_len(l, p, c, g - 1);
        lemma_group(l, g - 1);
        let a = group_start(l, g - 1);
        let n = group_len(l, g - 1);
        assert((a + n) * bs == a * bs + n * bs) by (nonlinear_arith);
    } else {
        assert(0 * l.bpg == 0) by (nonlinear_arith);
        assert(0 <= first_block(bs) * bs) by (nonlinear_arith)
            requires
                0 <= first_block(bs),
                0 < bs,
        ;
    }
}

proof fn lemma_upto_prefix(l: Groups, p: Params, c: Content, g: int, h: int)
    requires
        g <= h,
    ensures
        groups_upto(l, p, c, g).len() <= groups_upto(l, p, c, h).len(),
        groups_upto(l, p, c, h).take(groups_upto(l, p, c, g).len() as int) == groups_upto(
            l,
            p,
            c,
            g,
        ),
    decreases h - g,
{
    let a = groups_upto(l, p, c, g);
    if g < h && h > 0 {
        lemma_upto_prefix(l, p, c, g, h - 1);
        let b = groups_upto(l, p, c, h - 1);
        assert(groups_upto(l, p, c, h).take(a.len() as int) =~= b.take(a.len() as int));
    } else {
        assert(a.take(a.len() as int) =~= a);
    }
}

/// Byte `x` of group `g`.
pub proof fn lemma_group_byte(l: Groups, p: Params, c: Content, g: int, x: int)
    requires
        well_formed(l),
        0 <= g < l.groups,
        0 <= x < group_len(l, g) * l.bs,
    ensures
        0 <= group_start(l, g) * l.bs + x < whole(l, p, c).len(),
        whole(l, p, c)[group_start(l, g) * l.bs + x] == group_bytes(l, p, c, g)[x],
        whole(l, p, c).len() == l.blocks * l.bs,
{
    lemma_upto_len(l, p, c, g);
    lemma_upto_len(l, p, c, l.groups);
    lemma_group_len(l, p, c, g);
    lemma_upto_prefix(l, p, c, g + 1, l.groups);
    let a = groups_upto(l, p, c, g);
    let b = groups_upto(l, p, c, g + 1);
    let at = group_start(l, g) * l.bs;
    assert(a.len() == at);
    assert(b == a + group_bytes(l, p, c, g));
    assert(b[at + x] == group_bytes(l, p, c, g)[x]);
    assert(whole(l, p, c).take(b.len() as int)[at + x] == whole(l, p, c)[at + x]);
}

/// A stretch of bytes of group `g`.
pub proof fn lemma_group_part(l: Groups, p: Params, c: Content, g: int, from: int, n: int)
    requires
        well_formed(l),
        0 <= g < l.groups,
        0 <= from,
        0 < n,
        from + n <= group_len(l, g) * l.bs,
    ensures
        ({
            let at = group_start(l, g) * l.bs + from;
            &&& 0 <= at
            &&& at + n <= whole(l, p, c).len()
            &&& whole(l, p, c).subrange(at, at + n) == group_bytes(l, p, c, g).subrange(
                from,
                from + n,
            )
        }),
{
    let at = group_start(l, g) * l.bs + from;
    let img = whole(l, p, c);
    let b = group_bytes(l, p, c, g);
    lemma_group_byte(l, p, c, g, from);
    lemma_group_byte(l, p, c, g, from + n - 1);
    lemma_group_len(l, p, c, g);
    assert forall|k: int| 0 <= k < n implies #[trigger] img.subrange(at, at + n)[k] == b.subrange(
        from,
        from + n,
    )[k] by {
        lemma_group_byte(l, p, c, g, from + k);
    }
    assert(img.subrange(at, at + n) =~= b.subrange(from, from + n));
}

/// The numbers of bytes in a group.
pub proof fn lemma_sizes(l: Groups, g: int)
    requires
        well_formed(l),
        0 <= g < l.groups,
    ensures
        group_len(l, g) * l.bs == super_blocks(l, g) * l.bs + 2 * l.bs + l.ipg * 256 + room(l, g)
            * l.bs,
        0 <= super_blocks(l, g) * l.bs,
        0 <= room(l, g) * l.bs,
        overhead(l, g) * l.bs == super_blocks(l, g) * l.bs + 2 * l.bs + l.ipg * 256,
{
    lemma_bounds(l);
    lemma_group(l, g);
    let bs = l.bs;
    let s = super_blocks(l, g);
    let t = l.itable_blocks;
    let r = room(l, g);
    assert((s + 2 + t + r) * bs == s * bs + 2 * bs + t * bs + r * bs) by (nonlinear_arith);
    assert((s + 2 + t) * bs == s * bs + 2 * bs + t * bs) by (nonlinear_arith);
    assert(0 <= s * bs && 0 <= r * bs) by (nonlinear_arith)
        requires
            0 <= s,
            0 <= r,
            0 < bs,
    ;
}

/// Inode `ino` stands in the inode table of its group.
pub proof fn lemma_inode_part(l: Groups, p: Params, c: Content, ino: int)
    requires
        well_formed(l),
        1 <= ino <= l.ipg * l.groups,
        ino * 256 <= c.image.inodes.len(),
    ensures
        ({
            let g = (ino - 1) / l.ipg;
            let at = (group_start(l, g) + super_blocks(l, g) + 2) * l.bs + (
                (ino - 1) % l.ipg) * 256;
            &&& 0 <= g < l.groups
            &&& 0 <= at
            &&& at + 256 <= whole(l, p, c).len()
            &&& whole(l, p, c).subrange(at, at + 256) == c.image.inodes.subrange(
                (ino - 1) * 256,
                ino * 256,
            )
        }),
{
    lemma_bounds(l);
    let ipg = l.ipg;
    let x = ino - 1;
    let g = x / ipg;
    let i = x % ipg;
    assert(ipg > 0) by (nonlinear_arith)
        requires
            1 <= ipg * l.groups,
            0 <= ipg,
            0 < l.groups,
    ;
    assert(x == g * ipg + i && 0 <= i < ipg && 0 <= g < l.groups) by (nonlinear_arith)
        requires
            g == x / ipg,
            i == x % ipg,
            0 <= x < ipg * l.groups,
            0 < ipg,
    ;
    lemma_sizes(l, g);
    lemma_group_len(l, p, c, g);
    let s = super_blocks(l, g) * l.bs;
    let from = s + 2 * l.bs + i * 256;
    let b = group_bytes(l, p, c, g);
    let bs = l.bs;
    assert((group_start(l, g) + super_blocks(l, g) + 2) * bs
        == group_start(l, g) * bs + super_blocks(
        l,
        g,
    ) * bs + 2 * bs) by (nonlinear_arith);
    lemma_group_part(l, p, c, g, from, 256);
    let w = window(c.image.inodes, g * ipg * 256, ipg * 256);
    let want = c.image.inodes.subrange(x * 256, ino * 256);
    reveal(group_bytes);
    assert forall|k: int| 0 <= k < 256 implies #[trigger] b.subrange(from, from + 256)[k]
        == want[k] by {
        assert(b[from + k] == w[i * 256 + k]);
        assert(g * ipg * 256 + (i * 256 + k) == x * 256 + k);
    }
    assert(b.subrange(from, from + 256) =~= want);
}

/// The blocks handed out stand in the image.
pub proof fn lemma_data_part(l: Groups, p: Params, c: Content, k: int)
    requires
        well_formed(l),
        data_ok(l, c.image.data),
        0 <= k < c.image.data.len() as int / l.bs,
    ensures
        0 <= nth_block(l, k) < l.blocks,
        (nth_block(l, k) + 1) * l.bs <= whole(l, p, c).len(),
        whole(l, p, c).subrange(nth_block(l, k) * l.bs, nth_block(l, k) * l.bs + l.bs)
            == data_block(l, c.image.data, k),
{
    lemma_bounds(l);
    lemma_home(l, k);
    let h = home(l, k);
    lemma_group(l, h);
    lemma_sizes(l, h);
    lemma_group_len(l, p, c, h);
    let bs = l.bs;
    let b = nth_block(l, k);
    let rb = room_before(l, h);
    let i = k - rb;
    let from = overhead(l, h) * bs + i * bs;
    assert(b * bs == group_start(l, h) * bs + from) by (nonlinear_arith)
        requires
            b == group_start(l, h) + overhead(l, h) + i,
            from == overhead(l, h) * bs + i * bs,
    ;
    assert((b + 1) * bs == b * bs + bs) by (nonlinear_arith);
    let r = room(l, h);
    assert(0 <= i * bs && i * bs + bs <= r * bs) by (nonlinear_arith)
        requires
            0 <= i,
            i + 1 <= r,
            0 < bs,
    ;
    lemma_group_part(l, p, c, h, from, bs);
    let d = c.image.data;
    let w = window(d, rb * bs, r * bs);
    let g = group_bytes(l, p, c, h);
    assert(rb * bs + i * bs == k * bs) by (nonlinear_arith)
        requires
            k == rb + i,
    ;
    let n = d.len() as int / bs;
    assert(0 <= k * bs && k * bs + bs <= d.len()) by (nonlinear_arith)
        requires
            n == d.len() as int / bs,
            0 <= k,
            k + 1 <= n,
            0 < bs,
    ;
    reveal(group_bytes);
    assert forall|t: int| 0 <= t < bs implies #[trigger] g.subrange(from, from + bs)[t]
        == data_block(l, d, k)[t] by {
        assert(g[from + t] == w[i * bs + t]);
    }
    assert(g.subrange(from, from + bs) =~= data_block(l, d, k));
}

/// The superblock stands at byte 1024.
proof fn lemma_sb_part(l: Groups, p: Params, c: Content)
    requires
        well_formed(l),
    ensures
        whole(l, p, c).len() >= 2048,
        whole(l, p, c).subrange(1024, 2048) == superblock(l, p, c, 0),
{
    lemma_bounds(l);
    lemma_group(l, 0);
    lemma_sizes(l, 0);
    lemma_group_len(l, p, c, 0);
    lemma_superblock_len(l, p, c, 0);
    lemma_gdt_len(l, c);
    let bs = l.bs;
    let from = sb_offset(bs, 0);
    let h = group_head(l, p, c, 0);
    assert(0 * l.bpg == 0) by (nonlinear_arith);
    assert(super_blocks(l, 0) * bs >= bs + bs) by (nonlinear_arith)
        requires
            super_blocks(l, 0) >= 2,
            0 < bs,
    ;
    if bs == 1024 {
        assert(group_start(l, 0) * bs == 1024) by (nonlinear_arith)
            requires
                group_start(l, 0) == 1,
                bs == 1024,
        ;
    } else {
        assert(group_start(l, 0) * bs == 0) by (nonlinear_arith)
            requires
                group_start(l, 0) == 0,
        ;
    }
    lemma_group_part(l, p, c, 0, from, 1024);
    let g = group_bytes(l, p, c, 0);
    reveal(group_bytes);
    reveal(group_head);
    let sb = superblock(l, p, c, 0);
    assert forall|k: int| 0 <= k < 1024 implies #[trigger] g.subrange(from, from + 1024)[k]
        == sb[k] by {
        assert(g[from + k] == h[from + k]);
    }
    assert(g.subrange(from, from + 1024) =~= sb);
}

/// The counts at the front of the superblock.
proof fn lemma_sb_counts(l: Groups, p: Params, c: Content)
    requires
        well_formed(l),
        0 <= l.ipg * l.groups <= u32::MAX,
    ensures
        ({
            let h = sb_counts(l, p, c);
            &&& h.len() == 44
            &&& le32(h, 0) == l.ipg * l.groups
            &&& le32(h, 4) == l.blocks
            &&& le32(h, 8) == reserved_of(l, p)
            &&& le32(h, 0x14) == first_block(l.bs)
            &&& le32(h, 0x18) == log_size(l.bs)
            &&& le32(h, 0x28) == l.ipg
        }),
{
    lemma_bounds(l);
    let h = sb_counts(l, p, c);
    let n = l.ipg * l.groups;
    assert(n % 0x1_0000_0000 == n);
    lemma_bytes32(n);
    lemma_bytes32(l.blocks);
    lemma_bytes32(reserved_of(l, p));
    lemma_bytes32(first_block(l.bs));
    lemma_bytes32(log_size(l.bs));
    lemma_bytes32(l.ipg);
    assert(le32(h, 0) == le32(bytes32(n), 0));
    assert(le32(h, 4) == le32(bytes32(l.blocks), 0));
    assert(le32(h, 8) == le32(bytes32(reserved_of(l, p)), 0));
    assert(le32(h, 0x14) == le32(bytes32(first_block(l.bs)), 0));
    assert(le32(h, 0x18) == le32(bytes32(log_size(l.bs)), 0));
    assert(le32(h, 0x28) == le32(bytes32(l.ipg), 0));
}

proof fn lemma_sb_state(p: Params)
    ensures
        sb_state(p).len() == 24,
        le16(sb_state(p), 12) == 0xEF53,
        sb_revision(0).len() == 24,
        le32(sb_revision(0), 8) == 1,
        le16(sb_revision(0), 20) == 256,
{
    let h = sb_state(p);
    let r = sb_revision(0);
    lemma_bytes16(0xEF53);
    lemma_bytes16(256);
    lemma_bytes32(1);
    assert(le16(h, 12) == le16(bytes16(0xEF53), 0));
    assert(le32(r, 8) == le32(bytes32(1), 0));
    assert(le16(r, 20) == le16(bytes16(256), 0));
}

/// Fields at the front of the superblock.
proof fn lemma_sb_head(l: Groups, p: Params, c: Content)
    requires
        well_formed(l),
        0 <= l.ipg * l.groups <= u32::MAX,
    ensures
        ({
            let h = sb_head(l, p, c, 0);
            &&& le32(h, 0) == l.ipg * l.groups
            &&& le32(h, 4) == l.blocks
            &&& le32(h, 8) == reserved_of(l, p)
            &&& le32(h, 0x14) == first_block(l.bs)
            &&& le32(h, 0x18) == log_size(l.bs)
            &&& le32(h, 0x28) == l.ipg
            &&& le16(h, 0x38) == 0xEF53
            &&& le32(h, 0x4C) == 1
            &&& le16(h, 0x58) == 256
        }),
{
    lemma_sb_counts(l, p, c);
    lemma_sb_state(p);
    let h = sb_head(l, p, c, 0);
    let a = sb_counts(l, p, c);
    let b = sb_state(p);
    let r = sb_revision(0);
    lemma_three(a, b, r);
    assert(h == a + b + r);
    assert forall|k: int| 0 <= k < 24 implies #[trigger] b[k] == h[44 + k] by {}
    assert forall|k: int| 0 <= k < 24 implies #[trigger] r[k] == h[68 + k] by {}
    assert(b[12] == h[56] && b[13] == h[57]);
    assert(r[8] == h[76] && r[9] == h[77] && r[10] == h[78] && r[11] == h[79]);
    assert(r[20] == h[88] && r[21] == h[89]);
}

proof fn lemma_three(a: Seq<u8>, b: Seq<u8>, c: Seq<u8>)
    ensures
        forall|k: int| 0 <= k < a.len() ==> #[trigger] (a + b + c)[k] == a[k],
{
}

/// The numbers that the reader takes from the superblock.
pub proof fn lemma_sb(l: Groups, p: Params, c: Content)
    requires
        well_formed(l),
        0 < l.ipg * l.groups <= u32::MAX,
    ensures
        ({
            let img = whole(l, p, c);
            &&& img.len() >= 2048
            &&& sb32(img, 0) == l.ipg * l.groups
            &&& sb32(img, 4) == l.blocks
            &&& sb32(img, 8) == reserved_of(l, p)
            &&& sb32(img, 0x14) == first_block(l.bs)
            &&& sb32(img, 0x18) == log_size(l.bs)
            &&& sb32(img, 0x28) == l.ipg
            &&& sb16(img, 0x38) == 0xEF53
            &&& sb32(img, 0x4C) == 1
            &&& sb16(img, 0x58) == 256
            &&& sb32(img, 0x60) == 0x42
        }),
{
    lemma_sb_part(l, p, c);
    lemma_sb_head(l, p, c);
    lemma_superblock_len(l, p, c, 0);
    let img = whole(l, p, c);
    let h = sb_head(l, p, c, 0);
    let r = sb_rest(p);
    let sb = superblock(l, p, c, 0);
    reveal(superblock);
    assert forall|k: int| 0 <= k < 92 implies #[trigger] h[k] == img[1024 + k] by {
        assert(sb[k] == h[k]);
        assert(img.subrange(1024, 2048)[k] == img[1024 + k]);
    }
    assert forall|k: int| 0 <= k < 12 implies #[trigger] r[k] == img[1116 + k] by {
        assert(sb[92 + k] == r[k]);
        assert(img.subrange(1024, 2048)[92 + k] == img[1116 + k]);
    }
    lemma_bytes32(0x42);
    assert(le32(r, 4) == le32(bytes32(0x42), 0));
    assert(h[0] == img[1024]);
    assert(r[4] == img[1120]);
    assert(le32(img, 1024) == le32(h, 0));
    assert(le32(img, 1028) == le32(h, 4));
    assert(le32(img, 1032) == le32(h, 8));
    assert(le32(img, 1044) == le32(h, 0x14));
    assert(le32(img, 1048) == le32(h, 0x18));
    assert(le32(img, 1064) == le32(h, 0x28));
    assert(le16(img, 1080) == le16(h, 0x38));
    assert(le32(img, 1100) == le32(h, 0x4C));
    assert(le16(img, 1112) == le16(h, 0x58));
    assert(le32(img, 1120) == le32(r, 4));
}

/// The free counts in the superblock.
pub proof fn lemma_sb_free(l: Groups, p: Params, c: Content)
    requires
        well_formed(l),
        0 <= taken(l, c) <= capacity(l),
        0 <= last_ino(c) <= l.ipg * l.groups <= u32::MAX,
    ensures
        ({
            let img = whole(l, p, c);
            &&& le32(img, 1024) == l.ipg * l.groups
            &&& le32(img, 0x404) == l.blocks
            &&& le32(img, 0x40C) == capacity(l) - taken(l, c)
            &&& le32(img, 0x410) == l.ipg * l.groups - last_ino(c)
            &&& le32(img, 0x420) == l.bpg
            &&& le32(img, 0x428) == l.ipg
            &&& 0 < l.ipg || last_ino(c) == 0
        }),
{
    lemma_sb_part(l, p, c);
    lemma_superblock_len(l, p, c, 0);
    lemma_bounds(l);
    crate::fs::mkext4::image::lemma_rooms(l, l.groups);
    let img = whole(l, p, c);
    let h = sb_counts(l, p, c);
    let sb = superblock(l, p, c, 0);
    reveal(superblock);
    let n = l.ipg * l.groups;
    let free = capacity(l) - taken(l, c);
    let left = n - last_ino(c);
    assert(n % 0x1_0000_0000 == n && left % 0x1_0000_0000 == left);
    lemma_bytes32(n);
    lemma_bytes32(l.blocks);
    lemma_bytes32(free);
    lemma_bytes32(left);
    lemma_bytes32(l.bpg);
    lemma_bytes32(l.ipg);
    assert(le32(h, 0) == le32(bytes32(n), 0));
    assert(le32(h, 4) == le32(bytes32(l.blocks), 0));
    assert(le32(h, 12) == le32(bytes32(free), 0));
    assert(le32(h, 16) == le32(bytes32(left), 0));
    assert(le32(h, 0x20) == le32(bytes32(l.bpg), 0));
    assert(le32(h, 0x28) == le32(bytes32(l.ipg), 0));
    assert forall|k: int| 0 <= k < 44 implies #[trigger] h[k] == img[1024 + k] by {
        assert(sb[k] == h[k]);
        assert(img.subrange(1024, 2048)[k] == img[1024 + k]);
    }
    assert(le32(img, 1024) == le32(h, 0));
    assert(le32(img, 1028) == le32(h, 4));
    assert(le32(img, 1036) == le32(h, 12));
    assert(le32(img, 1040) == le32(h, 16));
    assert(le32(img, 1056) == le32(h, 0x20));
    assert(le32(img, 1064) == le32(h, 0x28));
    assert(0 < l.ipg || last_ino(c) == 0) by (nonlinear_arith)
        requires
            0 <= last_ino(c) <= l.ipg * l.groups,
            0 <= l.ipg,
    ;
}

/// A part of a sequence that stands in its front.
proof fn lemma_front(s: Seq<u8>, t: Seq<u8>, i: int, j: int)
    requires
        0 <= i <= j <= s.len(),
    ensures
        (s + t).subrange(i, j) == s.subrange(i, j),
{
    assert((s + t).subrange(i, j) =~= s.subrange(i, j));
}

/// Where the names and ids of the superblock stand.
proof fn lemma_sb_rest(p: Params)
    ensures
        ({
            let r = sb_rest(p);
            &&& r.len() == 932
            &&& r.subrange(12, 28) == p.uuid@
            &&& r.subrange(28, 44) == field(p.volume_name@, 16, 16)
            &&& r.subrange(144, 160) == p.hash_seed@
            &&& r.subrange(172, 176) == bytes32(p.timestamp as int)
        }),
{
    let a = bytes32(COMPAT_FEATURES as int) + bytes32(INCOMPAT_FEATURES as int) + bytes32(
        RO_COMPAT_FEATURES as int,
    );
    let v = field(p.volume_name@, 16, 16);
    let m = field(p.last_mounted@, 63, 64);
    let b = a + p.uuid@;
    let c = b + v;
    let d = c + m + zero_seq(36);
    let e = d + p.hash_seed@;
    let f = e + seq![1u8] + zero_seq(3) + bytes32(0x0C) + bytes32(0);
    let g = f + bytes32(p.timestamp as int);
    let h = g + zero_seq(80);
    let i = h + bytes16(32);
    let j = i + bytes16(32);
    let r = j + zero_seq(672);
    assert(r == sb_rest(p));
    assert(a.len() == 12 && b.len() == 28 && c.len() == 44 && d.len() == 144 && e.len() == 160);
    assert(f.len() == 172 && g.len() == 176);
    assert(b.subrange(12, 28) =~= p.uuid@);
    assert(c.subrange(28, 44) =~= v);
    assert(e.subrange(144, 160) =~= p.hash_seed@);
    assert(g.subrange(172, 176) =~= bytes32(p.timestamp as int));
    lemma_front(b, v, 12, 28);
    lemma_front(c, m, 12, 28);
    lemma_front(c + m, zero_seq(36), 12, 28);
    lemma_front(c, m, 28, 44);
    lemma_front(c + m, zero_seq(36), 28, 44);
    lemma_rest_of(d, p, 12, 28);
    lemma_rest_of(d, p, 28, 44);
    lemma_rest_on(e, p, 144, 160);
    lemma_front(g, zero_seq(80), 172, 176);
    lemma_front(h, bytes16(32), 172, 176);
    lemma_front(i, bytes16(32), 172, 176);
    lemma_front(j, zero_seq(672), 172, 176);
}

/// What follows the hash seed leaves the front as it is.
proof fn lemma_rest_on(e: Seq<u8>, p: Params, x: int, y: int)
    requires
        0 <= x <= y <= e.len(),
    ensures
        (e + seq![1u8] + zero_seq(3) + bytes32(0x0C) + bytes32(0) + bytes32(p.timestamp as int)
            + zero_seq(80) + bytes16(32) + bytes16(32) + zero_seq(672)).subrange(x, y)
            == e.subrange(x, y),
{
    let f1 = e + seq![1u8];
    let f2 = f1 + zero_seq(3);
    let f3 = f2 + bytes32(0x0C);
    let f4 = f3 + bytes32(0);
    let f5 = f4 + bytes32(p.timestamp as int);
    let f6 = f5 + zero_seq(80);
    let f7 = f6 + bytes16(32);
    let f8 = f7 + bytes16(32);
    lemma_front(e, seq![1u8], x, y);
    lemma_front(f1, zero_seq(3), x, y);
    lemma_front(f2, bytes32(0x0C), x, y);
    lemma_front(f3, bytes32(0), x, y);
    lemma_front(f4, bytes32(p.timestamp as int), x, y);
    lemma_front(f5, zero_seq(80), x, y);
    lemma_front(f6, bytes16(32), x, y);
    lemma_front(f7, bytes16(32), x, y);
    lemma_front(f8, zero_seq(672), x, y);
}

/// What follows the names leaves the front as it is.
proof fn lemma_rest_of(d: Seq<u8>, p: Params, x: int, y: int)
    requires
        0 <= x <= y <= d.len(),
    ensures
        (d + p.hash_seed@ + seq![1u8] + zero_seq(3) + bytes32(0x0C) + bytes32(0) + bytes32(
            p.timestamp as int,
        ) + zero_seq(80) + bytes16(32) + bytes16(32) + zero_seq(672)).subrange(x, y) == d.subrange(
            x,
            y,
        ),
{
    lemma_front(d, p.hash_seed@, x, y);
    lemma_rest_on(d + p.hash_seed@, p, x, y);
}

/// The names, ids and times that the superblock of an image has.
pub proof fn lemma_sb_fields(l: Groups, p: Params, c: Content)
    requires
        well_formed(l),
        0 < l.ipg * l.groups <= u32::MAX,
    ensures
        ({
            let img = whole(l, p, c);
            &&& img.subrange(0x468, 0x478) == p.uuid@
            &&& img.subrange(0x478, 0x488) == field(p.volume_name@, 16, 16)
            &&& img.subrange(0x4EC, 0x4FC) == p.hash_seed@
            &&& sb32(img, 0x108) == p.timestamp
        }),
{
    lemma_sb_part(l, p, c);
    lemma_superblock_len(l, p, c, 0);
    lemma_sb_head(l, p, c);
    lemma_sb_rest(p);
    let img = whole(l, p, c);
    let h = sb_head(l, p, c, 0);
    let r = sb_rest(p);
    let sb = superblock(l, p, c, 0);
    reveal(superblock);
    assert(h.len() == 92);
    assert forall|k: int| 0 <= k < 932 implies #[trigger] r[k] == img[1116 + k] by {
        assert(sb[92 + k] == r[k]);
        assert(img.subrange(1024, 2048)[92 + k] == img[1116 + k]);
    }
    assert(img.subrange(0x468, 0x478) =~= r.subrange(12, 28));
    assert(img.subrange(0x478, 0x488) =~= r.subrange(28, 44));
    assert(img.subrange(0x4EC, 0x4FC) =~= r.subrange(144, 160));
    let t = bytes32(p.timestamp as int);
    lemma_bytes32(p.timestamp as int);
    assert(t == r.subrange(172, 176));
    assert(t[0] == r[172] && t[1] == r[173] && t[2] == r[174] && t[3] == r[175]);
    assert(r[172] == img[1288] && r[173] == img[1289] && r[174] == img[1290] && r[175]
        == img[1291]);
    assert(le32(img, 1288) == le32(t, 0));
}

/// The group descriptors stand behind the superblock's block.
pub proof fn lemma_desc_part(l: Groups, p: Params, c: Content, g: int)
    requires
        well_formed(l),
        0 <= g < l.groups,
    ensures
        ({
            let at = (first_block(l.bs) + 1) * l.bs + g * 32;
            &&& 0 <= at
            &&& at + 32 <= whole(l, p, c).len()
            &&& whole(l, p, c).subrange(at, at + 32) == desc_bytes(l, c, g)
        }),
{
    lemma_bounds(l);
    lemma_group(l, 0);
    lemma_sizes(l, 0);
    lemma_group_len(l, p, c, 0);
    lemma_superblock_len(l, p, c, 0);
    lemma_gdt_len(l, c);
    lemma_descs_len(l, c, l.groups);
    let bs = l.bs;
    let from = bs + g * 32;
    let h = group_head(l, p, c, 0);
    assert(0 * l.bpg == 0) by (nonlinear_arith);
    assert((first_block(bs) + 1) * bs == first_block(bs) * bs + bs) by (nonlinear_arith);
    let gd = l.gdt_blocks * bs;
    assert((1 + l.gdt_blocks) * bs == bs + gd) by (nonlinear_arith)
        requires
            gd == l.gdt_blocks * bs,
    ;
    lemma_group_part(l, p, c, 0, from, 32);
    let b = group_bytes(l, p, c, 0);
    reveal(group_bytes);
    reveal(group_head);
    reveal(gdt);
    let want = desc_bytes(l, c, g);
    lemma_desc_at(l, c, g, l.groups);
    let all = descs(l, c, l.groups);
    assert forall|k: int| 0 <= k < 32 implies #[trigger] b.subrange(from, from + 32)[k]
        == want[k] by {
        assert(b[from + k] == h[from + k]);
        assert(h[bs + (g * 32 + k)] == gdt(l, c)[g * 32 + k]);
        assert(gdt(l, c)[g * 32 + k] == all[g * 32 + k]);
        assert(all.subrange(32 * g, 32 * g + 32)[k] == all[g * 32 + k]);
    }
    assert(b.subrange(from, from + 32) =~= want);
}

proof fn lemma_desc_at(l: Groups, c: Content, g: int, n: int)
    requires
        0 <= g < n,
    ensures
        descs(l, c, n).len() == 32 * n,
        descs(l, c, n).subrange(32 * g, 32 * g + 32) == desc_bytes(l, c, g),
    decreases n,
{
    lemma_descs_len(l, c, n);
    lemma_descs_len(l, c, n - 1);
    let a = descs(l, c, n - 1);
    let b = descs(l, c, n);
    if g < n - 1 {
        lemma_desc_at(l, c, g, n - 1);
        assert(b.subrange(32 * g, 32 * g + 32) =~= a.subrange(32 * g, 32 * g + 32));
    } else {
        assert(b.subrange(32 * g, 32 * g + 32) =~= desc_bytes(l, c, g));
    }
}

/// What the reader works with.
pub proof fn lemma_reader(l: Groups, p: Params, c: Content)
    requires
        well_formed(l),
        0 < l.ipg * l.groups <= u32::MAX,
    ensures
        ({
            let img = whole(l, p, c);
            &&& block_size(img) == l.bs
            &&& blocks_count(img) == l.blocks
            &&& inodes_count(img) == l.ipg * l.groups
            &&& inodes_per_group(img) == l.ipg
            &&& inode_size(img) == 256
            &&& desc_size(img) == 32
            &&& !is_64bit(img)
            &&& groups(img) == l.groups
            &&& gdt_offset(img) == (first_block(l.bs) + 1) * l.bs
            &&& crate::fs::ext4::has_filetype(img)
            &&& open_fault(img) is None
            &&& 0 < l.ipg
        }),
{
    lemma_bounds(l);
    lemma_sb(l, p, c);
    let img = whole(l, p, c);
    reveal(block_size);
    let f: u32 = 0x42;
    assert(f & 0x80 == 0 && f & 0xFFFC_1839 == 0 && f & 0x2 != 0) by (bit_vector)
        requires
            f == 0x42,
    ;
    assert(incompat(img) == 0x42);
    let ipg = l.ipg;
    let n = l.groups;
    assert(0 < ipg) by (nonlinear_arith)
        requires
            0 < ipg * n,
            0 <= ipg,
    ;
    assert(ipg * n == n * ipg) by (nonlinear_arith);
    crate::fs::mkext4::size::lemma_exact(n, ipg);
    lemma_desc_part(l, p, c, n - 1);
    assert(groups(img) * desc_size(img) == 32 * n);
}

/// The reader finds the inode tables.
pub proof fn lemma_table(l: Groups, p: Params, c: Content, g: int)
    requires
        well_formed(l),
        0 < l.ipg * l.groups <= u32::MAX,
        0 <= g < l.groups,
    ensures
        inode_table(whole(l, p, c), g) == group_start(l, g) + super_blocks(l, g) + 2,
{
    lemma_bounds(l);
    lemma_reader(l, p, c);
    lemma_desc_part(l, p, c, g);
    lemma_group(l, g);
    let img = whole(l, p, c);
    let at = gdt_offset(img) + g * 32;
    let d = desc_bytes(l, c, g);
    let t = group_start(l, g) + super_blocks(l, g) + 2;
    lemma_bytes32(t);
    assert(le32(d, 8) == le32(bytes32(t), 0));
    assert forall|k: int| 0 <= k < 32 implies #[trigger] d[k] == img[at + k] by {
        assert(img.subrange(at, at + 32)[k] == img[at + k]);
    }
    assert(d[8] == img[at + 8] && d[9] == img[at + 9] && d[10] == img[at + 10] && d[11] == img[at
        + 11]);
}

/// The reader finds inode `ino`.
pub proof fn lemma_inode_at(l: Groups, p: Params, c: Content, ino: int)
    requires
        well_formed(l),
        l.ipg * l.groups <= u32::MAX,
        1 <= ino <= l.ipg * l.groups,
        ino * 256 <= c.image.inodes.len(),
    ensures
        inode_at(whole(l, p, c), ino) == Ok::<InodeView, Error>(
            inode_in(
                whole(l, p, c),
                c.image.inodes.subrange((ino - 1) * 256, ino * 256),
            ),
        ),
{
    lemma_reader(l, p, c);
    lemma_inode_part(l, p, c, ino);
    lemma_table(l, p, c, (ino - 1) / l.ipg);
}

/// The blocks handed out are shown.
pub proof fn lemma_shows(l: Groups, p: Params, c: Content)
    requires
        well_formed(l),
        0 < l.ipg * l.groups <= u32::MAX,
        data_ok(l, c.image.data),
    ensures
        shows(whole(l, p, c), l, c.image.data),
{
    lemma_bounds(l);
    lemma_reader(l, p, c);
    reveal(shows);
    let img = whole(l, p, c);
    let d = c.image.data;
    assert forall|k: int| 0 <= k < d.len() as int / l.bs implies 0 <= #[trigger] nth_block(l, k)
        < l.blocks && (nth_block(l, k) + 1) * l.bs <= img.len() && img.subrange(
        nth_block(l, k) * l.bs,
        nth_block(l, k) * l.bs + l.bs,
    ) == data_block(l, d, k) by {
        lemma_data_part(l, p, c, k);
    }
}

} // verus!
