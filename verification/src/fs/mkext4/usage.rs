//! Which blocks and inodes of a written image are marked as in use: bitmaps,
//! the counts in the group descriptors, and those in the superblock.
use vstd::prelude::*;
use vstd::arithmetic::power2::pow2;
use crate::bytes::{bytes16, bytes32, ceil_div, le16, le32, lemma_bytes16, lemma_bytes32};
use crate::fs::mkext4::extents::data_ok;
use crate::fs::mkext4::image::{bit_set, bit_value, bitmap, bitmap_byte, clamp, desc_bytes, dirs_in,
    group_bitmaps, group_bytes, last_ino, lemma_group_len, taken, used_blocks, used_inodes,
    Content};
use crate::fs::mkext4::inode::{ino_of, lemma_image_upto};
use crate::fs::mkext4::layout::{capacity, first_block, group_len, group_start, has_super, home,
    lemma_bounds, lemma_group, lemma_home, lemma_room_mono, nth_block, overhead, room, room_before,
    super_blocks, well_formed, Groups};
use crate::fs::mkext4::read_back::{groups_of, image_of, inode_number, lemma_writable, writable};
use crate::fs::mkext4::read_groups::{lemma_desc_part, lemma_group_part, lemma_sb_free, lemma_sizes,
    whole};
use crate::fs::mkext4::{laid_out, Node, Params};
use crate::fs::tree::items_of;

verus! {

broadcast use crate::bytes::group_byte_lens;

/// Bit `i` of the bytes from `at` on; the lowest bit of a byte comes first.
pub open spec fn bit_at(img: Seq<u8>, at: int, i: int) -> bool {
    img[at + i / 8] as int / pow2((i % 8) as nat) as int % 2 == 1
}

/// Clear bits among the first `n` of the bytes from `at` on.
pub open spec fn clear_bits(img: Seq<u8>, at: int, n: int) -> int
    decreases n,
{
    if n <= 0 {
        0
    } else {
        clear_bits(img, at, n - 1) + (if bit_at(img, at, n - 1) {
            0int
        } else {
            1
        })
    }
}

/// Where the descriptor of group `g` stands in an image with blocks of `bs`
/// bytes: they follow the block of the superblock, which is at byte 1024.
pub open spec fn desc_at(bs: int, g: int) -> int {
    (if bs == 1024 {
        2048
    } else {
        bs
    }) + 32 * g
}

/// The sum of the 16-bit counts at byte `field` of the first `g` descriptors.
pub open spec fn count_sum(img: Seq<u8>, bs: int, field: int, g: int) -> int
    decreases g,
{
    if g <= 0 {
        0
    } else {
        count_sum(img, bs, field, g - 1) + le16(img, desc_at(bs, g - 1) + field)
    }
}

/// Block `b` of group `g` holds metadata of the group: a copy of the
/// superblock and the descriptors, a bitmap, or a part of the inode table,
/// where the descriptor says they are.
pub open spec fn is_metadata(img: Seq<u8>, bs: int, g: int, groups: int, b: int) -> bool {
    let start = (if bs == 1024 {
        1int
    } else {
        0
    }) + g * (8 * bs);
    let d = desc_at(bs, g);
    let table = le32(img, d + 8);
    let ipg = le32(img, 0x428);
    ||| has_super(g) && start <= b <= start + ceil_div(32 * groups, bs)
    ||| b == le32(img, d)
    ||| b == le32(img, d + 4)
    ||| table <= b < table + ipg * 256 / bs
}

/// Block `b` was handed out to content.
pub open spec fn is_handed_out(root: Node, p: Params, b: int) -> bool {
    exists|k: int|
        0 <= k && k * p.block_size < laid_out(root, p)->Ok_0.content.image.data.len()
            && #[trigger] nth_block(groups_of(root, p), k) == b
}

/// Inode `ino` is in use: reserved, or that of a node.
pub open spec fn is_used(root: Node, ino: int) -> bool {
    ino <= 10 || exists|i: int|
        0 <= i < items_of(root).len() && #[trigger] inode_number(root, i) == ino
}

/// Directories among the first `n` nodes whose inode is one of the `ipg` of
/// group `g`.
pub open spec fn dirs_among(root: Node, ipg: int, g: int, n: int) -> int
    decreases n,
{
    if n <= 0 {
        0
    } else {
        dirs_among(root, ipg, g, n - 1) + (if items_of(root)[n - 1].node.kind is Dir && g * ipg
            < inode_number(root, n - 1) <= (g + 1) * ipg {
            1int
        } else {
            0
        })
    }
}

/// The bits of a byte of a bitmap.
proof fn lemma_byte_bit(a: int, b: int, k: int, j: int)
    requires
        0 <= j < 8,
    ensures
        (bitmap_byte(a, b, k) as int / pow2(j as nat) as int % 2 == 1) == bit_set(a, b, 8 * k + j),
{
    vstd::arithmetic::power2::lemma2_to64();
    let b0 = bit_value(a, b, 8 * k, 1);
    let b1 = bit_value(a, b, 8 * k + 1, 2);
    let b2 = bit_value(a, b, 8 * k + 2, 4);
    let b3 = bit_value(a, b, 8 * k + 3, 8);
    let b4 = bit_value(a, b, 8 * k + 4, 16);
    let b5 = bit_value(a, b, 8 * k + 5, 32);
    let b6 = bit_value(a, b, 8 * k + 6, 64);
    let b7 = bit_value(a, b, 8 * k + 7, 128);
    let v = bitmap_byte(a, b, k) as int;
    assert(v == b0 + b1 + b2 + b3 + b4 + b5 + b6 + b7);
    assert(v / 1 % 2 == 1 <==> b0 == 1);
    assert(v / 2 % 2 == 1 <==> b1 == 2);
    assert(v / 4 % 2 == 1 <==> b2 == 4);
    assert(v / 8 % 2 == 1 <==> b3 == 8);
    assert(v / 16 % 2 == 1 <==> b4 == 16);
    assert(v / 32 % 2 == 1 <==> b5 == 32);
    assert(v / 64 % 2 == 1 <==> b6 == 64);
    assert(v / 128 % 2 == 1 <==> b7 == 128);
}

/// The bits of a bitmap in an image.
proof fn lemma_bits(img: Seq<u8>, at: int, a: int, b: int, n: int, i: int)
    requires
        0 <= at,
        at + n <= img.len(),
        img.subrange(at, at + n) == bitmap(a, b, n),
        0 <= i < 8 * n,
    ensures
        bit_at(img, at, i) == bit_set(a, b, i),
{
    let k = i / 8;
    assert(img.subrange(at, at + n)[k] == img[at + k]);
    assert(bitmap(a, b, n)[k] == bitmap_byte(a, b, k));
    lemma_byte_bit(a, b, k, i % 8);
}

/// The clear bits of a bitmap in an image.
proof fn lemma_clear(img: Seq<u8>, at: int, a: int, b: int, n: int, i: int)
    requires
        0 <= at,
        at + n <= img.len(),
        img.subrange(at, at + n) == bitmap(a, b, n),
        0 <= a <= b,
        0 <= i <= 8 * n,
    ensures
        clear_bits(img, at, i) == clamp(i - a, b - a),
    decreases i,
{
    if i > 0 {
        lemma_clear(img, at, a, b, n, i - 1);
        lemma_bits(img, at, a, b, n, i - 1);
    }
}

/// Where the bitmaps of group `g` stand.
proof fn lemma_bitmap_part(l: Groups, p: Params, c: Content, g: int)
    requires
        well_formed(l),
        0 <= g < l.groups,
    ensures
        ({
            let at = (group_start(l, g) + super_blocks(l, g)) * l.bs;
            let img = whole(l, p, c);
            &&& 0 <= at
            &&& at + 2 * l.bs <= img.len()
            &&& img.subrange(at, at + l.bs) == bitmap(
                used_blocks(l, taken(l, c), g),
                group_len(l, g),
                l.bs,
            )
            &&& img.subrange(at + l.bs, at + 2 * l.bs) == bitmap(
                used_inodes(l, last_ino(c), g),
                l.ipg,
                l.bs,
            )
        }),
{
    lemma_bounds(l);
    lemma_group(l, g);
    lemma_sizes(l, g);
    lemma_group_len(l, p, c, g);
    let bs = l.bs;
    let from = super_blocks(l, g) * bs;
    let at = (group_start(l, g) + super_blocks(l, g)) * bs;
    assert(at == group_start(l, g) * bs + from) by (nonlinear_arith)
        requires
            at == (group_start(l, g) + super_blocks(l, g)) * bs,
            from == super_blocks(l, g) * bs,
    ;
    lemma_group_part(l, p, c, g, from, 2 * bs);
    let img = whole(l, p, c);
    let b = group_bytes(l, p, c, g);
    let maps = group_bitmaps(l, c, g);
    reveal(group_bytes);
    let part = b.subrange(from, from + 2 * bs);
    assert(part =~= maps);
    assert(img.subrange(at, at + 2 * bs) == maps);
    let x = bitmap(used_blocks(l, taken(l, c), g), group_len(l, g), bs);
    let y = bitmap(used_inodes(l, last_ino(c), g), l.ipg, bs);
    assert(maps == x + y);
    assert(img.subrange(at, at + bs) =~= img.subrange(at, at + 2 * bs).subrange(0, bs));
    assert((x + y).subrange(0, bs) =~= x);
    assert(img.subrange(at + bs, at + 2 * bs) =~= img.subrange(at, at + 2 * bs).subrange(
        bs,
        2 * bs,
    ));
    assert((x + y).subrange(bs, 2 * bs) =~= y);
}

/// What the descriptor of group `g` says.
proof fn lemma_desc(l: Groups, p: Params, c: Content, g: int)
    requires
        well_formed(l),
        0 <= g < l.groups,
        0 <= last_ino(c),
    ensures
        ({
            let img = whole(l, p, c);
            let d = desc_at(l.bs, g);
            let at = group_start(l, g) + super_blocks(l, g);
            &&& le32(img, d) == at
            &&& le32(img, d + 4) == at + 1
            &&& le32(img, d + 8) == at + 2
            &&& le16(img, d + 12) == group_len(l, g) - used_blocks(l, taken(l, c), g)
            &&& le16(img, d + 14) == l.ipg - used_inodes(l, last_ino(c), g)
            &&& le16(img, d + 16) == dirs_in(c.items, c.lf, l.ipg, g, c.items.len() as int)
                % 0x1_0000
        }),
{
    lemma_bounds(l);
    lemma_group(l, g);
    lemma_desc_part(l, p, c, g);
    let img = whole(l, p, c);
    let bs = l.bs;
    let d = desc_at(bs, g);
    assert((first_block(bs) + 1) * bs + g * 32 == d) by (nonlinear_arith)
        requires
            d == (if bs == 1024 {
                2048
            } else {
                bs
            }) + 32 * g,
            first_block(bs) == (if bs == 1024 {
                1int
            } else {
                0
            }),
    ;
    let at = group_start(l, g) + super_blocks(l, g);
    let free = group_len(l, g) - used_blocks(l, taken(l, c), g);
    let left = l.ipg - used_inodes(l, last_ino(c), g);
    let dirs = dirs_in(c.items, c.lf, l.ipg, g, c.items.len() as int) % 0x1_0000;
    let x = desc_bytes(l, c, g);
    lemma_bytes32(at);
    lemma_bytes32(at + 1);
    lemma_bytes32(at + 2);
    lemma_bytes16(free);
    lemma_bytes16(left);
    lemma_bytes16(dirs);
    assert(le32(x, 0) == le32(bytes32(at), 0));
    assert(le32(x, 4) == le32(bytes32(at + 1), 0));
    assert(le32(x, 8) == le32(bytes32(at + 2), 0));
    assert(le16(x, 12) == le16(bytes16(free), 0));
    assert(le16(x, 14) == le16(bytes16(left), 0));
    assert(le16(x, 16) == le16(bytes16(dirs), 0));
    assert forall|k: int| 0 <= k < 32 implies #[trigger] x[k] == img[d + k] by {
        assert(img.subrange(d, d + 32)[k] == img[d + k]);
    }
    assert(x[0] == img[d] && x[1] == img[d + 1] && x[2] == img[d + 2] && x[3] == img[d + 3]);
    assert(x[4] == img[d + 4] && x[5] == img[d + 5] && x[6] == img[d + 6] && x[7] == img[d + 7]);
    assert(x[8] == img[d + 8] && x[9] == img[d + 9] && x[10] == img[d + 10] && x[11]
        == img[d + 11]);
    assert(x[12] == img[d + 12] && x[13] == img[d + 13] && x[14] == img[d + 14]);
    assert(x[15] == img[d + 15] && x[16] == img[d + 16] && x[17] == img[d + 17]);
}

/// The blocks of group `g` that were handed out are the first ones behind its
/// metadata.
proof fn lemma_taken_in(l: Groups, n: int, g: int, b: int)
    requires
        well_formed(l),
        0 <= n <= capacity(l),
        0 <= g < l.groups,
        group_start(l, g) <= b < group_start(l, g) + group_len(l, g),
    ensures
        (b < group_start(l, g) + used_blocks(l, n, g)) == (b < group_start(l, g) + overhead(l, g)
            || exists|k: int| 0 <= k < n && #[trigger] nth_block(l, k) == b),
{
    lemma_group(l, g);
    let start = group_start(l, g) + overhead(l, g);
    lemma_room_mono(l, g + 1, l.groups);
    lemma_room_mono(l, 0, g);
    assert(room_before(l, g + 1) == room_before(l, g) + room(l, g));
    if start <= b {
        let k = room_before(l, g) + (b - start);
        lemma_home(l, k);
        let h = home(l, k);
        if h < g {
            lemma_room_mono(l, h + 1, g);
        } else if h > g {
            lemma_room_mono(l, g + 1, h);
        }
        assert(h == g);
        assert(nth_block(l, k) == b);
        if exists|j: int| 0 <= j < n && #[trigger] nth_block(l, j) == b {
            let j = choose|j: int| 0 <= j < n && #[trigger] nth_block(l, j) == b;
            if j < k {
                crate::fs::mkext4::layout::blocks_are_distinct(l, j, k);
            } else if k < j {
                crate::fs::mkext4::layout::blocks_are_distinct(l, k, j);
            }
            assert(j == k);
        }
    }
}

/// The free blocks of the first `g` groups.
proof fn lemma_free_sum(l: Groups, p: Params, c: Content, g: int)
    requires
        well_formed(l),
        0 <= taken(l, c),
        0 <= last_ino(c),
        0 <= g <= l.groups,
    ensures
        count_sum(whole(l, p, c), l.bs, 12, g) == room_before(l, g) - clamp(
            taken(l, c),
            room_before(l, g),
        ),
        count_sum(whole(l, p, c), l.bs, 14, g) == g * l.ipg - clamp(last_ino(c), g * l.ipg),
    decreases g,
{
    lemma_bounds(l);
    if g > 0 {
        lemma_free_sum(l, p, c, g - 1);
        lemma_desc(l, p, c, g - 1);
        lemma_group(l, g - 1);
        lemma_room_mono(l, 0, g - 1);
        let ipg = l.ipg;
        assert(g * ipg == (g - 1) * ipg + ipg) by (nonlinear_arith);
        assert(0 <= (g - 1) * ipg) by (nonlinear_arith)
            requires
                0 <= g - 1,
                0 <= ipg,
        ;
    } else {
        assert(0 * l.ipg == 0) by (nonlinear_arith);
    }
}

/// What the image of a tree is made of.
proof fn lemma_made(root: Node, p: Params)
    requires
        writable(root, p),
    ensures
        ({
            let l = groups_of(root, p);
            let c = laid_out(root, p)->Ok_0.content;
            &&& well_formed(l)
            &&& l.bs == p.block_size
            &&& image_of(root, p) == whole(l, p, c)
            &&& data_ok(l, c.image.data)
            &&& 0 <= taken(l, c) <= capacity(l)
            &&& c.image.data.len() == taken(l, c) * l.bs
            &&& c.items == items_of(root)
            &&& 0 <= last_ino(c) <= l.ipg * l.groups <= u32::MAX
            &&& 0 < c.lf < c.items.len()
            &&& forall|i: int| #[trigger] inode_number(root, i) == ino_of(c.lf, i)
        }),
{
    lemma_writable(root, p);
    let l = groups_of(root, p);
    let c = laid_out(root, p)->Ok_0.content;
    lemma_bounds(l);
    crate::fs::mkext4::layout::lemma_layout_blocks(
        p.block_size as int,
        p.blocks as int,
        crate::fs::mkext4::min_inodes(root, p),
    );
    lemma_image_upto(l, c.items, c.lf, c.items.len() as int, p.timestamp as int);
    let n = c.image.data.len() as int;
    let bs = l.bs;
    assert(0 <= n / bs && n == n / bs * bs) by (nonlinear_arith)
        requires
            0 <= n,
            0 < bs,
            n % bs == 0,
    ;
}

/// In the block bitmap of a group, the bit of a block is set exactly when the
/// block holds metadata of the group, was handed out to content, or lies
/// behind the end of the image.
pub proof fn block_bitmap_marks_used_blocks(root: Node, p: Params, g: int, i: int)
    requires
        writable(root, p),
        0 <= g < groups_of(root, p).groups,
        0 <= i < 8 * p.block_size,
    ensures
        ({
            let img = image_of(root, p);
            let bs = p.block_size as int;
            let b = (if bs == 1024 {
                1int
            } else {
                0
            }) + g * (8 * bs) + i;
            bit_at(img, le32(img, desc_at(bs, g)) * bs, i) == (b * bs >= img.len() || is_metadata(
                img,
                bs,
                g,
                groups_of(root, p).groups,
                b,
            ) || is_handed_out(root, p, b))
        }),
{
    lemma_made(root, p);
    let l = groups_of(root, p);
    let c = laid_out(root, p)->Ok_0.content;
    let img = image_of(root, p);
    let bs = l.bs;
    lemma_bounds(l);
    lemma_group(l, g);
    lemma_bitmap_part(l, p, c, g);
    lemma_desc(l, p, c, g);
    lemma_sb_free(l, p, c);
    let b = group_start(l, g) + i;
    let n = taken(l, c);
    let at = group_start(l, g) + super_blocks(l, g);
    lemma_bits(img, at * bs, used_blocks(l, n, g), group_len(l, g), bs, i);
    crate::fs::mkext4::read_back::ext4_image_length(root, p);
    assert(b * bs >= img.len() <==> b >= l.blocks) by (nonlinear_arith)
        requires
            img.len() == l.blocks * bs,
            0 < bs,
    ;
    if g < l.groups - 1 {
        lemma_group(l, g + 1);
    }
    assert(l.itable_blocks == l.ipg * 256 / bs) by (nonlinear_arith)
        requires
            l.itable_blocks * bs == l.ipg * 256,
            0 < bs,
    ;
    assert(32 * l.groups == l.groups * 32);
    assert(b < l.blocks ==> (is_metadata(img, bs, g, l.groups, b) <==> i < overhead(l, g)));
    if b < l.blocks {
        assert(i < group_len(l, g));
        lemma_taken_in(l, n, g, b);
        if is_handed_out(root, p, b) {
            let k = choose|k: int|
                0 <= k && k * p.block_size < c.image.data.len() && #[trigger] nth_block(l, k) == b;
            assert(k < n) by (nonlinear_arith)
                requires
                    k * bs < n * bs,
                    0 < bs,
            ;
            assert(nth_block(l, k) == b);
        }
        if exists|k: int| 0 <= k < n && #[trigger] nth_block(l, k) == b {
            let k = choose|k: int| 0 <= k < n && #[trigger] nth_block(l, k) == b;
            assert(k * bs < n * bs) by (nonlinear_arith)
                requires
                    k < n,
                    0 < bs,
            ;
            assert(nth_block(l, k) == b);
        }
    }
}

/// The free blocks that a group descriptor counts are the clear bits of the
/// group's block bitmap, and those of all groups add up to the free blocks
/// that the superblock counts.
pub proof fn free_blocks_add_up(root: Node, p: Params, g: int)
    requires
        writable(root, p),
        0 <= g < groups_of(root, p).groups,
    ensures
        ({
            let img = image_of(root, p);
            let bs = p.block_size as int;
            let d = desc_at(bs, g);
            &&& le16(img, d + 12) == clear_bits(img, le32(img, d) * bs, 8 * bs)
            &&& count_sum(img, bs, 12, groups_of(root, p).groups) == le32(img, 0x40C)
        }),
{
    lemma_made(root, p);
    let l = groups_of(root, p);
    let c = laid_out(root, p)->Ok_0.content;
    let img = image_of(root, p);
    let bs = l.bs;
    lemma_bounds(l);
    lemma_group(l, g);
    lemma_bitmap_part(l, p, c, g);
    lemma_desc(l, p, c, g);
    lemma_sb_free(l, p, c);
    lemma_free_sum(l, p, c, l.groups);
    let at = group_start(l, g) + super_blocks(l, g);
    lemma_clear(img, at * bs, used_blocks(l, taken(l, c), g), group_len(l, g), bs, 8 * bs);
}

/// In the inode bitmap of a group, the bit of an inode is set exactly when it
/// is reserved, is that of a node, or is none of the group's inodes.
pub proof fn inode_bitmap_marks_used_inodes(root: Node, p: Params, g: int, i: int)
    requires
        writable(root, p),
        0 <= g < groups_of(root, p).groups,
        0 <= i < 8 * p.block_size,
    ensures
        ({
            let img = image_of(root, p);
            let bs = p.block_size as int;
            let ipg = le32(img, 0x428);
            bit_at(img, le32(img, desc_at(bs, g) + 4) * bs, i) == (i >= ipg || is_used(
                root,
                g * ipg + i + 1,
            ))
        }),
{
    lemma_made(root, p);
    let l = groups_of(root, p);
    let c = laid_out(root, p)->Ok_0.content;
    let img = image_of(root, p);
    let bs = l.bs;
    lemma_bounds(l);
    lemma_bitmap_part(l, p, c, g);
    lemma_desc(l, p, c, g);
    lemma_sb_free(l, p, c);
    let at = group_start(l, g) + super_blocks(l, g);
    assert((at + 1) * bs == at * bs + bs) by (nonlinear_arith);
    lemma_bits(img, (at + 1) * bs, used_inodes(l, last_ino(c), g), l.ipg, bs, i);
    let ino = g * l.ipg + i + 1;
    assert(0 <= g * l.ipg) by (nonlinear_arith)
        requires
            0 <= g,
            0 <= l.ipg,
    ;
    let n = c.items.len() as int;
    if ino <= last_ino(c) && ino > 10 {
        let j = if ino == 11 {
            c.lf
        } else if ino - 11 < c.lf {
            ino - 11
        } else {
            ino - 10
        };
        assert(inode_number(root, j) == ino);
    }
    if ino > last_ino(c) && is_used(root, ino) {
        let j = choose|j: int|
            0 <= j < items_of(root).len() && #[trigger] inode_number(root, j) == ino;
        assert(ino_of(c.lf, j) == ino);
    }
}

/// The directories that a group descriptor counts are those whose inode is
/// one of the group's; the free inodes are the clear bits of the group's
/// inode bitmap, and those of all groups add up to the free inodes that the
/// superblock counts.
pub proof fn inode_counts_add_up(root: Node, p: Params, g: int)
    requires
        writable(root, p),
        0 <= g < groups_of(root, p).groups,
    ensures
        ({
            let img = image_of(root, p);
            let bs = p.block_size as int;
            let d = desc_at(bs, g);
            let ipg = le32(img, 0x428);
            &&& le16(img, d + 14) == clear_bits(img, le32(img, d + 4) * bs, 8 * bs)
            &&& count_sum(img, bs, 14, groups_of(root, p).groups) == le32(img, 0x410)
            &&& le16(img, d + 16) == dirs_among(root, ipg, g, items_of(root).len() as int)
                % 0x1_0000
            &&& le32(img, 1024) == ipg * groups_of(root, p).groups
        }),
{
    lemma_made(root, p);
    let l = groups_of(root, p);
    let c = laid_out(root, p)->Ok_0.content;
    let img = image_of(root, p);
    let bs = l.bs;
    lemma_bounds(l);
    lemma_bitmap_part(l, p, c, g);
    lemma_desc(l, p, c, g);
    lemma_sb_free(l, p, c);
    lemma_free_sum(l, p, c, l.groups);
    let at = group_start(l, g) + super_blocks(l, g);
    assert((at + 1) * bs == at * bs + bs) by (nonlinear_arith);
    assert(l.groups * l.ipg == l.ipg * l.groups) by (nonlinear_arith);
    lemma_clear(img, (at + 1) * bs, used_inodes(l, last_ino(c), g), l.ipg, bs, 8 * bs);
    lemma_dirs(root, c, l.ipg, g, c.items.len() as int);
}

proof fn lemma_dirs(root: Node, c: Content, ipg: int, g: int, n: int)
    requires
        0 <= g,
        0 < ipg,
        0 <= n <= c.items.len(),
        c.items == items_of(root),
        0 < c.lf,
        forall|i: int| #[trigger] inode_number(root, i) == ino_of(c.lf, i),
    ensures
        dirs_in(c.items, c.lf, ipg, g, n) == dirs_among(root, ipg, g, n),
    decreases n,
{
    if n > 0 {
        lemma_dirs(root, c, ipg, g, n - 1);
        let x = inode_number(root, n - 1) - 1;
        assert(x / ipg == g <==> g * ipg <= x < (g + 1) * ipg) by (nonlinear_arith)
            requires
                0 <= x,
                0 < ipg,
        ;
    }
}

} // verus!
