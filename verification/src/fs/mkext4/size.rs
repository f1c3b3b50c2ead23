//! How big an ext4 image has to be.
use vstd::prelude::*;
use crate::bytes::{align_up, ceil_div, div_up, lemma_round_up};
use crate::error::Error;
use crate::fs::mkext4::extents::MAX_EXTENT_LEN;
use crate::fs::mkext4::inode::{dir_data, lemma_attr_names, lost_found, node_dir, sound};
use crate::fs::mkext4::layout::{addressable, capacity, crowded, drops_last, first_block, group_start,
    groups_for, has_super, last_len, layout_for, lemma_bounds, lemma_dropped, lemma_group, lemma_kept,
    lemma_numbers, overhead, room_before, supported, well_formed, Groups, Layout};
use crate::fs::mkext4::pieces::{count_pieces, count_tree, file_pieces, lemma_extra, tree_size};
use crate::fs::mkext4::xattrs::{fits, place_xattrs};
use crate::fs::mkext4::{flatten, tree_fault, Node, NodeKind};
use crate::fs::tree::{items_of, numbered, Item, Numbered};
use crate::fs::xattr::{attrs_of, attrs_view, security_xattrs, Xattr};

verus! {

/// Metadata blocks of the first `g` groups.
pub open spec fn overheads(l: Groups, g: int) -> int
    decreases g,
{
    if g <= 0 {
        0
    } else {
        overheads(l, g - 1) + overhead(l, g - 1)
    }
}

/// Blocks that are not free for content.
pub open spec fn metadata(l: Groups) -> int {
    first_block(l.bs) + overheads(l, l.groups)
}

/// An image of `n` blocks with at least `inodes` inodes has room for `data`
/// blocks of content.
pub open spec fn holds(bs: int, n: int, inodes: int, data: int) -> bool {
    match layout_for(bs, n, inodes) {
        Ok(l) => data <= capacity(l),
        Err(_) => false,
    }
}

/// The smallest size from `n` on that has room.
pub open spec fn size_at(bs: int, inodes: int, data: int, n: int) -> Option<int>
    decreases u32::MAX + 1 - n,
{
    if n > u32::MAX {
        None
    } else if holds(bs, n, inodes, data) {
        Some(n)
    } else {
        size_at(bs, inodes, data, n + 1)
    }
}

/// The smallest size (in blocks) that has room for `data` blocks of content
/// and all group metadata for `inodes` inodes.
pub open spec fn smallest(data: int, inodes: int, bs: int) -> Option<int> {
    size_at(bs, inodes, data, first_block(bs) + 1)
}

proof fn lemma_size_at(bs: int, inodes: int, data: int, a: int, n: int)
    requires
        a <= n <= u32::MAX + 1,
        forall|m: int| a <= m < n ==> !#[trigger] holds(bs, m, inodes, data),
        n <= u32::MAX ==> holds(bs, n, inodes, data),
    ensures
        size_at(bs, inodes, data, a) == (if n <= u32::MAX {
            Some(n)
        } else {
            None
        }),
    decreases n - a,
{
    if a < n {
        assert(!holds(bs, a, inodes, data));
        lemma_size_at(bs, inodes, data, a + 1, n);
    }
}

/// The rooms and the metadata of the groups are all of the image.
pub proof fn lemma_parts(l: Groups, g: int)
    requires
        well_formed(l),
        0 <= g <= l.groups,
    ensures
        g < l.groups ==> first_block(l.bs) + room_before(l, g) + overheads(l, g) == group_start(l, g),
        g == l.groups ==> first_block(l.bs) + room_before(l, g) + overheads(l, g) == l.blocks,
        0 <= overheads(l, g),
    decreases g,
{
    lemma_bounds(l);
    if g > 0 {
        lemma_parts(l, g - 1);
        lemma_group(l, g - 1);
    } else {
        assert(0 * l.bpg == 0) by (nonlinear_arith);
    }
}

/// What is laid out is well-formed, and is what its own size gives.
pub proof fn lemma_laid(bs: int, blocks: int, min: int)
    requires
        supported(bs),
        addressable(bs, blocks),
        0 <= min,
        layout_for(bs, blocks, min) is Ok,
    ensures
        ({
            let l = layout_for(bs, blocks, min)->Ok_0;
            &&& l.blocks <= blocks
            &&& l == groups_for(bs, l.blocks, min)
            &&& well_formed(l)
            &&& addressable(bs, l.blocks)
            &&& layout_for(bs, l.blocks, min) == Ok::<Groups, Error>(l)
        }),
    decreases blocks,
{
    let l = groups_for(bs, blocks, min);
    lemma_numbers(bs, blocks, min);
    if drops_last(l) {
        lemma_dropped(bs, blocks, min);
        lemma_laid(bs, blocks - last_len(l), min);
    } else {
        lemma_kept(bs, blocks, min);
    }
}

pub proof fn lemma_exact(g: int, m: int)
    requires
        0 < m,
    ensures
        ceil_div(g * m, m) == g,
{
    vstd::arithmetic::div_mod::lemma_fundamental_div_mod_converse(g * m + m - 1, m, g, m - 1);
}

/// `n` is more than `g - 1` and at most `g` times `m`.
proof fn lemma_ceil(n: int, g: int, m: int)
    requires
        0 < m,
        (g - 1) * m < n <= g * m,
    ensures
        ceil_div(n, m) == g,
{
    let r = n + m - 1 - g * m;
    assert((g - 1) * m == g * m - m) by (nonlinear_arith);
    vstd::arithmetic::div_mod::lemma_fundamental_div_mod_converse(n + m - 1, m, g, r);
}

/// The largest image with `g` groups.
pub open spec fn full(bs: int, g: int) -> int {
    first_block(bs) + g * (8 * bs)
}

/// The groups of the largest image with `g` groups.
pub open spec fn plan(bs: int, g: int, inodes: int) -> Groups {
    groups_for(bs, full(bs, g), inodes)
}

/// Images with the same number of groups differ in the last one alone.
proof fn lemma_same_groups(bs: int, g: int, inodes: int, m: int)
    requires
        supported(bs),
        1 <= g,
        full(bs, g - 1) < m <= full(bs, g),
    ensures
        plan(bs, g, inodes).groups == g,
        groups_for(bs, m, inodes) == (Groups { blocks: m, ..plan(bs, g, inodes) }),
{
    let b = 8 * bs;
    lemma_ceil(m - first_block(bs), g, b);
    assert((g - 1) * b == g * b - b) by (nonlinear_arith);
    lemma_ceil(full(bs, g) - first_block(bs), g, b);
}

/// How many of the first `g` groups have a copy of the superblock.
pub open spec fn supers(g: int) -> int
    decreases g,
{
    if g <= 0 {
        0
    } else {
        supers(g - 1) + if has_super(g - 1) {
            1int
        } else {
            0
        }
    }
}

proof fn lemma_supers(g: int)
    requires
        0 <= g,
    ensures
        0 <= supers(g) <= g,
    decreases g,
{
    if g > 0 {
        lemma_supers(g - 1);
    }
}

/// The metadata of groups, by what each of them has.
proof fn lemma_overheads(l: Groups, g: int)
    requires
        0 <= g,
    ensures
        overheads(l, g) == g * (2 + l.itable_blocks) + supers(g) * (1 + l.gdt_blocks),
    decreases g,
{
    if g > 0 {
        lemma_overheads(l, g - 1);
        let a = 2 + l.itable_blocks;
        let b = 1 + l.gdt_blocks;
        let s = supers(g - 1);
        assert(g * a == (g - 1) * a + a) by (nonlinear_arith);
        assert((s + 1) * b == s * b + b) by (nonlinear_arith);
    } else {
        assert(0 * (2 + l.itable_blocks) == 0) by (nonlinear_arith);
        assert(0 * (1 + l.gdt_blocks) == 0) by (nonlinear_arith);
    }
}

/// The smallest image with `g` groups: the last one is big enough to keep.
pub open spec fn least(bs: int, g: int, inodes: int) -> int {
    let l = plan(bs, g, inodes);
    if g == 1 {
        overhead(l, 0) + 16
    } else {
        full(bs, g - 1) + overhead(l, g - 1) + 50
    }
}

/// The size of an image with `g` groups that has room for the content.
pub open spec fn wanted(bs: int, g: int, inodes: int, data: int) -> int {
    let need = data + metadata(plan(bs, g, inodes));
    if need < least(bs, g, inodes) {
        least(bs, g, inodes)
    } else {
        need
    }
}

/// Which images with `g` groups have room, where none with fewer groups has.
proof fn lemma_range(bs: int, g: int, inodes: int, data: int, m: int)
    requires
        supported(bs),
        1 <= g,
        0 <= inodes,
        full(bs, g - 1) < m <= full(bs, g),
        m <= u32::MAX,
        g > 1 ==> !holds(bs, full(bs, g - 1), inodes, data),
    ensures
        ({
            let l = plan(bs, g, inodes);
            holds(bs, m, inodes, data) == (l.ipg <= l.bpg && !crowded(l) && m >= wanted(
                bs,
                g,
                inodes,
                data,
            ))
        }),
        holds(bs, m, inodes, data) ==> layout_for(bs, m, inodes) == Ok::<Groups, Error>(
            groups_for(bs, m, inodes),
        ),
{
    let p = plan(bs, g, inodes);
    let l = groups_for(bs, m, inodes);
    let b = 8 * bs;
    lemma_same_groups(bs, g, inodes, m);
    assert(0 <= (g - 1) * b) by (nonlinear_arith)
        requires
            1 <= g,
            0 < b,
    ;
    assert(last_len(l) == m - full(bs, g - 1));
    assert(overhead(l, g - 1) == overhead(p, g - 1));
    assert(overhead(l, 0) == overhead(p, 0));
    lemma_overheads(l, g);
    lemma_overheads(p, g);
    assert(metadata(l) == metadata(p));
    lemma_numbers(bs, m, inodes);
    if l.ipg <= l.bpg && !crowded(l) {
        if drops_last(l) {
            assert(m - last_len(l) == full(bs, g - 1));
            assert(layout_for(bs, m, inodes) == layout_for(bs, full(bs, g - 1), inodes));
        } else if !(l.groups == 1 && m < overhead(l, 0) + 16) {
            lemma_kept(bs, m, inodes);
            lemma_parts(l, l.groups);
        }
    }
}

/// The inodes of a group and the blocks of the descriptors and of the inode
/// table, for `g` groups.
fn plan_for(bs: u64, g: u64, inodes: u32) -> (r: (u64, u64, u64))
    requires
        supported(bs as int),
        1 <= g <= 0x8_0000,
    ensures
        ({
            let l = plan(bs as int, g as int, inodes as int);
            &&& r.0 == l.ipg
            &&& r.1 == l.gdt_blocks
            &&& r.2 == l.itable_blocks
            &&& l.bpg == 8 * bs
            &&& l.groups == g
            &&& 0 < r.1 <= 0x4000
            &&& r.0 <= l.bpg ==> r.2 <= 2048
        }),
{
    proof {
        assert((g - 1) * (8 * bs) < g * (8 * bs)) by (nonlinear_arith)
            requires
                0 < bs,
        ;
        lemma_same_groups(bs as int, g as int, inodes as int, full(bs as int, g as int));
    }
    let per_block: u64 = bs / 256;
    let align: u64 = if per_block < 8 {
        8
    } else {
        per_block
    };
    let each: u64 = div_up(inodes as u64, g);
    assert(0 <= each <= inodes) by (nonlinear_arith)
        requires
            each == (inodes + g - 1) / (g as int),
            1 <= g,
            0 <= inodes,
    ;
    let ipg: u64 = align_up(each, align);
    proof {
        lemma_round_up(each as int, align as int);
    }
    let gdt: u64 = div_up(g * 32, bs);
    proof {
        if bs == 1024 {
            assert(gdt == (g * 32 + 1023) / 1024);
            assert(ipg * 256 / 1024 == ipg / 4);
        } else if bs == 2048 {
            assert(gdt == (g * 32 + 2047) / 2048);
            assert(ipg * 256 / 2048 == ipg / 8);
        } else {
            assert(gdt == (g * 32 + 4095) / 4096);
            assert(ipg * 256 / 4096 == ipg / 16);
        }
    }
    (ipg, gdt, ipg * 256 / bs)
}

/// Smallest filesystem size (in blocks) holding `data` blocks of content
/// plus all group metadata for `inodes` inodes. There is none where block
/// numbers of 32 bits do not reach.
pub fn blocks_for(data: u64, inodes: u32, bs: u64) -> (r: Result<u64, Error>)
    requires
        supported(bs as int),
    ensures
        match r {
            Ok(n) => {
                let l = groups_for(bs as int, n as int, inodes as int);
                &&& addressable(bs as int, n as int)
                &&& layout_for(bs as int, n as int, inodes as int) == Ok::<Groups, Error>(l)
                &&& l.blocks == n
                &&& data <= capacity(l)
                &&& inodes <= l.ipg * l.groups
                &&& forall|m: int|
                    first_block(bs as int) < m < n ==> !#[trigger] holds(
                        bs as int,
                        m,
                        inodes as int,
                        data as int,
                    )
                &&& smallest(data as int, inodes as int, bs as int) == Some(n as int)
            },
            Err(e) => {
                &&& e == Error::ImageTooBig
                &&& forall|m: int|
                    first_block(bs as int) < m <= u32::MAX ==> !#[trigger] holds(
                        bs as int,
                        m,
                        inodes as int,
                        data as int,
                    )
                &&& smallest(data as int, inodes as int, bs as int) is None
            },
        },
{
    let first: u64 = if bs == 1024 {
        1
    } else {
        0
    };
    let bpg: u64 = bs * 8;
    let max: u64 = u32::MAX as u64;
    let ghost b = bs as int;
    let ghost i = inodes as int;
    let ghost d = data as int;
    let mut g: u64 = 1;
    let mut sup: u64 = 0;
    // the blocks of the groups before
    let mut before: u64 = first;
    assert(0 * (8 * bs) == 0) by (nonlinear_arith);
    while before < max
        invariant
            supported(bs as int),
            b == bs,
            i == inodes,
            d == data,
            max == u32::MAX,
            bpg == 8 * bs,
            first == first_block(b),
            1 <= g,
            before == full(b, g - 1),
            before <= 0x1_0001_0000,
            sup == supers(g - 1),
            forall|m: int|
                first_block(b) < m <= before && m <= u32::MAX ==> !#[trigger] holds(b, m, i, d),
        decreases max + bpg - before,
    {
        proof {
            assert(g - 1 <= 0x7_FFFF) by (nonlinear_arith)
                requires
                    (g - 1) * (8 * bs) < u32::MAX,
                    bs >= 1024,
            ;
            lemma_supers(g - 1);
            if g > 1 {
                assert((g - 1) * (8 * bs) > 0) by (nonlinear_arith)
                    requires
                        g > 1,
                        bs > 0,
                ;
                assert(!holds(b, before as int, i, d));
            }
            assert(full(b, g as int) == before + bpg) by {
                assert(g * (8 * bs) == (g - 1) * (8 * bs) + 8 * bs) by (nonlinear_arith);
            }
        }
        if Layout::has_super(g - 1) {
            sup = sup + 1;
        }
        assert(sup == supers(g as int) && sup <= g) by {
            lemma_supers(g as int);
        }
        let (ipg, gdt, itable): (u64, u64, u64) = plan_for(bs, g, inodes);
        let ghost l = plan(b, g as int, i);
        let end: u64 = before + bpg;
        if ipg <= bpg && !(g > 1 && 3 + gdt + itable >= bpg) {
            let own: u64 = 2 + itable;
            let copy: u64 = 1 + gdt;
            assert(g * own <= 0x8_0000 * 0x1000) by (nonlinear_arith)
                requires
                    g <= 0x8_0000,
                    own <= 0x1000,
            ;
            assert(sup * copy <= 0x8_0000 * 0x8000) by (nonlinear_arith)
                requires
                    sup <= 0x8_0000,
                    copy <= 0x8000,
            ;
            let taken: u64 = first + g * own + sup * copy;
            proof {
                lemma_overheads(l, g as int);
                assert(taken == metadata(l));
            }
            let last: u64 = if Layout::has_super(g - 1) {
                3 + gdt + itable
            } else {
                2 + itable
            };
            let least: u64 = if g == 1 {
                last + 16
            } else {
                before + last + 50
            };
            if data <= max {
                let need: u64 = data + taken;
                let n: u64 = if need < least {
                    least
                } else {
                    need
                };
                assert(n == wanted(b, g as int, i, d));
                if n <= end {
                    assert forall|m: int|
                        first_block(b) < m < n && m <= u32::MAX implies !#[trigger] holds(
                        b,
                        m,
                        i,
                        d,
                    ) by {
                        if m > before {
                            lemma_range(b, g as int, i, d, m);
                        }
                    }
                    if n > max {
                        proof {
                            lemma_size_at(b, i, d, first + 1, u32::MAX + 1);
                        }
                        return Err(Error::ImageTooBig);
                    }
                    proof {
                        assert(n > before);
                        lemma_range(b, g as int, i, d, n as int);
                        lemma_size_at(b, i, d, first + 1, n as int);
                        lemma_same_groups(b, g as int, i, n as int);
                        lemma_enough(b, n as int, i);
                        lemma_laid(b, n as int, i);
                    }
                    return Ok(n);
                }
            }
        }
        assert forall|m: int| first_block(b) < m <= end && m <= u32::MAX implies !#[trigger] holds(
            b,
            m,
            i,
            d,
        ) by {
            if m > before {
                lemma_range(b, g as int, i, d, m);
                if holds(b, m, i, d) {
                    lemma_holds(b, m, i, d);
                }
            }
        }
        before = end;
        g = g + 1;
    }
    proof {
        lemma_size_at(b, i, d, first + 1, u32::MAX + 1);
    }
    Err(Error::ImageTooBig)
}

/// An image with room for the content has more blocks.
proof fn lemma_holds(bs: int, n: int, inodes: int, data: int)
    requires
        supported(bs),
        addressable(bs, n),
        0 <= inodes,
        holds(bs, n, inodes, data),
    ensures
        data <= n,
{
    lemma_laid(bs, n, inodes);
    let l = layout_for(bs, n, inodes)->Ok_0;
    lemma_parts(l, l.groups);
}

/// No image has room for more blocks than there are block numbers.
pub proof fn lemma_too_much(data: int, inodes: int, bs: int)
    requires
        supported(bs),
        0 <= inodes,
        data > u32::MAX,
    ensures
        smallest(data, inodes, bs) is None,
{
    assert forall|m: int| first_block(bs) + 1 <= m < u32::MAX + 1 implies !#[trigger] holds(
        bs,
        m,
        inodes,
        data,
    ) by {
        if holds(bs, m, inodes, data) {
            lemma_holds(bs, m, inodes, data);
        }
    }
    lemma_size_at(bs, inodes, data, first_block(bs) + 1, u32::MAX + 1);
}

/// The groups have all inodes that were asked for.
proof fn lemma_enough(bs: int, n: int, inodes: int)
    requires
        supported(bs),
        addressable(bs, n),
        0 <= inodes,
    ensures
        ({
            let l = groups_for(bs, n, inodes);
            inodes <= l.ipg * l.groups
        }),
{
    let l = groups_for(bs, n, inodes);
    lemma_numbers(bs, n, inodes);
    let x = ceil_div(inodes, l.groups);
    lemma_round_up(inodes, l.groups);
    let align: int = if bs / 256 < 8 {
        8
    } else {
        bs / 256
    };
    lemma_round_up(x, align);
    assert(inodes <= l.ipg * l.groups) by (nonlinear_arith)
        requires
            x * l.groups >= inodes,
            l.ipg >= x,
            0 < l.groups,
    ;
}

/// Blocks for the content of item `i`, for its extent tree and for its xattrs.
pub open spec fn item_blocks(items: Seq<Numbered>, lf: int, i: int, bs: int) -> int {
    let node = items[i].node;
    (match node.kind {
        NodeKind::Dir(_) => {
            let n = dir_data(items, lf, i, bs).len() as int / bs;
            n + tree_size(ceil_div(n, MAX_EXTENT_LEN as int), bs)
        },
        NodeKind::File { data } => ceil_div(data@.len() as int, bs) + tree_size(
            file_pieces(data@, bs),
            bs,
        ),
        NodeKind::Symlink(t) => if t@.len() >= 60 {
            1
        } else {
            0
        },
    }) + (if attrs_of(node).len() > 0 && !fits(attrs_of(node), 0, 92) {
        1int
    } else {
        0
    })
}

/// Blocks for the content, extent trees and xattrs of the first `n` items.
pub open spec fn items_blocks(items: Seq<Numbered>, lf: int, n: int, bs: int) -> int
    decreases n,
{
    if n <= 0 {
        0
    } else {
        items_blocks(items, lf, n - 1, bs) + item_blocks(items, lf, n - 1, bs)
    }
}

/// Blocks for the content, extent trees and xattrs of a tree.
pub open spec fn tree_blocks(root: Node, bs: int) -> int {
    let items = items_of(root);
    items_blocks(items, lost_found(items, 1), items.len() as int, bs)
}

proof fn lemma_items_blocks(items: Seq<Numbered>, lf: int, m: int, n: int, bs: int)
    requires
        0 <= m <= n,
        60 <= bs,
    ensures
        0 <= items_blocks(items, lf, m, bs) <= items_blocks(items, lf, n, bs),
    decreases n,
{
    if n > 0 {
        lemma_item_nonneg(items, lf, n - 1, bs);
        if m < n {
            lemma_items_blocks(items, lf, m, n - 1, bs);
        } else {
            lemma_items_blocks(items, lf, m - 1, m - 1, bs);
        }
    }
}

proof fn lemma_item_nonneg(items: Seq<Numbered>, lf: int, i: int, bs: int)
    requires
        60 <= bs,
    ensures
        0 <= item_blocks(items, lf, i, bs),
{
    let d = dir_data(items, lf, i, bs).len() as int;
    assert(0 <= d / bs) by (nonlinear_arith)
        requires
            0 <= d,
            0 < bs,
    ;
    lemma_extra(Seq::empty(), bs);
    assert(0 <= ceil_div(d / bs, MAX_EXTENT_LEN as int));
    if let NodeKind::File { data } = items[i].node.kind {
        let n = data@.len() as int;
        lemma_extra(data@, bs);
        assert(0 <= (n + bs - 1) / bs) by (nonlinear_arith)
            requires
                0 <= n,
                0 < bs,
        ;
    }
}

/// Blocks for a file and its extent tree.
fn file_blocks(data: &[u8], bs: u64) -> (r: u64)
    requires
        264 <= bs <= 65536,
    ensures
        r == ceil_div(data@.len() as int, bs as int) + tree_size(
            file_pieces(data@, bs as int),
            bs as int,
        ),
        r < u64::MAX,
{
    let n: u64 = div_up(data.len() as u64, bs);
    proof {
        let k = data@.len() as int;
        assert(264 * n <= k + 263) by (nonlinear_arith)
            requires
                n == (k + bs - 1) / bs as int,
                264 <= bs,
                0 <= k,
        ;
        lemma_extra(data@, bs as int);
    }
    n + count_tree(count_pieces(data, bs), bs)
}

/// Blocks for `size` bytes of a directory and their extent tree.
fn dir_size(size: usize, bs: u64) -> (r: u64)
    requires
        264 <= bs <= 65536,
    ensures
        r == size as int / bs as int + tree_size(
            ceil_div(size as int / bs as int, MAX_EXTENT_LEN as int),
            bs as int,
        ),
        r < u64::MAX,
{
    let n: u64 = size as u64 / bs;
    assert(264 * n <= size) by (nonlinear_arith)
        requires
            n == size as int / bs as int,
            264 <= bs,
    ;
    n + count_tree(div_up(n, MAX_EXTENT_LEN), bs)
}

/// Blocks for the content of one item, for its extent tree and its xattrs.
fn blocks_of<'a>(items: &Vec<Item<'a>>, lf: usize, i: usize, bs: u64) -> (r: u64)
    requires
        i < items.len(),
        items.len() + 16 <= u32::MAX,
        sound(numbered(items@), lf as int),
        264 <= bs <= 65536,
    ensures
        r == item_blocks(numbered(items@), lf as int, i as int, bs as int),
{
    proof {
        assert(numbered(items@)[i as int] == items@[i as int].numbered());
    }
    let node: &Node = items[i].node;
    let blocks: u64 = match &node.kind {
        NodeKind::Dir(_) => {
            let (dir, _): (Vec<u8>, u16) = node_dir(items, lf, i, bs as usize);
            dir_size(dir.len(), bs)
        },
        NodeKind::File { data } => file_blocks(data, bs),
        NodeKind::Symlink(t) => if t.len() >= 60 {
            1
        } else {
            0
        },
    };
    let attrs: Vec<Xattr> = security_xattrs(node);
    proof {
        lemma_attr_names(*node);
        assert forall|k: int| 0 <= k < attrs@.len() implies (#[trigger] attrs@[k]).name.len()
            <= 255 by {
            assert(attrs_view(attrs@)[k].name.len() <= 10);
            assert(attrs_view(attrs@)[k] == attrs@[k]@);
        }
    }
    if attrs.len() > 0 && place_xattrs(&attrs, 0, 92, false).is_none() {
        blocks + 1
    } else {
        blocks
    }
}

/// Blocks needed for `root` (data, directories, extent leaves and xattr
/// blocks), without filesystem metadata, and the inodes in use. Used to pick
/// an image size.
pub fn data_blocks_needed(root: &Node, bs: u64) -> (r: Result<(u64, u32), Error>)
    requires
        264 <= bs <= 65536,
    ensures
        match r {
            Ok((blocks, inodes)) => {
                &&& tree_fault(*root) is None
                &&& blocks == tree_blocks(*root, bs as int)
                &&& inodes == items_of(*root).len() + 9
            },
            Err(e) => match tree_fault(*root) {
                Some(f) => e == f,
                None => e == Error::ImageTooBig && tree_blocks(*root, bs as int) > u64::MAX,
            },
        },
{
    let (items, lf): (Vec<Item>, usize) = match flatten(root) {
        Ok(x) => x,
        Err(e) => {
            return Err(e);
        },
    };
    let ghost all = items_of(*root);
    assert(all.len() == items@.len());
    let n: usize = items.len();
    let mut blocks: u64 = 0;
    let mut i: usize = 0;
    while i < n
        invariant
            i <= n,
            n == items@.len(),
            n == all.len(),
            n + 16 <= u32::MAX,
            all == numbered(items@),
            sound(all, lf as int),
            264 <= bs <= 65536,
            tree_fault(*root) is None,
            tree_blocks(*root, bs as int) == items_blocks(all, lf as int, n as int, bs as int),
            blocks == items_blocks(all, lf as int, i as int, bs as int),
        decreases n - i,
    {
        let k: u64 = blocks_of(&items, lf, i, bs);
        proof {
            lemma_items_blocks(all, lf as int, i + 1, n as int, bs as int);
        }
        if blocks > u64::MAX - k {
            return Err(Error::ImageTooBig);
        }
        blocks = blocks + k;
        i += 1;
    }
    Ok((blocks, (n + 9) as u32))
}

} // verus!
