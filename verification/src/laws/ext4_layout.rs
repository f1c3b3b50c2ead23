//! How an ext4 image is divided into groups, and how big it has to be.
use vstd::prelude::*;
use crate::bytes::{ceil_div, round_up};
use crate::error::Error;
use crate::fs::mkext4::layout::{addressable, capacity, drops_last, first_block, group_len,
    group_start, groups_for, last_len, layout_for, overhead, supported, well_formed, Groups};
use crate::fs::mkext4::size::{lemma_laid, size_at, smallest};

verus! {

/// The groups of an image have 8 blocks for each byte of a block and follow
/// each other from the first block to the last. They have the inodes that are
/// asked for, in whole blocks, and room for all the group descriptors. A last
/// group has room for more than its own metadata.
pub proof fn groups_cover_the_image(bs: int, blocks: int, min: int)
    requires
        supported(bs),
        addressable(bs, blocks),
        0 <= min,
    ensures
        match layout_for(bs, blocks, min) {
            Ok(l) => {
                let start: int = if bs == 1024 {
                    1
                } else {
                    0
                };
                &&& l.bs == bs && l.blocks <= blocks
                &&& l.bpg == 8 * bs
                &&& 0 < l.groups
                &&& start + (l.groups - 1) * l.bpg < l.blocks <= start + l.groups * l.bpg
                &&& l.ipg * l.groups >= min
                &&& l.ipg % 8 == 0 && l.ipg <= 8 * bs
                &&& l.itable_blocks * bs == l.ipg * 256
                &&& 32 * l.groups <= l.gdt_blocks * bs < 32 * l.groups + bs
                &&& l.groups > 1 ==> group_len(l, l.groups - 1) >= overhead(l, l.groups - 1) + 50
            },
            Err(_) => true,
        },
{
    if let Ok(l) = layout_for(bs, blocks, min) {
        lemma_laid(bs, blocks, min);
        reveal(well_formed);
        let per = if bs / 256 < 8 {
            8
        } else {
            bs / 256
        };
        let need = ceil_div(min, l.groups);
        let k = ceil_div(need, per);
        let g = l.groups;
        assert(l.ipg == round_up(need, per));
        lemma_ceil(min, g);
        lemma_ceil(need, per);
        assert(need >= 0) by (nonlinear_arith)
            requires
                need == (min + g - 1) / g,
                min >= 0,
                g > 0,
        ;
        assert(l.ipg >= need && l.ipg % 8 == 0) by {
            crate::bytes::lemma_round_up(need, per);
        }
        let i = l.ipg;
        assert(i * g >= min) by (nonlinear_arith)
            requires
                i >= need,
                need * g >= min,
                g > 0,
        ;
        lemma_ceil(32 * g, bs);
        assert(l.gdt_blocks == ceil_div(g * 32, bs));
        assert(g * 32 == 32 * g);
        lemma_last(bs, blocks, min);
    }
}

proof fn lemma_ceil(n: int, m: int)
    requires
        0 <= n,
        0 < m,
    ensures
        n <= ceil_div(n, m) * m < n + m,
{
    let q = ceil_div(n, m);
    assert(n <= q * m < n + m) by (nonlinear_arith)
        requires
            q == (n + m - 1) / m,
            0 <= n,
            0 < m,
    ;
}

proof fn lemma_last(bs: int, blocks: int, min: int)
    requires
        supported(bs),
        addressable(bs, blocks),
        0 <= min,
        layout_for(bs, blocks, min) is Ok,
    ensures
        ({
            let l = layout_for(bs, blocks, min)->Ok_0;
            l.groups > 1 ==> group_len(l, l.groups - 1) >= overhead(l, l.groups - 1) + 50
        }),
{
    lemma_laid(bs, blocks, min);
    reveal(well_formed);
    let l = layout_for(bs, blocks, min)->Ok_0;
    if l.groups > 1 && drops_last(l) {
        assert(l == groups_for(bs, l.blocks, min));
        let left = last_len(l);
        assert(left == l.blocks - group_start(l, l.groups - 1));
        crate::fs::mkext4::layout::lemma_layout_blocks(bs, l.blocks - left, min);
        assert(layout_for(bs, l.blocks, min) == Ok::<Groups, Error>(l));
    }
    if l.groups > 1 {
        assert((l.groups - 1) * l.bpg + l.bpg == l.groups * l.bpg) by (nonlinear_arith);
        assert(last_len(l) == l.blocks - group_start(l, l.groups - 1));
    }
}

proof fn lemma_size(bs: int, inodes: int, data: int, n: int)
    ensures
        match size_at(bs, inodes, data, n) {
            Some(m) => {
                &&& n <= m <= u32::MAX
                &&& layout_for(bs, m, inodes) is Ok && data <= capacity(
                    layout_for(bs, m, inodes)->Ok_0,
                )
                &&& forall|k: int|
                    n <= k < m ==> (#[trigger] layout_for(bs, k, inodes)) is Err || data > capacity(
                        layout_for(bs, k, inodes)->Ok_0,
                    )
            },
            None => forall|k: int|
                n <= k <= u32::MAX ==> (#[trigger] layout_for(bs, k, inodes)) is Err || data
                    > capacity(layout_for(bs, k, inodes)->Ok_0),
        },
    decreases u32::MAX + 1 - n,
{
    if n <= u32::MAX {
        let here = layout_for(bs, n, inodes);
        if !(here is Ok && data <= capacity(here->Ok_0)) {
            lemma_size(bs, inodes, data, n + 1);
            assert forall|k: int|
                n <= k && (match size_at(bs, inodes, data, n) {
                    Some(m) => k < m,
                    None => k <= u32::MAX,
                }) implies (#[trigger] layout_for(bs, k, inodes)) is Err || data > capacity(
                layout_for(bs, k, inodes)->Ok_0,
            ) by {
            }
        }
    }
}

/// An image that is made to fit has room for the content and the inodes, and no
/// smaller one has. There is none where no image of 32-bit blocks has room.
pub proof fn images_are_made_to_fit(data: int, inodes: int, bs: int, k: int)
    ensures
        match smallest(data, inodes, bs) {
            Some(m) => {
                &&& layout_for(bs, m, inodes) is Ok && data <= capacity(
                    layout_for(bs, m, inodes)->Ok_0,
                )
                &&& first_block(bs) < k < m && layout_for(bs, k, inodes) is Ok ==> data > capacity(
                    layout_for(bs, k, inodes)->Ok_0,
                )
            },
            None => first_block(bs) < k <= u32::MAX && layout_for(bs, k, inodes) is Ok ==> data
                > capacity(layout_for(bs, k, inodes)->Ok_0),
        },
{
    lemma_size(bs, inodes, data, first_block(bs) + 1);
}

} // verus!
