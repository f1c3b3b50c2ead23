//! The block groups of an ext4 image, and which blocks are free for data.
use vstd::prelude::*;
use vstd::arithmetic::power::pow;
use crate::bytes::{ceil_div, div_up, lemma_round_up, round_up};
use crate::error::Error;

verus! {

pub const INODE_SIZE: u64 = 256;

/// How an image is divided into groups.
pub struct Groups {
    pub bs: int,
    pub blocks: int,
    pub groups: int,
    /// Blocks per group.
    pub bpg: int,
    /// Inodes per group.
    pub ipg: int,
    pub gdt_blocks: int,
    pub itable_blocks: int,
}

/// The first block of the first group.
pub open spec fn first_block(bs: int) -> int {
    if bs == 1024 {
        1
    } else {
        0
    }
}

/// `n` is a power of `b`.
pub open spec fn power_of(n: int, b: int) -> bool {
    exists|k: nat| #[trigger] pow(b, k) == n
}

/// Groups with a copy of the superblock: 0, 1 and the powers of 3, 5 and 7.
pub open spec fn has_super(g: int) -> bool {
    g <= 1 || power_of(g, 3) || power_of(g, 5) || power_of(g, 7)
}

/// Blocks of a group before its bitmaps: the superblock copy and the group
/// descriptors.
pub open spec fn super_blocks(l: Groups, g: int) -> int {
    if has_super(g) {
        1 + l.gdt_blocks
    } else {
        0
    }
}

/// Blocks taken by the superblock copy, GDT, bitmaps and inode table.
pub open spec fn overhead(l: Groups, g: int) -> int {
    super_blocks(l, g) + 2 + l.itable_blocks
}

pub open spec fn group_start(l: Groups, g: int) -> int {
    first_block(l.bs) + g * l.bpg
}

pub open spec fn group_len(l: Groups, g: int) -> int {
    let left = l.blocks - group_start(l, g);
    if left < l.bpg {
        left
    } else {
        l.bpg
    }
}

/// The groups of an image of `blocks` blocks with at least `min_inodes`
/// inodes, before a last group that is too small is dropped.
pub open spec fn groups_for(bs: int, blocks: int, min_inodes: int) -> Groups {
    let bpg = bs * 8;
    let groups = ceil_div(blocks - first_block(bs), bpg);
    let per_block = bs / 256;
    // inodes per group: a multiple of 8 filling whole inode table blocks
    let align = if per_block < 8 {
        8
    } else {
        per_block
    };
    let ipg = round_up(ceil_div(min_inodes, groups), align);
    Groups {
        bs,
        blocks,
        groups,
        bpg,
        ipg,
        gdt_blocks: ceil_div(groups * 32, bs),
        itable_blocks: ipg * 256 / bs,
    }
}

/// Blocks of the last group.
pub open spec fn last_len(l: Groups) -> int {
    l.blocks - first_block(l.bs) - (l.groups - 1) * l.bpg
}

/// A last group too small for its metadata and some content is dropped.
pub open spec fn drops_last(l: Groups) -> bool {
    l.groups > 1 && last_len(l) < overhead(l, l.groups - 1) + 50
}

/// The metadata of the first of several groups leaves no room in it: it would
/// run into the next group.
pub open spec fn crowded(l: Groups) -> bool {
    l.groups > 1 && overhead(l, 0) >= l.bpg
}

/// The groups of an image of at most `blocks` blocks with at least
/// `min_inodes` inodes.
pub open spec fn layout_for(bs: int, blocks: int, min_inodes: int) -> Result<Groups, Error>
    decreases blocks,
{
    let l = groups_for(bs, blocks, min_inodes);
    if l.ipg > l.bpg {
        Err(Error::TooManyInodes)
    } else if crowded(l) {
        Err(Error::ImageTooBig)
    } else if drops_last(l) && 0 < last_len(l) <= blocks {
        layout_for(bs, blocks - last_len(l), min_inodes)
    } else if l.groups == 1 && blocks < overhead(l, 0) + 16 {
        Err(Error::ImageTooSmall)
    } else {
        Ok(l)
    }
}

/// Blocks of group `g` that are free for content.
pub open spec fn room(l: Groups, g: int) -> int {
    group_len(l, g) - overhead(l, g)
}

/// Blocks free for content in the first `g` groups.
pub open spec fn room_before(l: Groups, g: int) -> int
    decreases g,
{
    if g <= 0 {
        0
    } else {
        room_before(l, g - 1) + room(l, g - 1)
    }
}

/// Blocks free for content in the whole image.
pub open spec fn capacity(l: Groups) -> int {
    room_before(l, l.groups)
}

/// The block that is handed out as number `k`, when the groups before `g`
/// are full: groups are filled in order.
pub open spec fn block_from(l: Groups, g: int, k: int) -> int
    decreases l.groups - g,
{
    if g >= l.groups || k < room(l, g) {
        group_start(l, g) + overhead(l, g) + k
    } else {
        block_from(l, g + 1, k - room(l, g))
    }
}

/// The block that is handed out as number `k`.
pub open spec fn nth_block(l: Groups, k: int) -> int {
    block_from(l, 0, k)
}

/// Block sizes that the writer supports.
pub open spec fn supported(bs: int) -> bool {
    bs == 1024 || bs == 2048 || bs == 4096
}

/// Numbers of blocks that an image can have.
pub open spec fn addressable(bs: int, blocks: int) -> bool {
    first_block(bs) < blocks <= u32::MAX
}

/// No image has more blocks than it was asked to have, and its blocks have
/// the size that was asked for.
pub proof fn lemma_layout_blocks(bs: int, blocks: int, min_inodes: int)
    requires
        0 <= blocks,
    ensures
        match layout_for(bs, blocks, min_inodes) {
            Ok(l) => 0 <= l.blocks <= blocks && l.bs == bs,
            Err(_) => true,
        },
    decreases blocks,
{
    let l = groups_for(bs, blocks, min_inodes);
    if l.ipg <= l.bpg && !crowded(l) && drops_last(l) && 0 < last_len(l) <= blocks {
        lemma_layout_blocks(bs, blocks - last_len(l), min_inodes);
    }
}

/// What holds of the groups of an image.
#[verifier::opaque]
pub open spec fn well_formed(l: Groups) -> bool {
    &&& supported(l.bs)
    &&& l.bpg == 8 * l.bs
    &&& 0 < l.groups
    &&& first_block(l.bs) < l.blocks
    &&& group_start(l, l.groups - 1) < l.blocks <= group_start(l, l.groups)
    &&& 0 <= l.ipg <= l.bpg
    &&& l.itable_blocks * l.bs == l.ipg * 256
    &&& l.gdt_blocks == ceil_div(l.groups * 32, l.bs)
    &&& l.blocks <= u32::MAX
    &&& l.groups <= 0x4_0000
    &&& 0 < l.gdt_blocks <= 8192
    &&& 0 <= l.itable_blocks <= 2048
    &&& forall|g: int| 0 <= g < l.groups ==> 0 < #[trigger] room(l, g)
}

/// Whether `n` is a power of `b`.
fn is_power_of(n: u64, b: u64) -> (r: bool)
    requires
        n > 0,
        b > 1,
    ensures
        r == power_of(n as int, b as int),
{
    let mut m: u64 = n;
    while m > 1 && m % b == 0
        invariant
            0 < m,
            b > 1,
            power_of(n as int, b as int) == power_of(m as int, b as int),
        decreases m,
    {
        proof {
            lemma_power_step(m as int, b as int);
        }
        m = m / b;
    }
    proof {
        lemma_power_end(m as int, b as int);
    }
    m == 1
}

proof fn lemma_power_step(m: int, b: int)
    requires
        m > 1,
        b > 1,
        m % b == 0,
    ensures
        power_of(m, b) == power_of(m / b, b),
        0 < m / b < m,
{
    let q = m / b;
    assert(m == b * q && 0 < q < m) by (nonlinear_arith)
        requires
            m > 1,
            b > 1,
            m % b == 0,
            q == m / b,
    ;
    if power_of(m, b) {
        let k = choose|k: nat| #[trigger] pow(b, k) == m;
        vstd::arithmetic::power::lemma_pow0(b);
        assert(k > 0);
        vstd::arithmetic::power::lemma_pow1(b);
        reveal_with_fuel(pow, 2);
        assert(pow(b, k) == b * pow(b, (k - 1) as nat));
        let x = pow(b, (k - 1) as nat);
        assert(x == q) by (nonlinear_arith)
            requires
                b * x == b * q,
                b > 1,
        ;
    }
    if power_of(q, b) {
        let k = choose|k: nat| #[trigger] pow(b, k) == q;
        reveal_with_fuel(pow, 2);
        assert(pow(b, (k + 1) as nat) == b * pow(b, k));
    }
}

proof fn lemma_power_end(m: int, b: int)
    requires
        0 < m,
        b > 1,
        m == 1 || m % b != 0,
    ensures
        power_of(m, b) == (m == 1),
{
    vstd::arithmetic::power::lemma_pow0(b);
    if m == 1 {
        assert(pow(b, 0) == m);
    } else if power_of(m, b) {
        let k = choose|k: nat| #[trigger] pow(b, k) == m;
        assert(k > 0);
        reveal_with_fuel(pow, 2);
        let x = pow(b, (k - 1) as nat);
        assert(m == b * x);
        assert((b * x) % b == 0) by (nonlinear_arith)
            requires
                b > 1,
        ;
    }
}

/// The groups of an image.
#[derive(Debug, Clone, Copy)]
pub struct Layout {
    pub bs: u64,
    pub blocks: u64,
    pub groups: u64,
    pub bpg: u64,
    pub ipg: u64,
    pub gdt_blocks: u64,
    pub itable_blocks: u64,
}

impl View for Layout {
    type V = Groups;

    open spec fn view(&self) -> Groups {
        Groups {
            bs: self.bs as int,
            blocks: self.blocks as int,
            groups: self.groups as int,
            bpg: self.bpg as int,
            ipg: self.ipg as int,
            gdt_blocks: self.gdt_blocks as int,
            itable_blocks: self.itable_blocks as int,
        }
    }
}

/// Whether group `g` has a copy of the superblock.
pub fn is_super(g: u64) -> (r: bool)
    ensures
        r == has_super(g as int),
{
    g <= 1 || is_power_of(g, 3) || is_power_of(g, 5) || is_power_of(g, 7)
}

/// The numbers of a group layout, before its last group is looked at.
pub proof fn lemma_numbers(bs: int, blocks: int, min_inodes: int)
    requires
        supported(bs),
        addressable(bs, blocks),
        0 <= min_inodes,
    ensures
        ({
            let l = groups_for(bs, blocks, min_inodes);
            &&& 0 < l.groups <= 0x8_0000
            &&& (l.groups - 1) * l.bpg < blocks - first_block(bs) <= l.groups * l.bpg
            &&& l.bpg == 8 * bs
            &&& 0 < l.gdt_blocks <= 0x4000
            &&& bs != 1024 ==> l.groups <= 0x4_0000 && l.gdt_blocks <= 0x1000
            &&& l.gdt_blocks == ceil_div(l.groups * 32, bs)
            &&& 0 <= l.ipg
            &&& ceil_div(min_inodes, l.groups) <= min_inodes
            &&& (l.ipg <= l.bpg ==> {
                &&& 0 <= l.itable_blocks <= 2048
                &&& l.itable_blocks * bs == l.ipg * 256
            })
        }),
{
    let l = groups_for(bs, blocks, min_inodes);
    let n = blocks - first_block(bs);
    lemma_round_up(n, l.bpg);
    let x = ceil_div(min_inodes, l.groups);
    if bs == 1024 {
        assert(l.bpg == 8192);
        assert(l.groups == (n + 8191) / 8192);
        assert(l.gdt_blocks == (l.groups * 32 + 1023) / 1024);
        lemma_round_up(x, 8);
        assert(l.itable_blocks == l.ipg * 256 / 1024);
    } else if bs == 2048 {
        assert(l.bpg == 16384);
        assert(l.groups == (n + 16383) / 16384);
        assert(l.gdt_blocks == (l.groups * 32 + 2047) / 2048);
        lemma_round_up(x, 8);
        assert(l.itable_blocks == l.ipg * 256 / 2048);
    } else {
        assert(l.bpg == 32768);
        assert(l.groups == (n + 32767) / 32768);
        assert(l.gdt_blocks == (l.groups * 32 + 4095) / 4096);
        lemma_round_up(x, 16);
        assert(l.itable_blocks == l.ipg * 256 / 4096);
    }
    lemma_round_up(min_inodes, l.groups);
    assert(0 <= x <= min_inodes) by (nonlinear_arith)
        requires
            x * l.groups >= min_inodes,
            x == (min_inodes + l.groups - 1) / l.groups,
            0 <= min_inodes,
            0 < l.groups,
    ;
    assert((l.groups - 1) * l.bpg == l.groups * l.bpg - l.bpg) by (nonlinear_arith);
}

/// Groups that are kept are well-formed.
pub proof fn lemma_kept(bs: int, blocks: int, min_inodes: int)
    requires
        supported(bs),
        addressable(bs, blocks),
        0 <= min_inodes,
        ({
            let l = groups_for(bs, blocks, min_inodes);
            &&& l.ipg <= l.bpg
            &&& !crowded(l)
            &&& !drops_last(l)
            &&& !(l.groups == 1 && blocks < overhead(l, 0) + 16)
        }),
    ensures
        well_formed(groups_for(bs, blocks, min_inodes)),
{
    let l = groups_for(bs, blocks, min_inodes);
    lemma_numbers(bs, blocks, min_inodes);
    reveal(well_formed);
    if bs == 1024 && l.groups > 1 {
        assert(l.gdt_blocks < 8192);
        assert(l.gdt_blocks == (l.groups * 32 + 1023) / 1024);
    }
    assert forall|g: int| 0 <= g < l.groups implies 0 < #[trigger] room(l, g) by {
        assert(overhead(l, g) <= overhead(l, 0));
        if g < l.groups - 1 {
            assert(g * l.bpg + l.bpg <= (l.groups - 1) * l.bpg) by (nonlinear_arith)
                requires
                    g + 1 <= l.groups - 1,
                    0 < l.bpg,
            ;
        } else {
            assert(group_start(l, g) == first_block(bs) + (l.groups - 1) * l.bpg);
            assert((l.groups - 1) * l.bpg == l.groups * l.bpg - l.bpg) by (nonlinear_arith);
            assert(group_len(l, g) == last_len(l));
            if l.groups == 1 {
                assert((l.groups - 1) * l.bpg == 0) by (nonlinear_arith)
                    requires
                        l.groups == 1,
                ;
            }
        }
    }
}

/// The length of a dropped last group.
pub proof fn lemma_dropped(bs: int, blocks: int, min_inodes: int)
    requires
        supported(bs),
        addressable(bs, blocks),
        0 <= min_inodes,
        drops_last(groups_for(bs, blocks, min_inodes)),
    ensures
        ({
            let l = groups_for(bs, blocks, min_inodes);
            &&& 0 < last_len(l) < blocks
            &&& addressable(bs, blocks - last_len(l))
        }),
{
    let l = groups_for(bs, blocks, min_inodes);
    lemma_numbers(bs, blocks, min_inodes);
    assert((l.groups - 1) * l.bpg >= l.bpg) by (nonlinear_arith)
        requires
            l.groups > 1,
            0 < l.bpg,
    ;
}

impl Layout {
    /// Blocks of the groups, one pass: a last group that is too small is not
    /// dropped yet.
    fn divide(bs: u64, blocks: u64, min_inodes: u64) -> (r: Layout)
        requires
            supported(bs as int),
            addressable(bs as int, blocks as int),
            min_inodes <= 0x4_0000_0000,
        ensures
            r@ == groups_for(bs as int, blocks as int, min_inodes as int),
    {
        proof {
            lemma_numbers(bs as int, blocks as int, min_inodes as int);
        }
        let bpg: u64 = bs * 8;
        let first: u64 = if bs == 1024 {
            1
        } else {
            0
        };
        let groups: u64 = div_up(blocks - first, bpg);
        let per_block: u64 = bs / 256;
        let align: u64 = if per_block < 8 {
            8
        } else {
            per_block
        };
        let each: u64 = div_up(min_inodes, groups);
        let ipg: u64 = crate::bytes::align_up(each, align);
        let gdt_blocks: u64 = div_up(groups * 32, bs);
        let itable_blocks: u64 = ipg * 256 / bs;
        Layout { bs, blocks, groups, bpg, ipg, gdt_blocks, itable_blocks }
    }

    /// The groups of an image.
    pub fn new(bs: u64, blocks: u64, min_inodes: u64) -> (r: Result<Layout, Error>)
        requires
            supported(bs as int),
            addressable(bs as int, blocks as int),
            min_inodes <= 0x4_0000_0000,
        ensures
            match r {
                Ok(l) => {
                    &&& layout_for(bs as int, blocks as int, min_inodes as int) == Ok::<
                        Groups,
                        Error,
                    >(l@)
                    &&& well_formed(l@)
                    &&& l.bs == bs
                    &&& l.blocks <= blocks
                    &&& l@ == groups_for(bs as int, l.blocks as int, min_inodes as int)
                },
                Err(e) => layout_for(bs as int, blocks as int, min_inodes as int) == Err::<
                    Groups,
                    Error,
                >(e),
            },
    {
        let ghost total = layout_for(bs as int, blocks as int, min_inodes as int);
        let mut n: u64 = blocks;
        loop
            invariant
                supported(bs as int),
                addressable(bs as int, n as int),
                n <= blocks,
                min_inodes <= 0x4_0000_0000,
                total == layout_for(bs as int, blocks as int, min_inodes as int),
                layout_for(bs as int, n as int, min_inodes as int) == total,
            decreases n,
        {
            let l: Layout = Layout::divide(bs, n, min_inodes);
            proof {
                lemma_numbers(bs as int, n as int, min_inodes as int);
            }
            if l.ipg > l.bpg {
                return Err(Error::TooManyInodes);
            }
            if l.groups > 1 && l.overhead(0) >= l.bpg {
                return Err(Error::ImageTooBig);
            }
            let first: u64 = l.first_data_block();
            let before: u64 = (l.groups - 1) * l.bpg;
            let last: u64 = n - first - before;
            if l.groups > 1 && last < l.overhead(l.groups - 1) + 50 {
                proof {
                    lemma_dropped(bs as int, n as int, min_inodes as int);
                }
                n = n - last;
                continue;
            }
            if l.groups == 1 && n < l.overhead(0) + 16 {
                return Err(Error::ImageTooSmall);
            }
            proof {
                lemma_kept(bs as int, n as int, min_inodes as int);
            }
            return Ok(l);
        }
    }

    pub fn first_data_block(&self) -> (r: u64)
        ensures
            r == first_block(self@.bs),
    {
        if self.bs == 1024 {
            1
        } else {
            0
        }
    }

    /// Whether group `g` has a copy of the superblock.
    pub fn has_super(g: u64) -> (r: bool)
        ensures
            r == has_super(g as int),
    {
        is_super(g)
    }

    /// Blocks taken by the superblock copy, GDT, bitmaps and inode table.
    pub fn overhead(&self, g: u64) -> (r: u64)
        requires
            self.gdt_blocks <= 0x1_0000,
            self.itable_blocks <= 0x1_0000,
        ensures
            r == overhead(self@, g as int),
    {
        let sb: u64 = if Layout::has_super(g) {
            1 + self.gdt_blocks
        } else {
            0
        };
        sb + 2 + self.itable_blocks
    }
}

/// The plain numbers of well-formed groups.
pub proof fn lemma_bounds(l: Groups)
    requires
        well_formed(l),
    ensures
        supported(l.bs),
        l.bpg == 8 * l.bs,
        0 < l.groups <= 0x4_0000,
        0 < l.gdt_blocks <= 8192,
        0 <= l.itable_blocks <= 2048,
        0 <= l.ipg <= l.bpg,
        0 < l.blocks <= u32::MAX,
        l.itable_blocks * l.bs == l.ipg * 256,
        l.gdt_blocks == ceil_div(l.groups * 32, l.bs),
{
    reveal(well_formed);
}

/// Group `g` of well-formed groups.
pub proof fn lemma_group(l: Groups, g: int)
    requires
        well_formed(l),
        0 <= g < l.groups,
    ensures
        0 < room(l, g),
        0 <= group_start(l, g),
        0 < overhead(l, g) < group_len(l, g) <= l.bpg,
        group_start(l, g) + group_len(l, g) <= l.blocks,
        g < l.groups - 1 ==> group_len(l, g) == l.bpg && group_start(l, g + 1) == group_start(l, g)
            + l.bpg,
        g == l.groups - 1 ==> group_start(l, g) + group_len(l, g) == l.blocks,
{
    reveal(well_formed);
    assert(0 < room(l, g));
    assert(0 <= g * l.bpg) by (nonlinear_arith)
        requires
            0 <= g,
            0 < l.bpg,
    ;
    assert((g + 1) * l.bpg == g * l.bpg + l.bpg) by (nonlinear_arith);
    if g < l.groups - 1 {
        assert(g * l.bpg + l.bpg <= (l.groups - 1) * l.bpg) by (nonlinear_arith)
            requires
                g + 1 <= l.groups - 1,
                0 < l.bpg,
        ;
    }
}

/// Where block number `k` after the groups before `g` lies: behind the
/// metadata of a group, and before its end.
pub proof fn lemma_block_from(l: Groups, g: int, k: int)
    requires
        well_formed(l),
        0 <= g <= l.groups,
        0 <= k < capacity(l) - room_before(l, g),
    ensures
        ({
            let b = block_from(l, g, k);
            exists|h: int|
                g <= h < l.groups && #[trigger] group_start(l, h) + overhead(l, h) <= b
                    < group_start(l, h) + group_len(l, h) && b == group_start(l, h) + overhead(l, h)
                    + (k - (room_before(l, h) - room_before(l, g)))
        }),
    decreases l.groups - g,
{
    if g < l.groups {
        lemma_group(l, g);
        if k < room(l, g) {
            assert(group_start(l, g) + overhead(l, g) <= block_from(l, g, k));
        } else {
            assert(room_before(l, g + 1) == room_before(l, g) + room(l, g));
            lemma_block_from(l, g + 1, k - room(l, g));
            let b = block_from(l, g, k);
            let h = choose|h: int|
                g + 1 <= h < l.groups && #[trigger] group_start(l, h) + overhead(l, h) <= b
                    < group_start(l, h) + group_len(l, h) && b == group_start(l, h) + overhead(l, h)
                    + (k - room(l, g) - (room_before(l, h) - room_before(l, g + 1)));
            assert(group_start(l, h) + overhead(l, h) <= b);
        }
    }
}

pub proof fn lemma_room_mono(l: Groups, g: int, h: int)
    requires
        well_formed(l),
        0 <= g <= h <= l.groups,
    ensures
        room_before(l, g) <= room_before(l, h),
        0 <= room_before(l, g),
        g < h ==> room_before(l, g) < room_before(l, h),
    decreases h,
{
    if g < h {
        lemma_room_mono(l, g, h - 1);
        lemma_group(l, h - 1);
    } else if g > 0 {
        lemma_room_mono(l, g - 1, h - 1);
        lemma_group(l, g - 1);
    }
}

/// The group in which block number `k` lies.
pub open spec fn home(l: Groups, k: int) -> int {
    choose|h: int|
        0 <= h < l.groups && #[trigger] group_start(l, h) + overhead(l, h) <= nth_block(l, k)
            < group_start(l, h) + group_len(l, h) && nth_block(l, k) == group_start(l, h) + overhead(
            l,
            h,
        ) + (k - room_before(l, h))
}

/// Block number `k` lies in its group, behind the metadata.
pub proof fn lemma_home(l: Groups, k: int)
    requires
        well_formed(l),
        0 <= k < capacity(l),
    ensures
        ({
            let h = home(l, k);
            &&& 0 <= h < l.groups
            &&& group_start(l, h) + overhead(l, h) <= nth_block(l, k) < group_start(l, h) + group_len(
                l,
                h,
            )
            &&& nth_block(l, k) == group_start(l, h) + overhead(l, h) + (k - room_before(l, h))
            &&& room_before(l, h) <= k < room_before(l, h + 1)
        }),
{
    lemma_block_from(l, 0, k);
    let b = nth_block(l, k);
    let h = choose|h: int|
        0 <= h < l.groups && #[trigger] group_start(l, h) + overhead(l, h) <= b < group_start(l, h)
            + group_len(l, h) && b == group_start(l, h) + overhead(l, h) + (k - (room_before(l, h)
            - room_before(l, 0)));
    assert(room_before(l, 0) == 0);
    assert(group_start(l, h) + overhead(l, h) <= nth_block(l, k));
}

/// Which of two groups comes first.
pub proof fn lemma_group_order(l: Groups, g: int, h: int)
    requires
        well_formed(l),
        0 <= g < h < l.groups,
    ensures
        group_start(l, g) + group_len(l, g) <= group_start(l, h),
{
    lemma_group(l, g);
    reveal(well_formed);
    assert(g * l.bpg + l.bpg <= h * l.bpg) by (nonlinear_arith)
        requires
            g + 1 <= h,
            0 < l.bpg,
    ;
}

/// No block is handed out twice: later numbers are later blocks. And none
/// holds the metadata of a group.
pub proof fn blocks_are_distinct(l: Groups, j: int, k: int)
    requires
        well_formed(l),
        0 <= j < k < capacity(l),
    ensures
        nth_block(l, j) < nth_block(l, k) < l.blocks,
        forall|g: int|
            0 <= g < l.groups ==> !(#[trigger] group_start(l, g) <= nth_block(l, k) < group_start(
                l,
                g,
            ) + overhead(l, g)),
{
    lemma_home(l, j);
    lemma_home(l, k);
    let g = home(l, j);
    let h = home(l, k);
    lemma_group(l, g);
    lemma_group(l, h);
    if g < h {
        lemma_group_order(l, g, h);
    } else if h < g {
        lemma_room_mono(l, h + 1, g);
    }
    assert forall|x: int| 0 <= x < l.groups implies !(#[trigger] group_start(l, x) <= nth_block(l, k)
        < group_start(l, x) + overhead(l, x)) by {
        lemma_group(l, x);
        if x < h {
            lemma_group_order(l, x, h);
        } else if h < x {
            lemma_group_order(l, h, x);
        }
    }
}

impl Layout {
    pub fn group_start(&self, g: u64) -> (r: u64)
        requires
            well_formed(self@),
            g <= self.groups,
        ensures
            r == group_start(self@, g as int),
    {
        proof {
            lemma_bounds(self@);
        }
        let bpg: u64 = self.bpg;
        assert(g * bpg <= 0x4_0000 * 32768) by (nonlinear_arith)
            requires
                g <= 0x4_0000,
                bpg <= 32768,
        ;
        self.first_data_block() + g * bpg
    }

    pub fn group_len(&self, g: u64) -> (r: u64)
        requires
            well_formed(self@),
            g < self.groups,
        ensures
            r == group_len(self@, g as int),
    {
        proof {
            lemma_group(self@, g as int);
        }
        let left: u64 = self.blocks - self.group_start(g);
        if left < self.bpg {
            left
        } else {
            self.bpg
        }
    }

    /// Blocks of group `g` that are free for content.
    pub fn room(&self, g: u64) -> (r: u64)
        requires
            well_formed(self@),
            g < self.groups,
        ensures
            r == room(self@, g as int),
            0 < r <= 32768,
    {
        proof {
            lemma_bounds(self@);
            lemma_group(self@, g as int);
        }
        self.group_len(g) - self.overhead(g)
    }

    /// Blocks free for content in the whole image.
    pub fn capacity(&self) -> (r: u64)
        requires
            well_formed(self@),
        ensures
            r == capacity(self@),
            r <= 0x2_0000_0000,
    {
        proof {
            lemma_bounds(self@);
        }
        let mut n: u64 = 0;
        let mut g: u64 = 0;
        while g < self.groups
            invariant
                well_formed(self@),
                g <= self.groups <= 0x4_0000,
                n == room_before(self@, g as int),
                n <= g * 32768,
            decreases self.groups - g,
        {
            n = n + self.room(g);
            g += 1;
        }
        n
    }

    /// The block that is handed out as number `k`.
    pub fn nth_block(&self, k: u64) -> (r: u64)
        requires
            well_formed(self@),
            k < capacity(self@),
        ensures
            r == nth_block(self@, k as int),
            r < self.blocks,
    {
        proof {
            lemma_bounds(self@);
            lemma_home(self@, k as int);
            lemma_group(self@, home(self@, k as int));
        }
        let mut left: u64 = k;
        let mut g: u64 = 0;
        while g < self.groups && left >= self.room(g)
            invariant
                well_formed(self@),
                g <= self.groups <= 0x4_0000,
                self.gdt_blocks <= 8192,
                self.itable_blocks <= 2048,
                k < capacity(self@),
                left == k - room_before(self@, g as int),
                block_from(self@, g as int, left as int) == nth_block(self@, k as int),
            decreases self.groups - g,
        {
            left = left - self.room(g);
            g += 1;
        }
        self.group_start(g) + self.overhead(g) + left
    }

    /// The block of the block bitmap of group `g`.
    pub fn block_bitmap(&self, g: u64) -> (r: u64)
        requires
            well_formed(self@),
            g < self.groups,
        ensures
            r == group_start(self@, g as int) + super_blocks(self@, g as int),
            r + 2 <= self.blocks,
    {
        proof {
            lemma_bounds(self@);
            lemma_group(self@, g as int);
        }
        let sb: u64 = if Layout::has_super(g) {
            1 + self.gdt_blocks
        } else {
            0
        };
        self.group_start(g) + sb
    }

    /// The first block of the inode table of group `g`.
    pub fn inode_table(&self, g: u64) -> (r: u64)
        requires
            well_formed(self@),
            g < self.groups,
        ensures
            r == group_start(self@, g as int) + super_blocks(self@, g as int) + 2,
    {
        self.block_bitmap(g) + 2
    }

    /// Inodes of the whole image.
    pub fn inodes(&self) -> (r: u64)
        requires
            well_formed(self@),
        ensures
            r == self.ipg * self.groups,
            r <= 0x2_0000_0000,
    {
        proof {
            lemma_bounds(self@);
        }
        let ipg: u64 = self.ipg;
        let groups: u64 = self.groups;
        assert(ipg * groups <= 32768 * 0x4_0000) by (nonlinear_arith)
            requires
                ipg <= 32768,
                groups <= 0x4_0000,
        ;
        ipg * groups
    }
}

} // verus!
