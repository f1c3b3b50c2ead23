//! The groups of an ext4 image, from superblock to data blocks.
use vstd::prelude::*;
use vstd::utf8::encode_utf8;
use crate::bytes::{bytes16, bytes32, push16, push32, push_bytes, push_zeros, start32, zero_seq,
    zeros};
use crate::fs::mkext4::inode::{ino_of, Image};
use crate::fs::mkext4::layout::{capacity, first_block, group_len, group_start, has_super,
    lemma_bounds, lemma_group, overhead, room, room_before, super_blocks, well_formed, Groups,
    Layout};
use crate::fs::mkext4::Params;
use crate::fs::tree::{numbered, Item, Numbered};

verus! {

broadcast use crate::bytes::group_byte_lens;

pub const FIRST_INO: u32 = 11;

/// `ext_attr`
pub const COMPAT_FEATURES: u32 = 0x8;

/// `filetype` and `extent`
pub const INCOMPAT_FEATURES: u32 = 0x42;

/// `sparse_super`, `large_file`, `dir_nlink` and `extra_isize`
pub const RO_COMPAT_FEATURES: u32 = 0x63;

/// The bits of a bitmap: those before `a` and from `b` on are set.
pub open spec fn bit_set(a: int, b: int, i: int) -> bool {
    i < a || b <= i
}

pub open spec fn bit_value(a: int, b: int, i: int, v: int) -> int {
    if bit_set(a, b, i) {
        v
    } else {
        0
    }
}

/// Byte `k` of a bitmap.
pub open spec fn bitmap_byte(a: int, b: int, k: int) -> u8 {
    (bit_value(a, b, 8 * k, 1) + bit_value(a, b, 8 * k + 1, 2) + bit_value(a, b, 8 * k + 2, 4)
        + bit_value(a, b, 8 * k + 3, 8) + bit_value(a, b, 8 * k + 4, 16) + bit_value(
        a,
        b,
        8 * k + 5,
        32,
    ) + bit_value(a, b, 8 * k + 6, 64) + bit_value(a, b, 8 * k + 7, 128)) as u8
}

/// A bitmap of `n` bytes: bits before `a` and from `b` on are set.
pub open spec fn bitmap(a: int, b: int, n: int) -> Seq<u8> {
    Seq::new(n as nat, |k: int| bitmap_byte(a, b, k))
}

/// `x`, but at least 0 and at most `hi`.
pub open spec fn clamp(x: int, hi: int) -> int {
    if x < 0 {
        0
    } else if x > hi {
        hi
    } else {
        x
    }
}

/// Blocks of group `g` that are in use when `n` blocks are handed out.
pub open spec fn used_blocks(l: Groups, n: int, g: int) -> int {
    overhead(l, g) + clamp(n - room_before(l, g), room(l, g))
}

/// Inodes of group `g` that are in use when the first `n` are.
pub open spec fn used_inodes(l: Groups, n: int, g: int) -> int {
    clamp(n - g * l.ipg, l.ipg)
}

/// Directories among the first `n` items whose inode is in group `g`.
pub open spec fn dirs_in(items: Seq<Numbered>, lf: int, ipg: int, g: int, n: int) -> int
    decreases n,
{
    if n <= 0 {
        0
    } else {
        dirs_in(items, lf, ipg, g, n - 1) + (if items[n - 1].node.kind is Dir && (ino_of(lf, n - 1)
            - 1) / ipg == g {
            1int
        } else {
            0
        })
    }
}

/// What the groups of an image are written from.
pub struct Content {
    pub items: Seq<Numbered>,
    pub lf: int,
    pub image: Image,
}

/// Blocks handed out.
pub open spec fn taken(l: Groups, c: Content) -> int {
    c.image.data.len() as int / l.bs
}

/// The number of the last inode in use.
pub open spec fn last_ino(c: Content) -> int {
    c.items.len() as int + 9
}

/// The descriptor of group `g`.
pub open spec fn desc_bytes(l: Groups, c: Content, g: int) -> Seq<u8> {
    let at = group_start(l, g) + super_blocks(l, g);
    bytes32(at) + bytes32(at + 1) + bytes32(at + 2) + bytes16(
        group_len(l, g) - used_blocks(l, taken(l, c), g),
    ) + bytes16(l.ipg - used_inodes(l, last_ino(c), g)) + bytes16(
        dirs_in(c.items, c.lf, l.ipg, g, c.items.len() as int) % 0x1_0000,
    ) + zero_seq(14)
}

/// The descriptors of the first `g` groups.
pub open spec fn descs(l: Groups, c: Content, g: int) -> Seq<u8>
    decreases g,
{
    if g <= 0 {
        Seq::empty()
    } else {
        descs(l, c, g - 1) + desc_bytes(l, c, g - 1)
    }
}

/// The blocks of the group descriptors.
#[verifier::opaque]
pub open spec fn gdt(l: Groups, c: Content) -> Seq<u8> {
    descs(l, c, l.groups) + zero_seq(l.gdt_blocks * l.bs - 32 * l.groups)
}

/// The base-2 logarithm of the block size in KiB.
pub open spec fn log_size(bs: int) -> int {
    if bs == 1024 {
        0
    } else if bs == 2048 {
        1
    } else {
        2
    }
}

/// The UTF-8 bytes of `s`, cut to `cut` bytes and padded to `n`.
pub open spec fn field(s: Seq<char>, cut: int, n: int) -> Seq<u8> {
    let b = encode_utf8(s);
    let b = if b.len() > cut {
        b.take(cut)
    } else {
        b
    };
    b + zero_seq(n - b.len())
}

/// Blocks for the superuser: at most half of them.
pub open spec fn reserved_of(l: Groups, p: Params) -> int {
    if p.reserved_blocks < l.blocks / 2 {
        p.reserved_blocks as int
    } else {
        l.blocks / 2
    }
}

/// The counts at the front of the superblock.
pub open spec fn sb_counts(l: Groups, p: Params, c: Content) -> Seq<u8> {
    bytes32((l.ipg * l.groups) % 0x1_0000_0000) + bytes32(l.blocks) + bytes32(
        reserved_of(l, p),
    ) + bytes32(capacity(l) - taken(l, c)) + bytes32(
        (l.ipg * l.groups - last_ino(c)) % 0x1_0000_0000,
    ) + bytes32(first_block(l.bs)) + bytes32(log_size(l.bs)) + bytes32(log_size(l.bs)) + bytes32(
        l.bpg,
    ) + bytes32(l.bpg) + bytes32(l.ipg)
}

/// The times and the state in the superblock: clean, continue on errors.
pub open spec fn sb_state(p: Params) -> Seq<u8> {
    bytes32(0) + bytes32(p.timestamp as int) + bytes16(0) + bytes16(0xFFFF) + bytes16(0xEF53)
        + bytes16(1) + bytes16(1) + bytes16(0) + bytes32(p.timestamp as int)
}

/// The revision and the sizes of the inodes in the superblock of group `g`.
pub open spec fn sb_revision(g: int) -> Seq<u8> {
    zero_seq(8) + bytes32(1) + bytes32(0) + bytes32(FIRST_INO as int) + bytes16(256) + bytes16(
        g % 0x1_0000,
    )
}

/// The superblock up to the features.
pub open spec fn sb_head(l: Groups, p: Params, c: Content, g: int) -> Seq<u8> {
    sb_counts(l, p, c) + sb_state(p) + sb_revision(g)
}

/// The superblock from the features on.
pub open spec fn sb_rest(p: Params) -> Seq<u8> {
    bytes32(COMPAT_FEATURES as int) + bytes32(INCOMPAT_FEATURES as int) + bytes32(
        RO_COMPAT_FEATURES as int,
    ) + p.uuid@ + field(p.volume_name@, 16, 16) + field(p.last_mounted@, 63, 64) + zero_seq(36)
        + p.hash_seed@ + seq![1u8] + zero_seq(3) + bytes32(0x0C) + bytes32(0) + bytes32(
        p.timestamp as int,
    ) + zero_seq(80) + bytes16(32) + bytes16(32) + zero_seq(672)
}

/// The copy of the superblock in group `g`.
#[verifier::opaque]
pub open spec fn superblock(l: Groups, p: Params, c: Content, g: int) -> Seq<u8> {
    sb_head(l, p, c, g) + sb_rest(p)
}

/// `n` bytes of `s` from `from` on, with zeros behind its end.
pub open spec fn window(s: Seq<u8>, from: int, n: int) -> Seq<u8> {
    Seq::new(
        n as nat,
        |k: int|
            if 0 <= from + k < s.len() {
                s[from + k]
            } else {
                0u8
            },
    )
}

/// Where the superblock stands in its block.
pub open spec fn sb_offset(bs: int, g: int) -> int {
    if g == 0 && bs != 1024 {
        1024
    } else {
        0
    }
}

/// The superblock and group descriptors of group `g`, where it has them.
#[verifier::opaque]
pub open spec fn group_head(l: Groups, p: Params, c: Content, g: int) -> Seq<u8> {
    if has_super(g) {
        zero_seq(sb_offset(l.bs, g)) + superblock(l, p, c, g) + zero_seq(
            l.bs - sb_offset(l.bs, g) - 1024,
        ) + gdt(l, c)
    } else {
        Seq::empty()
    }
}

/// The bitmaps of group `g`.
pub open spec fn group_bitmaps(l: Groups, c: Content, g: int) -> Seq<u8> {
    bitmap(used_blocks(l, taken(l, c), g), group_len(l, g), l.bs) + bitmap(
        used_inodes(l, last_ino(c), g),
        l.ipg,
        l.bs,
    )
}

/// The inode table and the data blocks of group `g`.
pub open spec fn group_rest(l: Groups, c: Content, g: int) -> Seq<u8> {
    window(c.image.inodes, g * l.ipg * 256, l.ipg * 256) + window(
        c.image.data,
        room_before(l, g) * l.bs,
        room(l, g) * l.bs,
    )
}

/// Group `g`.
#[verifier::opaque]
pub open spec fn group_bytes(l: Groups, p: Params, c: Content, g: int) -> Seq<u8> {
    group_head(l, p, c, g) + group_bitmaps(l, c, g) + group_rest(l, c, g)
}

/// An image up to group `g`.
pub open spec fn groups_upto(l: Groups, p: Params, c: Content, g: int) -> Seq<u8>
    decreases g,
{
    if g <= 0 {
        zero_seq(first_block(l.bs) * l.bs)
    } else {
        groups_upto(l, p, c, g - 1) + group_bytes(l, p, c, g - 1)
    }
}

pub proof fn lemma_descs_len(l: Groups, c: Content, g: int)
    requires
        0 <= g,
    ensures
        descs(l, c, g).len() == 32 * g,
    decreases g,
{
    if g > 0 {
        lemma_descs_len(l, c, g - 1);
    }
}

pub proof fn lemma_gdt_len(l: Groups, c: Content)
    requires
        well_formed(l),
    ensures
        gdt(l, c).len() == l.gdt_blocks * l.bs,
        32 * l.groups <= l.gdt_blocks * l.bs,
{
    reveal(gdt);
    lemma_bounds(l);
    lemma_descs_len(l, c, l.groups);
    let n = 32 * l.groups;
    let m = l.bs;
    let q = l.gdt_blocks;
    assert(n <= q * m) by (nonlinear_arith)
        requires
            q == (n + m - 1) / m,
            0 < m,
    ;
}

pub proof fn lemma_field_len(s: Seq<char>, cut: int, n: int)
    requires
        0 <= cut <= n,
    ensures
        field(s, cut, n).len() == n,
{
}

pub proof fn lemma_superblock_len(l: Groups, p: Params, c: Content, g: int)
    ensures
        superblock(l, p, c, g).len() == 1024,
        sb_head(l, p, c, g).len() == 92,
{
    reveal(superblock);
    lemma_field_len(p.volume_name@, 16, 16);
    lemma_field_len(p.last_mounted@, 63, 64);
    let a = sb_head(l, p, c, g);
    assert(a.len() == 92);
    assert(sb_rest(p).len() == 932);
}

pub proof fn lemma_group_len(l: Groups, p: Params, c: Content, g: int)
    requires
        well_formed(l),
        0 <= g < l.groups,
    ensures
        group_head(l, p, c, g).len() == super_blocks(l, g) * l.bs,
        group_bitmaps(l, c, g).len() == 2 * l.bs,
        group_bytes(l, p, c, g).len() == group_len(l, g) * l.bs,
{
    reveal(group_head);
    reveal(group_bytes);
    lemma_bounds(l);
    lemma_group(l, g);
    lemma_gdt_len(l, c);
    lemma_superblock_len(l, p, c, g);
    let bs = l.bs;
    assert((1 + l.gdt_blocks) * bs == bs + l.gdt_blocks * bs) by (nonlinear_arith);
    assert(0 * bs == 0) by (nonlinear_arith);
    assert(0 <= room(l, g) * bs) by (nonlinear_arith)
        requires
            0 <= room(l, g),
            0 < bs,
    ;
    let s = super_blocks(l, g);
    let t = l.itable_blocks;
    let r = room(l, g);
    assert((s + 2 + t + r) * bs == s * bs + 2 * bs + t * bs + r * bs) by (nonlinear_arith);
    assert(group_len(l, g) == s + 2 + t + r);
}

fn bit(a: u64, b: u64, i: u64, v: u8) -> (r: u8)
    ensures
        r == bit_value(a as int, b as int, i as int, v as int),
{
    if i < a || b <= i {
        v
    } else {
        0
    }
}

/// Appends a bitmap of `n` bytes.
fn push_bitmap(out: &mut Vec<u8>, a: u64, b: u64, n: u64)
    requires
        n <= 4096,
    ensures
        final(out)@ == old(out)@ + bitmap(a as int, b as int, n as int),
{
    let mut k: u64 = 0;
    assert(out@ =~= old(out)@ + bitmap(a as int, b as int, 0));
    while k < n
        invariant
            k <= n <= 4096,
            out@ =~= old(out)@ + bitmap(a as int, b as int, k as int),
        decreases n - k,
    {
        let v: u8 = bit(a, b, 8 * k, 1) + bit(a, b, 8 * k + 1, 2) + bit(a, b, 8 * k + 2, 4) + bit(
            a,
            b,
            8 * k + 3,
            8,
        ) + bit(a, b, 8 * k + 4, 16) + bit(a, b, 8 * k + 5, 32) + bit(a, b, 8 * k + 6, 64) + bit(
            a,
            b,
            8 * k + 7,
            128,
        );
        out.push(v);
        k += 1;
    }
}

/// Appends `n` bytes of `s` from `from` on, with zeros behind its end.
fn push_window(out: &mut Vec<u8>, s: &Vec<u8>, from: u64, n: u64)
    requires
        n <= usize::MAX,
    ensures
        final(out)@ == old(out)@ + window(s@, from as int, n as int),
{
    let len: u64 = s.len() as u64;
    let k: u64 = if from >= len {
        0
    } else if len - from < n {
        len - from
    } else {
        n
    };
    if k > 0 {
        let part: &[u8] = vstd::slice::slice_subrange(
            s.as_slice(),
            from as usize,
            (from + k) as usize,
        );
        push_bytes(out, part);
    }
    push_zeros(out, (n - k) as usize);
    assert(out@ =~= old(out)@ + window(s@, from as int, n as int));
}

fn limit(x: u64, less: u64, hi: u64) -> (r: u64)
    ensures
        r == clamp(x - less, hi as int),
{
    if x < less {
        0
    } else if x - less > hi {
        hi
    } else {
        x - less
    }
}

/// What the groups of an image are written from.
pub struct Written<'a> {
    pub items: &'a Vec<Item<'a>>,
    pub lf: usize,
    pub data: Vec<u8>,
    pub inodes: Vec<u8>,
    /// Directories in each group.
    pub dirs: Vec<u64>,
    /// Room for data blocks in the groups before each group.
    pub rooms: Vec<u64>,
}

impl<'a> View for Written<'a> {
    type V = Content;

    open spec fn view(&self) -> Content {
        Content {
            items: numbered(self.items@),
            lf: self.lf as int,
            image: Image { data: self.data@, inodes: self.inodes@ },
        }
    }
}

/// The counts per group are right.
#[verifier::opaque]
pub open spec fn counted<'a>(l: Groups, w: Written<'a>) -> bool {
    &&& w.dirs@.len() == l.groups
    &&& w.rooms@.len() == l.groups
    &&& forall|g: int|
        0 <= g < l.groups ==> #[trigger] w.dirs@[g] == dirs_in(
            w@.items,
            w@.lf,
            l.ipg,
            g,
            w@.items.len() as int,
        )
    &&& forall|g: int| 0 <= g < l.groups ==> #[trigger] w.rooms@[g] == room_before(l, g)
    &&& w@.items.len() + 16 <= u32::MAX
    &&& last_ino(w@) <= l.ipg * l.groups
}

/// Directories in each group.
pub fn count_dirs<'a>(l: &Layout, items: &Vec<Item<'a>>, lf: usize) -> (r: Vec<u64>)
    requires
        well_formed(l@),
        0 < lf < items.len(),
        items.len() + 16 <= u32::MAX,
        items@.len() + 9 <= l@.ipg * l@.groups,
    ensures
        r@.len() == l@.groups,
        forall|g: int|
            0 <= g < l@.groups ==> #[trigger] r@[g] == dirs_in(
                numbered(items@),
                lf as int,
                l@.ipg,
                g,
                items@.len() as int,
            ),
{
    let ghost all = numbered(items@);
    proof {
        lemma_bounds(l@);
    }
    let mut v: Vec<u64> = vec![0u64; l.groups as usize];
    let n: usize = items.len();
    let mut i: usize = 0;
    while i < n
        invariant
            n == items@.len(),
            n == all.len(),
            all == numbered(items@),
            i <= n,
            0 < lf < n,
            n + 16 <= u32::MAX,
            n + 9 <= l@.ipg * l@.groups,
            0 < l@.ipg,
            v@.len() == l@.groups,
            forall|g: int|
                0 <= g < l@.groups ==> #[trigger] v@[g] == dirs_in(
                    all,
                    lf as int,
                    l@.ipg,
                    g,
                    i as int,
                ),
            forall|g: int| 0 <= g < l@.groups ==> #[trigger] v@[g] <= i,
        decreases n - i,
    {
        assert(all[i as int] == items@[i as int].numbered());
        let is_dir: bool = match &items[i].node.kind {
            crate::fs::mkext4::NodeKind::Dir(_) => true,
            _ => false,
        };
        let ino: u64 = if i == 0 {
            2
        } else if i == lf {
            11
        } else if i < lf {
            11 + i as u64
        } else {
            10 + i as u64
        };
        let g: u64 = (ino - 1) / l.ipg;
        proof {
            let x = ino - 1;
            let ipg = l@.ipg;
            let groups = l@.groups;
            assert(0 <= x / ipg < groups) by (nonlinear_arith)
                requires
                    0 <= x < ipg * groups,
                    0 < ipg,
            ;
        }
        if is_dir {
            let old_count: u64 = v[g as usize];
            v.set(g as usize, old_count + 1);
        }
        i += 1;
    }
    v
}

/// Room for data blocks in the groups before each group.
pub fn sum_rooms(l: &Layout) -> (r: Vec<u64>)
    requires
        well_formed(l@),
    ensures
        r@.len() == l@.groups,
        forall|g: int| 0 <= g < l@.groups ==> #[trigger] r@[g] == room_before(l@, g),
{
    proof {
        lemma_bounds(l@);
    }
    let mut v: Vec<u64> = Vec::new();
    let mut sum: u64 = 0;
    let mut g: u64 = 0;
    while g < l.groups
        invariant
            well_formed(l@),
            g <= l.groups <= 0x4_0000,
            sum == room_before(l@, g as int),
            sum <= g * 32768,
            v@.len() == g,
            forall|h: int| 0 <= h < g ==> #[trigger] v@[h] == room_before(l@, h),
        decreases l.groups - g,
    {
        v.push(sum);
        sum = sum + l.room(g);
        g += 1;
    }
    v
}

/// Blocks and inodes of group `g` that are in use.
fn used_in<'a>(l: &Layout, w: &Written<'a>, g: u64) -> (r: (u64, u64))
    requires
        well_formed(l@),
        counted(l@, *w),
        g < l.groups,
    ensures
        r.0 == used_blocks(l@, taken(l@, w@), g as int),
        r.1 == used_inodes(l@, last_ino(w@), g as int),
        r.0 <= group_len(l@, g as int) <= 32768,
        r.1 <= l@.ipg <= 32768,
{
    proof {
        reveal(counted);
        lemma_bounds(l@);
        lemma_group(l@, g as int);
    }
    let n: u64 = w.data.len() as u64 / l.bs;
    assert(w.rooms@[g as int] == room_before(l@, g as int));
    let before: u64 = w.rooms[g as usize];
    let blocks: u64 = l.overhead(g) + limit(n, before, l.room(g));
    let ipg: u64 = l.ipg;
    assert(g * ipg <= 0x4_0000 * 32768) by (nonlinear_arith)
        requires
            g <= 0x4_0000,
            ipg <= 32768,
    ;
    assert(w@.items.len() == w.items@.len());
    let last: u64 = w.items.len() as u64 + 9;
    (blocks, limit(last, g * ipg, ipg))
}

/// Appends the descriptor of group `g`.
fn push_desc<'a>(out: &mut Vec<u8>, l: &Layout, w: &Written<'a>, g: u64)
    requires
        well_formed(l@),
        counted(l@, *w),
        g < l.groups,
    ensures
        final(out)@ == old(out)@ + desc_bytes(l@, w@, g as int),
{
    let (blocks, inodes): (u64, u64) = used_in(l, w, g);
    proof {
        reveal(counted);
        lemma_bounds(l@);
        assert(w.dirs@[g as int] == dirs_in(
            w@.items,
            w@.lf,
            l@.ipg,
            g as int,
            w@.items.len() as int,
        ));
        lemma_group(l@, g as int);
    }
    let at: u64 = l.block_bitmap(g);
    let mut d: Vec<u8> = start32(at as u32);
    push32(&mut d, (at + 1) as u32);
    push32(&mut d, (at + 2) as u32);
    push16(&mut d, (l.group_len(g) - blocks) as u16);
    push16(&mut d, (l.ipg - inodes) as u16);
    push16(&mut d, (w.dirs[g as usize] % 0x1_0000) as u16);
    push_zeros(&mut d, 14);
    push_bytes(out, &d);
}

/// The blocks of the group descriptors.
fn build_gdt<'a>(l: &Layout, w: &Written<'a>) -> (r: Vec<u8>)
    requires
        well_formed(l@),
        counted(l@, *w),
    ensures
        r@ == gdt(l@, w@),
{
    proof {
        reveal(gdt);
        lemma_bounds(l@);
        lemma_gdt_len(l@, w@);
    }
    let mut out: Vec<u8> = Vec::new();
    assert(out@ =~= descs(l@, w@, 0));
    let mut g: u64 = 0;
    while g < l.groups
        invariant
            well_formed(l@),
            counted(l@, *w),
            g <= l.groups,
            out@ == descs(l@, w@, g as int),
        decreases l.groups - g,
    {
        push_desc(&mut out, l, w, g);
        g += 1;
    }
    let blocks: u64 = l.gdt_blocks;
    let bs: u64 = l.bs;
    assert(blocks * bs <= 8192 * 4096) by (nonlinear_arith)
        requires
            blocks <= 8192,
            bs <= 4096,
    ;
    push_zeros(&mut out, (blocks * bs - 32 * l.groups) as usize);
    out
}

/// Appends the bytes of `s`, cut to `cut` bytes and padded to `n`.
fn push_field(out: &mut Vec<u8>, s: &str, cut: usize, n: usize)
    requires
        cut <= n,
    ensures
        final(out)@ == old(out)@ + field(s@, cut as int, n as int),
{
    let b: &[u8] = s.as_bytes();
    let k: usize = if b.len() > cut {
        cut
    } else {
        b.len()
    };
    push_bytes(out, vstd::slice::slice_subrange(b, 0, k));
    push_zeros(out, n - k);
    assert(out@ =~= old(out)@ + field(s@, cut as int, n as int));
}

fn build_sb_head<'a>(l: &Layout, p: &Params, w: &Written<'a>, cap: u64, g: u64) -> (r: Vec<u8>)
    requires
        well_formed(l@),
        counted(l@, *w),
        cap == capacity(l@),
        taken(l@, w@) <= cap,
        cap <= l.blocks,
    ensures
        r@ == sb_head(l@, *p, w@, g as int),
{
    proof {
        reveal(counted);
        lemma_bounds(l@);
        assert(w@.items.len() == w.items@.len());
    }
    let inodes: u64 = l.inodes();
    let last: u64 = w.items.len() as u64 + 9;
    let taken: u64 = w.data.len() as u64 / l.bs;
    let log: u32 = if l.bs == 1024 {
        0
    } else if l.bs == 2048 {
        1
    } else {
        2
    };
    let reserved: u64 = if p.reserved_blocks < l.blocks / 2 {
        p.reserved_blocks
    } else {
        l.blocks / 2
    };
    let mut b: Vec<u8> = start32((inodes % 0x1_0000_0000) as u32);
    push32(&mut b, l.blocks as u32);
    push32(&mut b, reserved as u32);
    push32(&mut b, (cap - taken) as u32);
    push32(&mut b, ((inodes - last) % 0x1_0000_0000) as u32);
    push32(&mut b, l.first_data_block() as u32);
    push32(&mut b, log);
    push32(&mut b, log);
    push32(&mut b, l.bpg as u32);
    push32(&mut b, l.bpg as u32);
    push32(&mut b, l.ipg as u32);
    let mut s: Vec<u8> = start32(0);
    push32(&mut s, p.timestamp);
    push16(&mut s, 0);
    push16(&mut s, 0xFFFF);
    push16(&mut s, 0xEF53);
    push16(&mut s, 1);  // clean
    push16(&mut s, 1);  // errors: continue
    push16(&mut s, 0);
    push32(&mut s, p.timestamp);
    push_bytes(&mut b, &s);
    let mut r: Vec<u8> = zeros(8);
    push32(&mut r, 1);  // dynamic revision
    push32(&mut r, 0);
    push32(&mut r, FIRST_INO);
    push16(&mut r, 256);
    push16(&mut r, (g % 0x1_0000) as u16);
    push_bytes(&mut b, &r);
    b
}

fn build_sb_rest(p: &Params) -> (r: Vec<u8>)
    ensures
        r@ == sb_rest(*p),
{
    let mut b: Vec<u8> = start32(COMPAT_FEATURES);
    push32(&mut b, INCOMPAT_FEATURES);
    push32(&mut b, RO_COMPAT_FEATURES);
    push_bytes(&mut b, p.uuid.as_slice());
    push_field(&mut b, p.volume_name.as_str(), 16, 16);
    push_field(&mut b, p.last_mounted.as_str(), 63, 64);
    push_zeros(&mut b, 36);
    push_bytes(&mut b, p.hash_seed.as_slice());
    let half_md4: Vec<u8> = vec![1u8];
    assert(half_md4@ =~= seq![1u8]);
    push_bytes(&mut b, &half_md4);
    push_zeros(&mut b, 3);
    push32(&mut b, 0x0C);  // default mount options: user_xattr acl
    push32(&mut b, 0);
    push32(&mut b, p.timestamp);
    push_zeros(&mut b, 80);
    push16(&mut b, 32);
    push16(&mut b, 32);
    push_zeros(&mut b, 672);
    b
}

/// The superblock and group descriptors of group `g`, where it has them.
fn build_head<'a>(l: &Layout, p: &Params, w: &Written<'a>, gdt: &Vec<u8>, cap: u64, g: u64) -> (r:
    Vec<u8>)
    requires
        well_formed(l@),
        counted(l@, *w),
        cap == capacity(l@),
        taken(l@, w@) <= cap,
        cap <= l.blocks,
        gdt@ == self::gdt(l@, w@),
    ensures
        r@ == group_head(l@, *p, w@, g as int),
{
    proof {
        reveal(group_head);
        reveal(superblock);
        lemma_bounds(l@);
    }
    if !Layout::has_super(g) {
        let none: Vec<u8> = Vec::new();
        assert(none@ =~= Seq::<u8>::empty());
        return none;
    }
    let at: usize = if g == 0 && l.bs != 1024 {
        1024
    } else {
        0
    };
    let mut b: Vec<u8> = zeros(at);
    let mut sb: Vec<u8> = build_sb_head(l, p, w, cap, g);
    let tail: Vec<u8> = build_sb_rest(p);
    push_bytes(&mut sb, &tail);
    push_bytes(&mut b, &sb);
    push_zeros(&mut b, l.bs as usize - at - 1024);
    push_bytes(&mut b, gdt);
    b
}

/// Appends group `g`.
fn push_group<'a>(
    out: &mut Vec<u8>,
    l: &Layout,
    p: &Params,
    w: &Written<'a>,
    gdt: &Vec<u8>,
    cap: u64,
    g: u64,
)
    requires
        well_formed(l@),
        counted(l@, *w),
        cap == capacity(l@),
        taken(l@, w@) <= cap,
        cap <= l.blocks,
        gdt@ == self::gdt(l@, w@),
        g < l.groups,
    ensures
        final(out)@ == old(out)@ + group_bytes(l@, *p, w@, g as int),
{
    proof {
        reveal(group_bytes);
        reveal(counted);
        lemma_bounds(l@);
        lemma_group(l@, g as int);
    }
    let mut b: Vec<u8> = build_head(l, p, w, gdt, cap, g);
    let ghost head = b@;
    let (blocks, inodes): (u64, u64) = used_in(l, w, g);
    let bs: u64 = l.bs;
    let ipg: u64 = l.ipg;
    push_bitmap(&mut b, blocks, l.group_len(g), bs);
    push_bitmap(&mut b, inodes, ipg, bs);
    let ghost maps = group_bitmaps(l@, w@, g as int);
    assert(b@ =~= head + maps);
    proof {
        assert(w.rooms@[g as int] == room_before(l@, g as int));
    }
    let from: u64 = w.rooms[g as usize];
    let n: u64 = l.room(g);
    proof {
        crate::fs::mkext4::layout::lemma_room_mono(l@, g as int, l@.groups);
        lemma_products(g as int, ipg as int, from as int, n as int, bs as int);
    }
    push_window(&mut b, &w.inodes, g * ipg * 256, ipg * 256);
    push_window(&mut b, &w.data, from * bs, n * bs);
    assert(b@ =~= head + maps + group_rest(l@, w@, g as int));
    push_bytes(out, &b);
}

proof fn lemma_products(g: int, ipg: int, from: int, n: int, bs: int)
    requires
        0 <= g <= 0x4_0000,
        0 <= ipg <= 32768,
        0 <= from <= u32::MAX,
        0 <= n <= 32768,
        0 <= bs <= 4096,
    ensures
        0 <= g * ipg <= 0x2_0000_0000,
        0 <= from * bs <= 0x1000_0000_0000,
        0 <= n * bs <= 0x800_0000,
{
    assert(0 <= g * ipg <= 0x4_0000 * 32768) by (nonlinear_arith)
        requires
            0 <= g <= 0x4_0000,
            0 <= ipg <= 32768,
    ;
    assert(0 <= from * bs <= 0x1_0000_0000 * 4096) by (nonlinear_arith)
        requires
            0 <= from <= 0x1_0000_0000,
            0 <= bs <= 4096,
    ;
    assert(0 <= n * bs <= 32768 * 4096) by (nonlinear_arith)
        requires
            0 <= n <= 32768,
            0 <= bs <= 4096,
    ;
}

/// The whole image.
pub fn assemble<'a>(l: &Layout, p: &Params, w: &Written<'a>, cap: u64) -> (r: Vec<u8>)
    requires
        well_formed(l@),
        counted(l@, *w),
        cap == capacity(l@),
        taken(l@, w@) <= cap,
        cap <= l.blocks,
    ensures
        r@ == groups_upto(l@, *p, w@, l@.groups),
{
    proof {
        lemma_bounds(l@);
    }
    let gdt: Vec<u8> = build_gdt(l, w);
    let first: u64 = l.first_data_block();
    let bs: u64 = l.bs;
    assert(first * bs <= 4096) by (nonlinear_arith)
        requires
            first <= 1,
            bs <= 4096,
    ;
    let mut out: Vec<u8> = zeros((first * bs) as usize);
    let mut g: u64 = 0;
    while g < l.groups
        invariant
            well_formed(l@),
            counted(l@, *w),
            cap == capacity(l@),
            taken(l@, w@) <= cap,
            cap <= l.blocks,
            gdt@ == self::gdt(l@, w@),
            g <= l.groups,
            out@ == groups_upto(l@, *p, w@, g as int),
        decreases l.groups - g,
    {
        push_group(&mut out, l, p, w, &gdt, cap, g);
        g += 1;
    }
    out
}

/// The blocks of the first groups: those before the first one, their
/// metadata and their room for data.
pub proof fn lemma_rooms(l: Groups, g: int)
    requires
        well_formed(l),
        0 <= g <= l.groups,
    ensures
        0 <= room_before(l, g),
        g < l.groups ==> room_before(l, g) + first_block(l.bs) <= group_start(l, g),
        g == l.groups ==> room_before(l, g) + first_block(l.bs) <= l.blocks,
    decreases g,
{
    lemma_bounds(l);
    if g > 0 {
        lemma_rooms(l, g - 1);
        lemma_group(l, g - 1);
    } else {
        assert(0 * l.bpg == 0) by (nonlinear_arith);
    }
}

} // verus!
