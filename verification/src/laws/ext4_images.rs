//! The fields of a new ext4 image, by their places.
use vstd::prelude::*;
use vstd::arithmetic::power::pow;
use crate::bytes::{bytes16, bytes32, le16, le32, lemma_bytes16, lemma_bytes32, len_bytes16,
    len_bytes32};
use crate::fs::mkerofs::layout::subdirs;
use crate::fs::mkerofs::mode_of;
use crate::fs::mkext4::image::{field, gdt, group_head, lemma_field_len, lemma_gdt_len,
    lemma_superblock_len, log_size, reserved_of, sb_counts, sb_head, sb_rest, sb_revision, sb_state,
    superblock, Content};
use crate::fs::mkext4::inode::{inode_bytes, inode_head, inode_rest, links, sectors_of, Attached,
    Placed};
use crate::fs::mkext4::layout::{first_block, has_super, lemma_bounds, power_of, well_formed,
    Groups};
use crate::fs::mkext4::{Node, NodeKind, Params};
use crate::fs::order::{lemma_order, lemma_place, names, order, picked, place};
use crate::fs::tree::kids_of;

verus! {

broadcast use {len_bytes16, len_bytes32};

/// The superblock of every group says the same, but for the number of the group
/// that it stands in.
pub proof fn superblocks_are_copies(l: Groups, p: Params, c: Content, g: int, h: int)
    ensures
        superblock(l, p, c, g).len() == 1024,
        superblock(l, p, c, h).len() == 1024,
        forall|k: int|
            0 <= k < 1024 && k != 90 && k != 91 ==> (#[trigger] superblock(l, p, c, g)[k])
                == superblock(l, p, c, h)[k],
        0 <= g < 0x1_0000 ==> le16(superblock(l, p, c, g), 90) == g,
{
    lemma_superblock_len(l, p, c, g);
    lemma_superblock_len(l, p, c, h);
    reveal(superblock);
    let a = superblock(l, p, c, g);
    let b = superblock(l, p, c, h);
    let x = sb_head(l, p, c, g);
    let y = sb_head(l, p, c, h);
    let front = sb_counts(l, p, c) + sb_state(p);
    assert forall|k: int| 0 <= k < 1024 && k != 90 && k != 91 implies #[trigger] a[k] == b[k] by {
        if k >= 92 {
            assert(a[k] == sb_rest(p)[k - 92] && b[k] == sb_rest(p)[k - 92]);
        } else {
            assert(a[k] == x[k] && b[k] == y[k]);
            if k < 72 {
                assert(front.len() == 68);
            }
        }
    }
    if 0 <= g < 0x1_0000 {
        lemma_bytes16(g);
        assert(sb_revision(g).skip(22) =~= bytes16(g));
        assert(a[90] == sb_revision(g)[22] && a[91] == sb_revision(g)[23]);
        assert(bytes16(g)[0] == sb_revision(g)[22] && bytes16(g)[1] == sb_revision(g)[23]);
    }
}

/// The block size as the superblock says it, the groups that blocks and inodes
/// are in, and the blocks that are kept for the superuser.
pub proof fn superblock_says_the_layout(l: Groups, p: Params, c: Content, g: int)
    requires
        l.bs == 1024 || l.bs == 2048 || l.bs == 4096,
        0 <= l.blocks <= u32::MAX,
        0 <= l.bpg <= u32::MAX,
        0 <= l.ipg <= u32::MAX,
    ensures
        ({
            let sb = superblock(l, p, c, g);
            &&& le32(sb, 4) == l.blocks
            &&& 0 <= le32(sb, 8) <= p.reserved_blocks && 2 * le32(sb, 8) <= l.blocks
            &&& 2 * p.reserved_blocks <= l.blocks - 1 ==> le32(sb, 8) == p.reserved_blocks
            &&& le32(sb, 20) == if l.bs == 1024 {
                1int
            } else {
                0
            }
            &&& (le32(sb, 24) == 0 ==> l.bs == 1024) && (le32(sb, 24) == 1 ==> l.bs == 2048) && (
            le32(sb, 24) == 2 ==> l.bs == 4096) && 0 <= le32(sb, 24) <= 2
            &&& le32(sb, 28) == le32(sb, 24)
            &&& le32(sb, 32) == l.bpg && le32(sb, 36) == l.bpg
            &&& le32(sb, 40) == l.ipg
        }),
{
    lemma_superblock_len(l, p, c, g);
    reveal(superblock);
    let sb = superblock(l, p, c, g);
    let h = sb_counts(l, p, c);
    let r = reserved_of(l, p);
    let k = log_size(l.bs);
    lemma_bytes32(l.blocks);
    lemma_bytes32(r);
    lemma_bytes32(first_block(l.bs));
    lemma_bytes32(k);
    lemma_bytes32(l.bpg);
    lemma_bytes32(l.ipg);
    assert(h.len() == 44);
    assert(le32(h, 4) == le32(bytes32(l.blocks), 0));
    assert(le32(h, 8) == le32(bytes32(r), 0));
    assert(le32(h, 20) == le32(bytes32(first_block(l.bs)), 0));
    assert(le32(h, 24) == le32(bytes32(k), 0));
    assert(le32(h, 28) == le32(bytes32(k), 0));
    assert(le32(h, 32) == le32(bytes32(l.bpg), 0));
    assert(le32(h, 36) == le32(bytes32(l.bpg), 0));
    assert(le32(h, 40) == le32(bytes32(l.ipg), 0));
    assert forall|i: int| 0 <= i < 44 implies #[trigger] sb[i] == h[i] by {
        assert(sb[i] == sb_head(l, p, c, g)[i]);
    }
}

/// The magic number, the state and the revision in the superblock: a clean file
/// system with inodes of 256 bytes, of which eleven are its own. Its features
/// are extents and file types in directories, extended attributes, copies of
/// the superblock in some groups, large files, and large inodes with room for
/// many directories.
pub proof fn superblock_says_the_format(l: Groups, p: Params, c: Content, g: int)
    ensures
        ({
            let sb = superblock(l, p, c, g);
            &&& le16(sb, 0x38) == 0xEF53
            &&& le16(sb, 0x34) == 0
            &&& le16(sb, 0x3A) == 1
            &&& le32(sb, 0x30) == p.timestamp && le32(sb, 0x40) == p.timestamp
            &&& le32(sb, 0x4C) == 1
            &&& le32(sb, 0x54) == 11
            &&& le16(sb, 0x58) == 256
            &&& le32(sb, 0x5C) == 0x8
            &&& le32(sb, 0x60) == 0x40 + 0x2
            &&& le32(sb, 0x64) == 0x1 + 0x2 + 0x20 + 0x40
            &&& sb.subrange(0x68, 0x78) == p.uuid@
            &&& sb.subrange(0x78, 0x88) == field(p.volume_name@, 16, 16)
            &&& sb.subrange(0x88, 0xC8) == field(p.last_mounted@, 63, 64)
            &&& sb.subrange(0xEC, 0xFC) == p.hash_seed@ && sb[0xFC] == 1
            &&& le32(sb, 0x108) == p.timestamp
            &&& le16(sb, 0x15C) == 32 && le16(sb, 0x15E) == 32
        }),
{
    lemma_superblock_len(l, p, c, g);
    reveal(superblock);
    let sb = superblock(l, p, c, g);
    let head = sb_head(l, p, c, g);
    let h = sb_counts(l, p, c);
    let s = sb_state(p);
    let v = sb_revision(g);
    let r = sb_rest(p);
    let t = p.timestamp as int;
    lemma_field_len(p.volume_name@, 16, 16);
    lemma_field_len(p.last_mounted@, 63, 64);
    lemma_bytes32(t);
    lemma_bytes16(0xEF53);
    lemma_bytes16(0);
    lemma_bytes16(1);
    lemma_bytes32(1);
    lemma_bytes32(11);
    lemma_bytes16(256);
    lemma_bytes16(32);
    lemma_bytes32(0x8);
    lemma_bytes32(0x42);
    lemma_bytes32(0x63);
    assert(h.len() == 44 && s.len() == 24 && v.len() == 24 && r.len() == 932);
    assert(le32(s, 4) == le32(bytes32(t), 0));
    assert(le16(s, 8) == le16(bytes16(0), 0));
    assert(le16(s, 12) == le16(bytes16(0xEF53), 0));
    assert(le16(s, 14) == le16(bytes16(1), 0));
    assert(le32(s, 20) == le32(bytes32(t), 0));
    assert(le32(v, 8) == le32(bytes32(1), 0));
    assert(le32(v, 16) == le32(bytes32(11), 0));
    assert(le16(v, 20) == le16(bytes16(256), 0));
    assert(le32(r, 0) == le32(bytes32(0x8), 0));
    assert(le32(r, 4) == le32(bytes32(0x42), 0));
    assert(le32(r, 8) == le32(bytes32(0x63), 0));
    assert(r.subrange(12, 28) =~= p.uuid@);
    assert(r.subrange(28, 44) =~= field(p.volume_name@, 16, 16));
    assert(r.subrange(44, 108) =~= field(p.last_mounted@, 63, 64));
    assert(r.subrange(144, 160) =~= p.hash_seed@);
    assert(r[160] == 1);
    assert(le32(r, 172) == le32(bytes32(t), 0));
    assert(le16(r, 256) == le16(bytes16(32), 0));
    assert(le16(r, 258) == le16(bytes16(32), 0));
    assert forall|i: int| 0 <= i < 24 implies #[trigger] s[i] == sb[44 + i] by {
        assert(sb[44 + i] == head[44 + i]);
    }
    assert forall|i: int| 0 <= i < 24 implies #[trigger] v[i] == sb[68 + i] by {
        assert(sb[68 + i] == head[68 + i]);
    }
    assert forall|i: int| 0 <= i < 932 implies #[trigger] r[i] == sb[92 + i] by {
    }
    assert(sb.subrange(0x68, 0x78) =~= r.subrange(12, 28));
    assert(sb.subrange(0x78, 0x88) =~= r.subrange(28, 44));
    assert(sb.subrange(0x88, 0xC8) =~= r.subrange(44, 108));
    assert(sb.subrange(0xEC, 0xFC) =~= r.subrange(144, 160));
    assert(le32(s, 4) == le32(sb, 0x30));
    assert(le16(s, 8) == le16(sb, 0x34));
    assert(le16(s, 12) == le16(sb, 0x38));
    assert(le16(s, 14) == le16(sb, 0x3A));
    assert(le32(s, 20) == le32(sb, 0x40));
    assert(le32(v, 8) == le32(sb, 0x4C));
    assert(le32(v, 16) == le32(sb, 0x54));
    assert(le16(v, 20) == le16(sb, 0x58));
    assert(le32(r, 0) == le32(sb, 0x5C));
    assert(le32(r, 4) == le32(sb, 0x60));
    assert(le32(r, 8) == le32(sb, 0x64));
    assert(le32(r, 172) == le32(sb, 0x108));
    assert(le16(r, 256) == le16(sb, 0x15C));
    assert(le16(r, 258) == le16(sb, 0x15E));
}

/// Every group with a copy of the superblock has all the group descriptors
/// behind the block of that copy.
pub proof fn descriptors_are_copies(l: Groups, p: Params, c: Content, g: int, h: int)
    requires
        well_formed(l),
        has_super(g),
        has_super(h),
    ensures
        group_head(l, p, c, g).len() == (1 + l.gdt_blocks) * l.bs,
        group_head(l, p, c, g).skip(l.bs) == group_head(l, p, c, h).skip(l.bs),
        group_head(l, p, c, g).skip(if g == 0 && l.bs != 1024 {
            1024
        } else {
            0
        }).take(1024) == superblock(l, p, c, g),
{
    reveal(group_head);
    lemma_bounds(l);
    lemma_superblock_len(l, p, c, g);
    lemma_superblock_len(l, p, c, h);
    lemma_gdt_len(l, c);
    let bs = l.bs;
    assert((1 + l.gdt_blocks) * bs == bs + l.gdt_blocks * bs) by (nonlinear_arith);
    let a = group_head(l, p, c, g);
    let b = group_head(l, p, c, h);
    assert(a.skip(bs) =~= gdt(l, c));
    assert(b.skip(bs) =~= gdt(l, c));
    let at = if g == 0 && bs != 1024 {
        1024int
    } else {
        0
    };
    assert(a.skip(at).take(1024) =~= superblock(l, p, c, g));
}

/// The groups with a copy of the superblock are the first two and every third,
/// fifth and seventh power.
pub proof fn copies_are_sparse(k: nat)
    ensures
        has_super(0) && has_super(1),
        has_super(pow(3, k)),
        has_super(pow(5, k)),
        has_super(pow(7, k)),
        !has_super(2) && !has_super(4) && !has_super(6) && !has_super(8) && !has_super(10),
{
    assert(power_of(pow(3, k), 3));
    assert(power_of(pow(5, k), 5));
    assert(power_of(pow(7, k), 7));
    assert forall|n: int, b: int| (n % 2 == 0 && b % 2 == 1) implies !#[trigger] power_of(n, b) by {
        if power_of(n, b) {
            let j = choose|j: nat| #[trigger] pow(b, j) == n;
            lemma_odd_power(b, j);
        }
    }
}

proof fn lemma_odd_power(b: int, j: nat)
    requires
        b % 2 == 1,
    ensures
        pow(b, j) % 2 == 1,
    decreases j,
{
    reveal(pow);
    if j > 0 {
        lemma_odd_power(b, (j - 1) as nat);
        let q = pow(b, (j - 1) as nat);
        let x = b / 2;
        let y = q / 2;
        assert(b * q == 2 * (2 * (x * y) + x + y) + 1) by (nonlinear_arith)
            requires
                b == 2 * x + 1,
                q == 2 * y + 1,
        ;
    }
}

/// The fields of an inode: the type and the mode, the owner and the group with
/// their high halves, the size, the times, the links, the sectors, the map of
/// the content and the place of the extended attributes.
pub proof fn inodes_say_the_metadata(node: Node, pl: Placed, a: Attached, sectors: int, time: int)
    requires
        pl.block.len() == 60,
        0 <= pl.size < 0x1_0000_0000_0000_0000,
        0 <= sectors < 0x1_0000_0000_0000,
        0 <= pl.flags <= u32::MAX,
        0 <= a.acl < 0x1_0000_0000_0000,
        0 <= time <= u32::MAX,
    ensures
        ({
            let b = inode_bytes(node, pl, a, sectors, time);
            &&& le16(b, 0) / 0x1000 == match node.kind {
                NodeKind::Dir(_) => 4int,
                NodeKind::File { .. } => 8,
                NodeKind::Symlink(_) => 10,
            }
            &&& le16(b, 0) % 0x1000 == node.mode % 0x1000
            &&& le16(b, 2) + 0x1_0000 * le16(b, 120) == node.uid
            &&& le16(b, 24) + 0x1_0000 * le16(b, 122) == node.gid
            &&& le32(b, 4) + 0x1_0000_0000 * le32(b, 108) == pl.size
            &&& le32(b, 8) == time && le32(b, 12) == time && le32(b, 16) == time && le32(b, 20) == 0
            &&& le16(b, 26) == links(node)
            &&& le32(b, 28) + 0x1_0000_0000 * le16(b, 116) == sectors
            &&& le32(b, 32) == pl.flags
            &&& b.subrange(40, 100) == pl.block
            &&& le32(b, 104) + 0x1_0000_0000 * le16(b, 118) == a.acl
            &&& le16(b, 128) == 32
            &&& le32(b, 144) == time
            &&& b.skip(160) == a.area
        }),
{
    reveal(inode_bytes);
    let b = inode_bytes(node, pl, a, sectors, time);
    let h = inode_head(node, pl.size, sectors, pl.flags, time);
    let r = inode_rest(node, pl.size, sectors, a.acl, time);
    lemma_subdirs(node, kids_of(node).len() as int);
    lemma_bytes16(mode_of(node));
    lemma_bytes16((node.uid % 0x1_0000) as int);
    lemma_bytes16((node.uid / 0x1_0000) as int);
    lemma_bytes16((node.gid % 0x1_0000) as int);
    lemma_bytes16((node.gid / 0x1_0000) as int);
    lemma_bytes32(pl.size % 0x1_0000_0000);
    lemma_bytes32(pl.size / 0x1_0000_0000);
    lemma_bytes32(time);
    lemma_bytes32(0);
    lemma_bytes16(links(node));
    lemma_bytes32(sectors % 0x1_0000_0000);
    lemma_bytes16(sectors / 0x1_0000_0000);
    lemma_bytes32(pl.flags);
    lemma_bytes32(a.acl % 0x1_0000_0000);
    lemma_bytes16(a.acl / 0x1_0000_0000);
    lemma_bytes16(32);
    assert(h.len() == 40 && r.len() == 60);
    assert(le16(h, 0) == le16(bytes16(mode_of(node)), 0));
    assert(le16(h, 2) == le16(bytes16((node.uid % 0x1_0000) as int), 0));
    assert(le32(h, 4) == le32(bytes32(pl.size % 0x1_0000_0000), 0));
    assert(le32(h, 8) == le32(bytes32(time), 0));
    assert(le32(h, 12) == le32(bytes32(time), 0));
    assert(le32(h, 16) == le32(bytes32(time), 0));
    assert(le32(h, 20) == le32(bytes32(0), 0));
    assert(le16(h, 24) == le16(bytes16((node.gid % 0x1_0000) as int), 0));
    assert(le16(h, 26) == le16(bytes16(links(node)), 0));
    assert(le32(h, 28) == le32(bytes32(sectors % 0x1_0000_0000), 0));
    assert(le32(h, 32) == le32(bytes32(pl.flags), 0));
    assert(le32(r, 4) == le32(bytes32(a.acl % 0x1_0000_0000), 0));
    assert(le32(r, 8) == le32(bytes32(pl.size / 0x1_0000_0000), 0));
    assert(le16(r, 16) == le16(bytes16(sectors / 0x1_0000_0000), 0));
    assert(le16(r, 18) == le16(bytes16(a.acl / 0x1_0000_0000), 0));
    assert(le16(r, 20) == le16(bytes16((node.uid / 0x1_0000) as int), 0));
    assert(le16(r, 22) == le16(bytes16((node.gid / 0x1_0000) as int), 0));
    assert(le16(r, 28) == le16(bytes16(32), 0));
    assert(le32(r, 44) == le32(bytes32(time), 0));
    assert forall|i: int| 0 <= i < 40 implies #[trigger] h[i] == b[i] by {
    }
    assert forall|i: int| 0 <= i < 60 implies #[trigger] r[i] == b[100 + i] by {
    }
    assert(le16(h, 0) == le16(b, 0) && le16(h, 2) == le16(b, 2) && le32(h, 4) == le32(b, 4));
    assert(le32(h, 8) == le32(b, 8) && le32(h, 12) == le32(b, 12) && le32(h, 16) == le32(b, 16));
    assert(le32(h, 20) == le32(b, 20) && le16(h, 24) == le16(b, 24) && le16(h, 26) == le16(b, 26));
    assert(le32(h, 28) == le32(b, 28) && le32(h, 32) == le32(b, 32));
    assert(le32(r, 4) == le32(b, 104) && le32(r, 8) == le32(b, 108));
    assert(le16(r, 16) == le16(b, 116) && le16(r, 18) == le16(b, 118));
    assert(le16(r, 20) == le16(b, 120) && le16(r, 22) == le16(b, 122));
    assert(le16(r, 28) == le16(b, 128) && le32(r, 44) == le32(b, 144));
    assert(b.subrange(40, 100) =~= pl.block);
    assert(b.skip(160) =~= a.area);
}

proof fn lemma_subdirs(node: Node, n: int)
    requires
        0 <= n,
    ensures
        0 <= subdirs(node, n) <= n,
    decreases n,
{
    if n > 0 {
        lemma_subdirs(node, n - 1);
    }
}

/// How many of the first `n` nodes are directories.
pub open spec fn dirs_among(ch: Seq<Node>, n: int) -> int
    decreases n,
{
    if n <= 0 {
        0
    } else {
        dirs_among(ch, n - 1) + if ch[n - 1].kind is Dir {
            1int
        } else {
            0
        }
    }
}

/// A file or symlink has one link. A directory has one from its parent, one
/// from itself and one from each directory in it; it has one where that is too
/// much to count.
pub proof fn links_are_counted(node: Node)
    ensures
        match node.kind {
            NodeKind::Dir(ch) => {
                let n = dirs_among(ch@, ch@.len() as int);
                links(node) == if n < 64998 {
                    2 + n
                } else {
                    1
                }
            },
            _ => links(node) == 1,
        },
{
    if node.kind is Dir {
        lemma_all_dirs(node);
    }
}

pub(crate) proof fn lemma_all_dirs(node: Node)
    requires
        node.kind is Dir,
    ensures
        ({
            let ch = node.kind->Dir_0@;
            &&& kids_of(node).len() == ch.len()
            &&& subdirs(node, ch.len() as int) == dirs_among(ch, ch.len() as int)
            &&& 0 <= dirs_among(ch, ch.len() as int) <= ch.len()
        }),
{
    let ch = node.kind->Dir_0@;
    lemma_dirs_among(node, ch, ch.len() as int);
    lemma_dirs_order(ch, names(ch), ch.len() as int);
    lemma_order(names(ch), ch.len() as int);
    lemma_subdirs(node, ch.len() as int);
}

/// How many of the nodes at the first `n` positions are directories.
spec fn dirs_at(ch: Seq<Node>, ix: Seq<int>, n: int) -> int
    decreases n,
{
    if n <= 0 {
        0
    } else {
        dirs_at(ch, ix, n - 1) + if ch[ix[n - 1]].kind is Dir {
            1int
        } else {
            0
        }
    }
}

proof fn lemma_dirs_insert(ch: Seq<Node>, ix: Seq<int>, at: int, v: int, n: int)
    requires
        0 <= at <= ix.len(),
        0 <= n <= ix.len(),
    ensures
        n <= at ==> dirs_at(ch, ix.insert(at, v), n) == dirs_at(ch, ix, n),
        n >= at ==> dirs_at(ch, ix.insert(at, v), n + 1) == dirs_at(ch, ix, n) + dirs_at(
            ch,
            seq![v],
            1,
        ),
    decreases n,
{
    let new = ix.insert(at, v);
    reveal_with_fuel(dirs_at, 2);
    if n > 0 {
        lemma_dirs_insert(ch, ix, at, v, n - 1);
        if n <= at {
            assert(new[n - 1] == ix[n - 1]);
        } else {
            assert(new[n] == ix[n - 1]);
        }
    }
    if n == at {
        assert(new[n] == v);
    }
}

proof fn lemma_dirs_order(ch: Seq<Node>, labels: Seq<Seq<u8>>, n: int)
    requires
        0 <= n <= labels.len(),
    ensures
        dirs_at(ch, order(labels, n), n) == dirs_among(ch, n),
    decreases n,
{
    if n > 0 {
        lemma_dirs_order(ch, labels, n - 1);
        lemma_order(labels, n - 1);
        lemma_order(labels, n);
        let ix = order(labels, n - 1);
        let at = place(picked(labels, ix), n - 1, labels[n - 1]);
        lemma_place(picked(labels, ix), n - 1, labels[n - 1]);
        lemma_dirs_insert(ch, ix, at, n - 1, n - 1);
        reveal_with_fuel(dirs_at, 2);
        assert(seq![n - 1][0] == n - 1);
    }
}

proof fn lemma_dirs_among(node: Node, ch: Seq<Node>, n: int)
    requires
        node.kind is Dir,
        node.kind->Dir_0@ == ch,
        0 <= n <= ch.len(),
    ensures
        subdirs(node, n) == dirs_at(ch, kids_of(node), n),
    decreases n,
{
    if n > 0 {
        lemma_dirs_among(node, ch, n - 1);
    }
}

/// An inode counts the blocks that were taken for it, in sectors of 512 bytes.
pub proof fn sectors_are_counted(before: Seq<u8>, after: Seq<u8>, bs: int, n: int)
    requires
        bs == 1024 || bs == 2048 || bs == 4096,
        0 <= n,
        after.len() == before.len() + n * bs,
    ensures
        sectors_of(before, after, bs) * 512 == after.len() - before.len(),
{
    assert((n * bs) / bs == n) by (nonlinear_arith)
        requires
            bs > 0,
    ;
    assert(n * (bs / 512) * 512 == n * bs) by (nonlinear_arith)
        requires
            bs / 512 * 512 == bs,
    ;
}

} // verus!
