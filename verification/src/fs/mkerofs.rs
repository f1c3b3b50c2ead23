//! Writes an uncompressed EROFS image from a node tree, like Android's
//! `mkfs.erofs` without compression:
//!
//! ```text
//! block 0      superblock at 1024, shared xattrs, then the inodes
//! ...          inodes: 32-byte slots (nid = byte offset / 32); each inode
//!              is followed by its xattr header and, for FLAT_INLINE, the
//!              tail of its data. None of them crosses a block.
//! data blocks  whole blocks of files, directories and symlinks, in inode order
//! ```
//!
//! Every xattr (SELinux label, capabilities) is shared: stored once, and
//! referenced by id from each inode. Compact inodes are used unless uid,
//! gid, size or link count need an extended one. All times are the build
//! time. Directories hold "." and "..", sorted with the other names.
use vstd::prelude::*;
use vstd::utf8::encode_utf8;
use crate::bytes::{bytes16, bytes32, bytes64, ceil_div, lemma_round_up, patched, push16, push32,
    push64, push_bytes, push_zeros, put32, round_up, start16, start32, zero_seq, zeros};
use crate::error::Error;
use crate::fs::mkerofs::layout::{area_of, block_of, data_blocks, dir_content, dir_data, dir_entries,
    entries_view, extended, find_entry, inline_tail, inode_len, layout, lemma_dir_len,
    lemma_entries, lemma_mod_pos, lemma_next_block_mono, lemma_pool, lemma_record_mono,
    lemma_size_nonneg, lemma_record, list_entries, meta_end, next_block, nid_of, nlink, pool_of,
    pool_offset, pool_view, record_end, record_len, record_start, shared_id, start_at, size_of,
    tail_len, total_blocks, tree_fault, xattr_bytes, xattr_entry, xattr_len, Entry, Form, Layout,
    SB_END};
use crate::fs::mkext4::{Node, NodeKind, Stats};
use crate::fs::tree::{fault, items_of, lemma_items, lemma_kids, number, numbered, rooted, Item,
    Numbered};
use crate::fs::xattr::{attrs_of, attrs_view, security_xattrs, Attr, Xattr};

pub mod layout;
pub mod read_back;
pub mod read_dirs;
pub mod read_meta;

verus! {

broadcast use crate::bytes::group_byte_lens;

pub const EROFS_MAGIC: u32 = 0xE0F5_E1E2;

pub const COMPAT_SB_CHKSUM: u32 = 1;

#[derive(Debug, Clone)]
pub struct Params {
    pub block_size: u64,
    pub uuid: [u8; 16],
    pub volume_name: String,
    /// Build time: every inode's mtime.
    pub timestamp: u64,
    pub timestamp_nsec: u32,
}

/// Size in bytes of the image `write_image` would make, and the number of
/// inodes.
pub fn image_size(root: &Node, block_size: u64) -> (r: Result<(u64, u32), Error>)
    requires
        0 < block_size <= u32::MAX,
    ensures
        match r {
            Ok((bytes, inodes)) => {
                &&& tree_fault(*root, block_size as int) is None
                &&& bytes == total_blocks(items_of(*root), block_size as int) * block_size
                &&& inodes == items_of(*root).len() % 0x1_0000_0000
            },
            Err(e) => tree_fault(*root, block_size as int) == Some(e),
        },
{
    let items: Vec<Item> = match number(root, true) {
        Ok(items) => items,
        Err(e) => {
            return Err(e);
        },
    };
    proof {
        lemma_items(*root);
        assert(numbered(items@).len() == items@.len());
    }
    let l: Layout = match layout(&items, block_size) {
        Ok(l) => l,
        Err(e) => {
            return Err(e);
        },
    };
    let total: u64 = l.places.total;
    assert(total * block_size <= u32::MAX * u32::MAX) by (nonlinear_arith)
        requires
            total <= u32::MAX,
            block_size <= u32::MAX,
    ;
    Ok((total * block_size, (items.len() as u64 % 0x1_0000_0000) as u32))
}

/// File type and permission bits of an inode.
pub open spec fn mode_of(node: Node) -> int {
    (match node.kind {
        NodeKind::File { .. } => 0x8000int,
        NodeKind::Dir(_) => 0x4000int,
        NodeKind::Symlink(_) => 0xA000int,
    }) + (node.mode % 0x1000) as int
}

/// The data layout and form of the inode of item `i`.
pub open spec fn format_of(items: Seq<Numbered>, i: int, bs: int) -> int {
    (if inline_tail(items, i, bs) {
        4int
    } else {
        0int
    }) + (if extended(items, i, bs) {
        1int
    } else {
        0int
    })
}

/// A compact inode; its mtime is the build time.
pub open spec fn compact_bytes(
    head: Seq<u8>,
    nlink: int,
    size: int,
    block: int,
    number: int,
    uid: int,
    gid: int,
) -> Seq<u8> {
    head + bytes16(nlink) + bytes32(size) + bytes32(0) + bytes32(block) + bytes32(number) + bytes16(
        uid,
    ) + bytes16(gid) + bytes32(0)
}

/// An extended inode.
pub open spec fn extended_bytes(
    head: Seq<u8>,
    nlink: int,
    size: int,
    block: int,
    number: int,
    uid: int,
    gid: int,
    time: int,
    nsec: int,
) -> Seq<u8> {
    head + bytes16(0) + bytes64(size) + bytes32(block) + bytes32(number) + bytes32(uid) + bytes32(
        gid,
    ) + bytes64(time) + bytes32(nsec) + bytes32(nlink) + zero_seq(16)
}

/// The inode of item `i`.
#[verifier::opaque]
pub open spec fn inode_bytes(
    items: Seq<Numbered>,
    i: int,
    time: int,
    nsec: int,
    bs: int,
) -> Seq<u8> {
    let n = items[i].node;
    let attrs = attrs_of(n).len() as int;
    let icount = if attrs == 0 {
        0
    } else {
        attrs + 1
    };
    let head = bytes16(format_of(items, i, bs)) + bytes16(icount) + bytes16(mode_of(n));
    let size = size_of(items, i, bs);
    let block = block_of(items, i, bs);
    let number = (i + 1) % 0x1_0000_0000;
    if extended(items, i, bs) {
        extended_bytes(
            head,
            nlink(n),
            size,
            block,
            number,
            n.uid as int,
            n.gid as int,
            time,
            nsec,
        )
    } else {
        compact_bytes(head, nlink(n), size, block, number, n.uid as int, n.gid as int)
    }
}

/// The ids of the first `k` xattrs.
pub open spec fn id_bytes(pool: Seq<Seq<u8>>, attrs: Seq<Attr>, k: int, bs: int) -> Seq<u8>
    decreases k,
{
    if k <= 0 {
        Seq::empty()
    } else {
        id_bytes(pool, attrs, k - 1, bs) + bytes32(shared_id(pool, attrs[k - 1], bs))
    }
}

/// The xattr header behind an inode: how many xattrs are shared, and their
/// ids.
#[verifier::opaque]
pub open spec fn xattr_header(pool: Seq<Seq<u8>>, attrs: Seq<Attr>, bs: int) -> Seq<u8> {
    let n = attrs.len() as int;
    if n == 0 {
        Seq::empty()
    } else {
        zero_seq(4) + seq![n as u8] + zero_seq(7) + id_bytes(pool, attrs, n, bs)
    }
}

/// The nids of all items.
pub open spec fn nids_of(items: Seq<Numbered>, bs: int) -> Seq<int> {
    Seq::new(items.len(), |i: int| nid_of(items, i, bs))
}

/// The content of item `i`.
#[verifier::opaque]
pub open spec fn content(items: Seq<Numbered>, i: int, bs: int) -> Seq<u8> {
    match items[i].node.kind {
        NodeKind::File { data } => data@,
        NodeKind::Symlink(target) => target@,
        NodeKind::Dir(_) => dir_content(items, i, nids_of(items, bs), bs),
    }
}

/// Bytes of the content that go to data blocks.
pub open spec fn body_len(items: Seq<Numbered>, i: int, bs: int) -> int {
    size_of(items, i, bs) - tail_len(items, i, bs)
}

/// The inode of item `i` with all that follows it.
pub open spec fn record_bytes(
    items: Seq<Numbered>,
    i: int,
    time: int,
    nsec: int,
    bs: int,
) -> Seq<u8> {
    inode_bytes(items, i, time, nsec, bs) + xattr_header(
        pool_of(items, items.len() as int),
        attrs_of(items[i].node),
        bs,
    ) + content(items, i, bs).skip(body_len(items, i, bs))
}

/// The base-2 logarithm of a block size.
pub open spec fn block_bits(bs: int) -> int {
    if bs == 512 {
        9
    } else if bs == 1024 {
        10
    } else if bs == 2048 {
        11
    } else if bs == 4096 {
        12
    } else if bs == 8192 {
        13
    } else if bs == 16384 {
        14
    } else if bs == 32768 {
        15
    } else {
        16
    }
}

/// A power of two from 512 to 65536.
#[verifier::opaque]
pub open spec fn supported_block_size(bs: int) -> bool {
    bs == 512 || bs == 1024 || bs == 2048 || bs == 4096 || bs == 8192 || bs == 16384 || bs == 32768
        || bs == 65536
}

/// The superblock behind its checksum.
pub open spec fn sb_rest(items: Seq<Numbered>, p: Params) -> Seq<u8> {
    let bs = p.block_size as int;
    let name = encode_utf8(p.volume_name@);
    bytes32(COMPAT_SB_CHKSUM as int) + seq![block_bits(bs) as u8, 0u8] + bytes16(
        nid_of(items, 0, bs),
    ) + bytes64(items.len() as int) + bytes64(p.timestamp as int) + bytes32(p.timestamp_nsec as int)
        + bytes32(total_blocks(items, bs)) + zero_seq(8) + p.uuid@ + name + zero_seq(
        16 - name.len(),
    ) + zero_seq(48)
}

/// The superblock.
pub open spec fn sb_bytes(items: Seq<Numbered>, p: Params, crc: int) -> Seq<u8> {
    bytes32(EROFS_MAGIC as int) + bytes32(crc) + sb_rest(items, p)
}

/// The metadata up to the end of record `i`.
pub open spec fn meta_upto(items: Seq<Numbered>, i: int, p: Params, crc: int) -> Seq<u8>
    decreases i,
{
    let bs = p.block_size as int;
    let time = p.timestamp as int;
    let nsec = p.timestamp_nsec as int;
    if i <= 0 {
        zero_seq(1024) + sb_bytes(items, p, crc) + area_of(items, bs) + zero_seq(
            record_end(items, 0, bs) - (SB_END + area_of(items, bs).len()),
        )
    } else {
        meta_upto(items, i - 1, p, crc) + zero_seq(
            record_start(items, i - 1, bs) - record_end(items, i - 1, bs),
        ) + record_bytes(items, i - 1, time, nsec, bs) + zero_seq(
            record_end(items, i, bs) - (record_start(items, i - 1, bs) + record_len(
                items,
                i - 1,
                bs,
            )),
        )
    }
}

/// The blocks before the data blocks.
pub open spec fn meta_bytes(items: Seq<Numbered>, p: Params, crc: int) -> Seq<u8> {
    let bs = p.block_size as int;
    meta_upto(items, items.len() as int, p, crc) + zero_seq(
        round_up(meta_end(items, bs), bs) - meta_end(items, bs),
    )
}

/// The data blocks of the first `i` items, each padded with zeros.
pub open spec fn data_upto(items: Seq<Numbered>, i: int, bs: int) -> Seq<u8>
    decreases i,
{
    if i <= 0 {
        Seq::empty()
    } else {
        let n = body_len(items, i - 1, bs);
        data_upto(items, i - 1, bs) + content(items, i - 1, bs).take(n) + zero_seq(
            round_up(n, bs) - n,
        )
    }
}

/// One step of crc32c (Castagnoli).
pub open spec fn crc_step(crc: u32) -> u32 {
    (crc >> 1) ^ (if crc & 1 != 0 {
        0x82F6_3B78u32
    } else {
        0u32
    })
}

/// `n` steps of crc32c.
pub open spec fn crc_steps(crc: u32, n: int) -> u32
    decreases n,
{
    if n <= 0 {
        crc
    } else {
        crc_step(crc_steps(crc, n - 1))
    }
}

/// crc32c of the first `n` bytes, without the final inversion.
pub open spec fn crc_of(crc: u32, data: Seq<u8>, n: int) -> u32
    decreases n,
{
    if n <= 0 {
        crc
    } else {
        crc_steps(crc_of(crc, data, n - 1) ^ data[n - 1] as u32, 8)
    }
}

/// The superblock checksum: the rest of block 0, with a zero in its place.
pub open spec fn checksum(items: Seq<Numbered>, p: Params) -> u32 {
    let d = meta_bytes(items, p, 0).subrange(1024, p.block_size as int);
    crc_of(0xFFFF_FFFF, d, d.len() as int)
}

/// The image of the tree at `root`.
pub open spec fn image_of(root: Node, p: Params) -> Seq<u8> {
    let items = items_of(root);
    meta_bytes(items, p, checksum(items, p) as int) + data_upto(
        items,
        items.len() as int,
        p.block_size as int,
    )
}

/// What keeps `write_image` from writing an image.
pub open spec fn write_fault(root: Node, p: Params) -> Option<Error> {
    if !supported_block_size(p.block_size as int) {
        Some(Error::UnsupportedBlockSize)
    } else if encode_utf8(p.volume_name@).len() > 16 {
        Some(Error::VolumeNameTooLong)
    } else {
        tree_fault(root, p.block_size as int)
    }
}

/// crc32c (Castagnoli) without the final inversion, as the kernel uses it
/// for the superblock checksum.
pub fn crc32c(crc: u32, data: &[u8]) -> (r: u32)
    ensures
        r == crc_of(crc, data@, data@.len() as int),
{
    let mut c: u32 = crc;
    let mut i: usize = 0;
    while i < data.len()
        invariant
            i <= data.len(),
            c == crc_of(crc, data@, i as int),
        decreases data.len() - i,
    {
        let ghost start = c ^ data@[i as int] as u32;
        c = c ^ data[i] as u32;
        let mut k: usize = 0;
        while k < 8
            invariant
                k <= 8,
                c == crc_steps(start, k as int),
            decreases 8 - k,
        {
            c = (c >> 1) ^ (if c & 1 != 0 {
                0x82F6_3B78u32
            } else {
                0u32
            });
            k += 1;
        }
        i += 1;
    }
    c
}

/// What the write pass needs to know of the tree.
#[verifier::opaque]
pub open spec fn ready(root: Node, bs: int) -> bool {
    &&& root.kind is Dir
    &&& supported_block_size(bs)
    &&& bs > 512
    &&& tree_fault(root, bs) is None
}

fn push_compact(
    b: &mut Vec<u8>,
    nlink: u16,
    size: u32,
    block: u32,
    number: u32,
    uid: u16,
    gid: u16,
)
    ensures
        final(b)@ == compact_bytes(
            old(b)@,
            nlink as int,
            size as int,
            block as int,
            number as int,
            uid as int,
            gid as int,
        ),
{
    push16(b, nlink);
    push32(b, size);
    // i_mtime: relative to the build time
    push32(b, 0);
    push32(b, block);
    push32(b, number);
    push16(b, uid);
    push16(b, gid);
    push32(b, 0);
}

fn push_extended(
    b: &mut Vec<u8>,
    nlink: u32,
    size: u64,
    block: u32,
    number: u32,
    uid: u32,
    gid: u32,
    time: u64,
    nsec: u32,
)
    ensures
        final(b)@ == extended_bytes(
            old(b)@,
            nlink as int,
            size as int,
            block as int,
            number as int,
            uid as int,
            gid as int,
            time as int,
            nsec as int,
        ),
{
    push16(b, 0);
    push64(b, size);
    push32(b, block);
    push32(b, number);
    push32(b, uid);
    push32(b, gid);
    push64(b, time);
    push32(b, nsec);
    push32(b, nlink);
    push_zeros(b, 16);
}

/// Appends the inode of item `i`.
fn push_inode<'a>(
    out: &mut Vec<u8>,
    items: &Vec<Item<'a>>,
    l: &Layout,
    i: usize,
    p: &Params,
)
    requires
        i < items.len(),
        0 < p.block_size <= 65536,
        l.describes(numbered(items@), p.block_size as int),
    ensures
        final(out)@ == old(out)@ + inode_bytes(
            numbered(items@),
            i as int,
            p.timestamp as int,
            p.timestamp_nsec as int,
            p.block_size as int,
        ),
{
    proof {
        reveal(inode_bytes);
    }
    let ghost all = numbered(items@);
    let ghost bs = p.block_size as int;
    let n: &Node = items[i].node;
    let form: &Form = &l.forms[i];
    proof {
        assert(all[i as int] == items@[i as int].numbered());
        assert(form.describes(all, i as int, bs));
        assert(l.places.blocks@[i as int] == block_of(all, i as int, bs));
        lemma_next_block_mono(all, i as int, all.len() as int, bs);
        lemma_size_fits(all, i as int, bs);
    }
    let format: u16 = (if form.inline_tail {
        4u16
    } else {
        0
    }) + (if form.extended {
        1u16
    } else {
        0
    });
    let icount: u16 = if form.xattr_len == 0 {
        0
    } else {
        ((form.xattr_len - 12) / 4 + 1) as u16
    };
    assert(icount == if attrs_of(*n).len() == 0 {
        0
    } else {
        attrs_of(*n).len() + 1
    });
    assert(format == format_of(all, i as int, bs));
    let kind: u16 = match &n.kind {
        NodeKind::File { .. } => 0x8000,
        NodeKind::Dir(_) => 0x4000,
        NodeKind::Symlink(_) => 0xA000,
    };
    let block: u32 = l.places.blocks[i] as u32;
    let number: u32 = ((i as u64 % 0x1_0000_0000 + 1) % 0x1_0000_0000) as u32;
    assert(number == (i + 1) % 0x1_0000_0000);
    assert(form.size == size_of(all, i as int, bs));
    let mut b: Vec<u8> = start16(format);
    push16(&mut b, icount);
    push16(&mut b, kind + (n.mode % 0x1000) as u16);
    if form.extended {
        push_extended(
            &mut b,
            form.nlink,
            form.size as u64,
            block,
            number,
            n.uid,
            n.gid,
            p.timestamp,
            p.timestamp_nsec,
        );
    } else {
        push_compact(
            &mut b,
            form.nlink as u16,
            form.size as u32,
            block,
            number,
            n.uid as u16,
            n.gid as u16,
        );
    }
    assert(b@ == inode_bytes(
        all,
        i as int,
        p.timestamp as int,
        p.timestamp_nsec as int,
        bs,
    ));
    push_bytes(out, &b);
}

/// In an image whose blocks can be addressed, sizes fit in 64 bits.
pub proof fn lemma_size_fits(items: Seq<Numbered>, i: int, bs: int)
    requires
        0 <= i < items.len(),
        0 < bs <= 65536,
        total_blocks(items, bs) <= u32::MAX,
    ensures
        0 <= size_of(items, i, bs) <= u64::MAX,
        0 <= data_blocks(items, i, bs),
{
    reveal(next_block);
    lemma_next_block_mono(items, i + 1, items.len() as int, bs);
    lemma_next_block_mono(items, 0, i, bs);
    lemma_size_nonneg(items, i, bs);
    lemma_record(items, items.len() as int, bs);
    lemma_round_up(meta_end(items, bs), bs);
    let size = size_of(items, i, bs);
    lemma_round_up(size, bs);
    let n = data_blocks(items, i, bs);
    lemma_mod_pos(size, bs);
    assert(size == bs * (size / bs) + size % bs) by (nonlinear_arith)
        requires
            0 < bs,
    ;
    assert((n + 1) * bs <= (u32::MAX + 1) * 65536) by (nonlinear_arith)
        requires
            0 <= n <= u32::MAX,
            0 < bs <= 65536,
    ;
    assert((n + 1) * bs == n * bs + bs && bs * n == n * bs) by (nonlinear_arith);
}

/// Appends the xattr header of a node, whose xattrs are in the pool.
fn push_xattr_header(out: &mut Vec<u8>, node: &Node, l: &Layout, bs: u64)
    requires
        l.offsets.len() == l.pool.len(),
        forall|k: int|
            0 <= k < l.offsets.len() ==> #[trigger] l.offsets@[k] == pool_offset(
                pool_view(l.pool@),
                k,
                bs as int,
            ) && l.offsets@[k] < 0x20_0000,
        forall|k: int|
            0 <= k < attrs_of(*node).len() ==> pool_view(l.pool@).contains(
                #[trigger] xattr_bytes(attrs_of(*node)[k]),
            ),
    ensures
        final(out)@ == old(out)@ + xattr_header(pool_view(l.pool@), attrs_of(*node), bs as int),
{
    proof {
        reveal(xattr_header);
    }
    let attrs: Vec<Xattr> = security_xattrs(node);
    let ghost av = attrs_of(*node);
    let ghost pool = pool_view(l.pool@);
    assert(attrs_view(attrs@).len() == attrs@.len());
    if attrs.len() == 0 {
        assert(out@ =~= old(out)@ + xattr_header(pool, av, bs as int));
        return;
    }
    let mut b: Vec<u8> = zeros(4);
    b.push(attrs.len() as u8);
    push_zeros(&mut b, 7);
    let ghost head = zero_seq(4) + seq![av.len() as u8] + zero_seq(7);
    assert(b@ =~= head);
    let mut k: usize = 0;
    while k < attrs.len()
        invariant
            k <= attrs.len(),
            av == attrs_of(*node),
            av == attrs_view(attrs@),
            pool == pool_view(l.pool@),
            l.offsets.len() == l.pool.len(),
            forall|k: int|
                0 <= k < l.offsets.len() ==> #[trigger] l.offsets@[k] == pool_offset(
                    pool_view(l.pool@),
                    k,
                    bs as int,
                ) && l.offsets@[k] < 0x20_0000,
            forall|k: int|
                0 <= k < av.len() ==> pool.contains(#[trigger] xattr_bytes(av[k])),
            forall|k: int| 0 <= k < av.len() ==> (#[trigger] av[k]).name.len() <= 255,
            b@ =~= head + id_bytes(pool, av, k as int, bs as int),
        decreases attrs.len() - k,
    {
        assert(av[k as int] == attrs@[k as int]@);
        let e: Vec<u8> = xattr_entry(&attrs[k]);
        assert(pool.contains(xattr_bytes(av[k as int])));
        let at: usize = find_entry(&l.pool, &e);
        let id: u32 = (l.offsets[at] / 4) as u32;
        push32(&mut b, id);
        k += 1;
    }
    push_bytes(out, &b);
}

/// The content of item `i` is as long as the layout says.
pub proof fn lemma_content(root: Node, i: int, bs: int)
    requires
        ready(root, bs),
        0 <= i < items_of(root).len(),
    ensures
        content(items_of(root), i, bs).len() == size_of(items_of(root), i, bs),
        0 <= tail_len(items_of(root), i, bs) <= size_of(items_of(root), i, bs),
        0 <= body_len(items_of(root), i, bs) <= size_of(items_of(root), i, bs),
{
    reveal(content);
    reveal(size_of);
    let items = items_of(root);
    lemma_ready(root, bs);
    lemma_entries(root, i, bs);
    if items[i].node.kind is Dir {
        lemma_dir_len(dir_entries(items, i), nids_of(items, bs), bs);
    }
    lemma_size_nonneg(items, i, bs);
    let size = size_of(items, i, bs);
    lemma_mod_pos(size, bs);
    assert(size % bs <= size) by (nonlinear_arith)
        requires
            0 <= size,
            0 < bs,
    ;
}

pub proof fn lemma_id_bytes_len(pool: Seq<Seq<u8>>, attrs: Seq<Attr>, k: int, bs: int)
    requires
        0 <= k,
    ensures
        id_bytes(pool, attrs, k, bs).len() == 4 * k,
    decreases k,
{
    if k > 0 {
        lemma_id_bytes_len(pool, attrs, k - 1, bs);
    }
}

/// The record of item `i` is as long as the layout says.
pub proof fn lemma_record_bytes(root: Node, i: int, time: int, nsec: int, bs: int)
    requires
        ready(root, bs),
        0 <= i < items_of(root).len(),
    ensures
        inode_bytes(items_of(root), i, time, nsec, bs).len() == inode_len(items_of(root), i, bs),
        xattr_header(
            pool_of(items_of(root), items_of(root).len() as int),
            attrs_of(items_of(root)[i].node),
            bs,
        ).len() == xattr_len(items_of(root)[i].node),
        record_bytes(items_of(root), i, time, nsec, bs).len() == record_len(items_of(root), i, bs),
{
    reveal(inode_bytes);
    reveal(xattr_header);
    let items = items_of(root);
    let attrs = attrs_of(items[i].node);
    lemma_ready(root, bs);
    lemma_content(root, i, bs);
    lemma_id_bytes_len(pool_of(items, items.len() as int), attrs, attrs.len() as int, bs);
}

/// The metadata ends where the layout says.
pub proof fn lemma_meta_len(root: Node, i: int, p: Params, crc: int)
    requires
        ready(root, p.block_size as int),
        encode_utf8(p.volume_name@).len() <= 16,
        0 <= i <= items_of(root).len(),
    ensures
        meta_upto(items_of(root), i, p, crc).len() == record_end(
            items_of(root),
            i,
            p.block_size as int,
        ),
    decreases i,
{
    let items = items_of(root);
    let bs = p.block_size as int;
    lemma_ready(root, bs);
    lemma_record(items, i, bs);
    if i > 0 {
        lemma_meta_len(root, i - 1, p, crc);
        lemma_record(items, i - 1, bs);
        lemma_record_bytes(root, i - 1, p.timestamp as int, p.timestamp_nsec as int, bs);
    } else {
        reveal(record_end);
        lemma_round_up(SB_END + area_of(items, bs).len(), 32);
    }
}

/// Writes a body to the data blocks and a tail behind its inode.
fn split_content(data: &mut Vec<u8>, meta: &mut Vec<u8>, content: &[u8], body: usize)
    requires
        body <= content@.len(),
    ensures
        final(data)@ == old(data)@ + content@.take(body as int),
        final(meta)@ == old(meta)@ + content@.skip(body as int),
{
    let n: usize = content.len();
    push_bytes(data, vstd::slice::slice_subrange(content, 0, body));
    push_bytes(meta, vstd::slice::slice_subrange(content, body, n));
    assert(content@.subrange(0, body as int) =~= content@.take(body as int));
    assert(content@.subrange(body as int, n as int) =~= content@.skip(body as int));
}

/// A record starts at a multiple of 32 bytes, at its nid.
pub proof fn lemma_nid(items: Seq<Numbered>, i: int, bs: int)
    requires
        0 <= i,
        supported_block_size(bs),
    ensures
        nid_of(items, i, bs) * 32 == record_start(items, i, bs),
        0 <= nid_of(items, i, bs),
{
    reveal(start_at);
    lemma_block_size(bs);
    lemma_record(items, i, bs);
    let pos = record_end(items, i, bs);
    lemma_round_up(pos, bs);
    let up = round_up(pos, bs);
    let q = ceil_div(pos, bs);
    let w = bs / 32;
    assert(q * (w * 32) == (q * w) * 32) by (nonlinear_arith);
    assert(up % 32 == 0);
}

pub proof fn lemma_ready(root: Node, bs: int)
    requires
        ready(root, bs),
    ensures
        supported_block_size(bs),
        1024 <= bs <= 65536,
        fault(root, true) is None,
{
    reveal(ready);
    lemma_block_size(bs);
}

/// Supported block sizes are multiples of 32, from 512 to 65536.
pub proof fn lemma_block_size(bs: int)
    requires
        supported_block_size(bs),
    ensures
        512 <= bs <= 65536,
        bs == 512 || bs >= 1024,
        bs == (bs / 32) * 32,
        bs % 32 == 0,
{
    reveal(supported_block_size);
}

/// Writes the content of item `i`: the body to the data blocks, the tail
/// behind the inode.
fn write_content<'a>(
    meta: &mut Vec<u8>,
    data: &mut Vec<u8>,
    root: &Node,
    items: &Vec<Item<'a>>,
    l: &Layout,
    i: usize,
    bs: u64,
)
    requires
        ready(*root, bs as int),
        numbered(items@) == items_of(*root),
        l.describes(items_of(*root), bs as int),
        i < items.len(),
    ensures
        final(meta)@ == old(meta)@ + content(items_of(*root), i as int, bs as int).skip(
            body_len(items_of(*root), i as int, bs as int),
        ),
        final(data)@ == old(data)@ + content(items_of(*root), i as int, bs as int).take(
            body_len(items_of(*root), i as int, bs as int),
        ),
{
    proof {
        reveal(content);
    }
    let ghost all = items_of(*root);
    let form: &Form = &l.forms[i];
    let node: &Node = items[i].node;
    proof {
        lemma_ready(*root, bs as int);
        assert(numbered(items@).len() == items@.len());
        assert(all[i as int] == items@[i as int].numbered());
        assert(form.describes(all, i as int, bs as int));
        lemma_content(*root, i as int, bs as int);
    }
    let tail: usize = form.tail_len(bs) as usize;
    assert(tail == tail_len(all, i as int, bs as int));
    match &node.kind {
        NodeKind::File { data: content } => {
            let n: usize = content.len();
            split_content(data, meta, content, n - tail);
        },
        NodeKind::Symlink(target) => {
            let n: usize = target.len();
            split_content(data, meta, target, n - tail);
        },
        NodeKind::Dir(ch) => {
            proof {
                lemma_kids(*node);
                lemma_items(*root);
                assert(rooted(all, i as int));
                lemma_entries(*root, i as int, bs as int);
            }
            let entries: Vec<Entry> = list_entries(items, i, ch.len());
            assert forall|k: int| 0 <= k < entries.len() implies (#[trigger] entries@[k]).target
                < l.places.nids.len() by {
                assert(entries_view(entries@)[k] == entries@[k]@);
            }
            let content: Vec<u8> = dir_data(&entries, &form.counts, &l.places.nids, bs as usize);
            assert(l.places.nids@.map_values(|n: u64| n as int) =~= nids_of(all, bs as int));
            assert(content@ == dir_content(all, i as int, nids_of(all, bs as int), bs as int));
            let n: usize = content.len();
            split_content(data, meta, &content, n - tail);
        },
    }
}

/// The numbers that the record of item `i` is placed by.
proof fn lemma_item_numbers(root: Node, i: int, p: Params)
    requires
        ready(root, p.block_size as int),
        encode_utf8(p.volume_name@).len() <= 16,
        0 <= i < items_of(root).len(),
    ensures
        ({
            let items = items_of(root);
            let bs = p.block_size as int;
            let start = record_start(items, i, bs);
            let end = record_end(items, i, bs);
            let next = record_end(items, i + 1, bs);
            &&& meta_upto(items, i, p, 0).len() == end
            &&& nid_of(items, i, bs) * 32 == start
            &&& end <= start < end + bs
            &&& start + record_len(items, i, bs) <= next < start + record_len(items, i, bs) + 32
            &&& next % 32 == 0
            &&& next <= meta_end(items, bs)
            &&& record_bytes(
                items,
                i,
                p.timestamp as int,
                p.timestamp_nsec as int,
                bs,
            ).len() == record_len(items, i, bs)
            &&& 1024 <= bs <= 65536
        }),
{
    let items = items_of(root);
    let bs = p.block_size as int;
    lemma_ready(root, bs);
    lemma_meta_len(root, i, p, 0);
    lemma_record(items, i, bs);
    lemma_record(items, i + 1, bs);
    lemma_nid(items, i, bs);
    lemma_record_bytes(root, i, p.timestamp as int, p.timestamp_nsec as int, bs);
    lemma_record_mono(items, i + 1, items.len() as int, bs);
}

/// Appends the inode of item `i` with its xattr header, at its place.
fn write_head<'a>(
    meta: &mut Vec<u8>,
    root: &Node,
    items: &Vec<Item<'a>>,
    l: &Layout,
    i: usize,
    p: &Params,
)
    requires
        ready(*root, p.block_size as int),
        numbered(items@) == items_of(*root),
        l.describes(items_of(*root), p.block_size as int),
        encode_utf8(p.volume_name@).len() <= 16,
        i < items.len(),
        old(meta)@ == meta_upto(items_of(*root), i as int, *p, 0),
    ensures
        ({
            let all = items_of(*root);
            let bs = p.block_size as int;
            final(meta)@ == old(meta)@ + zero_seq(
                record_start(all, i as int, bs) - record_end(all, i as int, bs),
            ) + inode_bytes(all, i as int, p.timestamp as int, p.timestamp_nsec as int, bs)
                + xattr_header(
                pool_of(all, all.len() as int),
                attrs_of(all[i as int].node),
                bs,
            )
        }),
{
    let ghost all = items_of(*root);
    let ghost bs = p.block_size as int;
    proof {
        assert(numbered(items@).len() == items@.len());
        assert(all[i as int] == items@[i as int].numbered());
        assert(l.places.nids@[i as int] == nid_of(all, i as int, bs));
        lemma_item_numbers(*root, i as int, *p);
        lemma_pool(all, all.len() as int, i as int);
    }
    let at: u64 = l.places.nids[i] * 32;
    let len: usize = meta.len();
    push_zeros(meta, (at - len as u64) as usize);
    push_inode(meta, items, l, i, p);
    push_xattr_header(meta, items[i].node, l, p.block_size);
}

/// What fills up the last data block of item `i`.
fn pad_data(data: &mut Vec<u8>, form: &Form, bs: u64, Ghost(items): Ghost<Seq<Numbered>>, Ghost(
    i,
): Ghost<int>)
    requires
        0 < bs <= 65536,
        0 <= i < items.len(),
        form.describes(items, i, bs as int),
    ensures
        final(data)@ == old(data)@ + zero_seq(
            round_up(body_len(items, i, bs as int), bs as int) - body_len(items, i, bs as int),
        ),
{
    proof {
        lemma_pad(items, i, bs as int);
        lemma_mod_pos(form.size as int, bs as int);
    }
    let rest: u64 = (form.size % bs as u128) as u64 - form.tail_len(bs);
    if rest > 0 {
        push_zeros(data, (bs - rest) as usize);
    } else {
        push_zeros(data, 0);
    }
}

/// Appends the record of item `i` and its data blocks.
fn write_item<'a>(
    meta: &mut Vec<u8>,
    data: &mut Vec<u8>,
    root: &Node,
    items: &Vec<Item<'a>>,
    l: &Layout,
    i: usize,
    p: &Params,
)
    requires
        ready(*root, p.block_size as int),
        numbered(items@) == items_of(*root),
        l.describes(items_of(*root), p.block_size as int),
        encode_utf8(p.volume_name@).len() <= 16,
        i < items.len(),
        old(meta)@ == meta_upto(items_of(*root), i as int, *p, 0),
        old(data)@ == data_upto(items_of(*root), i as int, p.block_size as int),
    ensures
        final(meta)@ == meta_upto(items_of(*root), i + 1, *p, 0),
        final(data)@ == data_upto(items_of(*root), i + 1, p.block_size as int),
{
    let ghost all = items_of(*root);
    let ghost bs = p.block_size as int;
    let ghost end = record_end(all, i as int, bs);
    let ghost start = record_start(all, i as int, bs);
    proof {
        assert(numbered(items@).len() == items@.len());
        assert(all[i as int] == items@[i as int].numbered());
        assert(l.forms@[i as int].describes(all, i as int, bs));
        lemma_item_numbers(*root, i as int, *p);
        lemma_regroup(
            old(meta)@ + zero_seq(start - end),
            inode_bytes(all, i as int, p.timestamp as int, p.timestamp_nsec as int, bs),
            xattr_header(pool_of(all, all.len() as int), attrs_of(all[i as int].node), bs),
            content(all, i as int, bs).skip(body_len(all, i as int, bs)),
        );
    }
    write_head(meta, root, items, l, i, p);
    write_content(meta, data, root, items, l, i, p.block_size);
    pad_data(data, &l.forms[i], p.block_size, Ghost(all), Ghost(i as int));
    let ghost record = record_bytes(
        all,
        i as int,
        p.timestamp as int,
        p.timestamp_nsec as int,
        bs,
    );
    assert(meta@ == old(meta)@ + zero_seq(start - end) + record);
    let len: usize = meta.len();
    assert(len == start + record_len(all, i as int, bs));
    proof {
        lemma_pad32(len as int, record_end(all, i + 1, bs));
    }
    push_zeros(meta, (32 - len % 32) % 32);
}

proof fn lemma_pad32(x: int, next: int)
    requires
        0 <= x <= next < x + 32,
        next % 32 == 0,
    ensures
        (32 - x % 32) % 32 == next - x,
{
}

proof fn lemma_regroup(s: Seq<u8>, a: Seq<u8>, b: Seq<u8>, c: Seq<u8>)
    ensures
        s + a + b + c == s + (a + b + c),
{
    assert(s + a + b + c =~= s + (a + b + c));
}

/// What is missing to a whole block in the last data block of an item.
proof fn lemma_pad(items: Seq<Numbered>, i: int, bs: int)
    requires
        0 < bs,
        0 <= i < items.len(),
    ensures
        ({
            let rest = size_of(items, i, bs) % bs - tail_len(items, i, bs);
            let body = body_len(items, i, bs);
            &&& 0 <= rest < bs
            &&& (rest > 0 ==> round_up(body, bs) - body == bs - rest)
            &&& (rest == 0 ==> round_up(body, bs) == body)
        }),
{
    let size = size_of(items, i, bs);
    let body = body_len(items, i, bs);
    let rest = size % bs - tail_len(items, i, bs);
    lemma_mod_pos(size, bs);
    lemma_round_up(body, bs);
    let q = size / bs;
    assert(size == q * bs + size % bs) by (nonlinear_arith)
        requires
            0 < bs,
            q == size / bs,
    ;
    assert(body == q * bs + rest);
    if rest == 0 {
        assert(body % bs == 0) by (nonlinear_arith)
            requires
                body == q * bs,
                0 < bs,
        ;
    } else {
        assert((body + bs - 1) / bs == q + 1) by (nonlinear_arith)
            requires
                body == q * bs + rest,
                0 < rest < bs,
        ;
        assert((q + 1) * bs == q * bs + bs) by (nonlinear_arith);
    }
}

/// Appends the superblock, with a zero for its checksum.
fn push_superblock(out: &mut Vec<u8>, items: &Vec<Item>, l: &Layout, p: &Params)
    requires
        items.len() > 0,
        supported_block_size(p.block_size as int),
        nid_of(numbered(items@), 0, p.block_size as int) <= 0xFFFF,
        l.describes(numbered(items@), p.block_size as int),
        encode_utf8(p.volume_name@).len() <= 16,
    ensures
        final(out)@ == old(out)@ + sb_bytes(numbered(items@), *p, 0),
{
    let ghost all = numbered(items@);
    let bs: u64 = p.block_size;
    let bits: u8 = if bs == 512 {
        9
    } else if bs == 1024 {
        10
    } else if bs == 2048 {
        11
    } else if bs == 4096 {
        12
    } else if bs == 8192 {
        13
    } else if bs == 16384 {
        14
    } else if bs == 32768 {
        15
    } else {
        16
    };
    proof {
        reveal(supported_block_size);
        assert(l.places.nids@[0] == nid_of(all, 0, bs as int));
        lemma_nid(all, 0, bs as int);
    }
    let mut rest: Vec<u8> = start32(COMPAT_SB_CHKSUM);
    let pair: Vec<u8> = vec![bits, 0u8];
    assert(pair@ =~= seq![block_bits(bs as int) as u8, 0u8]);
    push_bytes(&mut rest, &pair);
    push16(&mut rest, l.places.nids[0] as u16);
    push64(&mut rest, items.len() as u64);
    push64(&mut rest, p.timestamp);
    push32(&mut rest, p.timestamp_nsec);
    push32(&mut rest, l.places.total as u32);
    // meta_blkaddr and xattr_blkaddr are 0
    push_zeros(&mut rest, 8);
    push_bytes(&mut rest, &p.uuid);
    let name: &[u8] = p.volume_name.as_str().as_bytes();
    let n: usize = name.len();
    push_bytes(&mut rest, name);
    push_zeros(&mut rest, 16 - n);
    push_zeros(&mut rest, 48);
    assert(rest@ == sb_rest(all, *p));
    let mut b: Vec<u8> = start32(EROFS_MAGIC);
    push32(&mut b, 0);
    push_bytes(&mut b, &rest);
    push_bytes(out, &b);
}

/// The checksum changes nothing in the metadata but its own bytes.
pub proof fn lemma_checksum_place(root: Node, i: int, p: Params, crc: int)
    requires
        ready(root, p.block_size as int),
        encode_utf8(p.volume_name@).len() <= 16,
        0 <= i <= items_of(root).len(),
    ensures
        meta_upto(items_of(root), i, p, crc) == patched(
            meta_upto(items_of(root), i, p, 0),
            1028,
            bytes32(crc),
        ),
        meta_upto(items_of(root), i, p, 0).len() >= SB_END,
    decreases i,
{
    let items = items_of(root);
    let bs = p.block_size as int;
    lemma_ready(root, bs);
    lemma_meta_len(root, i, p, 0);
    lemma_meta_len(root, i, p, crc);
    lemma_record(items, i, bs);
    if i > 0 {
        lemma_checksum_place(root, i - 1, p, crc);
        assert(meta_upto(items, i, p, crc) =~= patched(
            meta_upto(items, i, p, 0),
            1028,
            bytes32(crc),
        ));
    } else {
        let rest = sb_rest(items, p);
        let magic = bytes32(EROFS_MAGIC as int);
        assert(sb_bytes(items, p, crc) =~= patched(sb_bytes(items, p, 0), 4, bytes32(crc)));
        assert(meta_upto(items, 0, p, crc) =~= patched(
            meta_upto(items, 0, p, 0),
            1028,
            bytes32(crc),
        ));
    }
}

/// The metadata before the first inode.
fn start_meta(root: &Node, items: &Vec<Item>, l: &Layout, p: &Params) -> (r: Vec<u8>)
    requires
        ready(*root, p.block_size as int),
        items.len() > 0,
        numbered(items@) == items_of(*root),
        l.describes(items_of(*root), p.block_size as int),
        encode_utf8(p.volume_name@).len() <= 16,
    ensures
        r@ == meta_upto(items_of(*root), 0, *p, 0),
{
    let ghost all = items_of(*root);
    let ghost bs = p.block_size as int;
    proof {
        lemma_ready(*root, bs);
        lemma_root_nid(*root, bs);
        lemma_record(all, 0, bs);
        reveal(record_end);
        lemma_round_up(SB_END + area_of(all, bs).len(), 32);
    }
    let mut meta: Vec<u8> = zeros(1024);
    push_superblock(&mut meta, items, l, p);
    push_bytes(&mut meta, &l.area);
    let len: usize = l.area.len();
    proof {
        lemma_pad32(SB_END + len, record_end(all, 0, bs));
        assert((SB_END + len) % 32 == len % 32);
    }
    push_zeros(&mut meta, (32 - len % 32) % 32);
    meta
}

proof fn lemma_root_nid(root: Node, bs: int)
    requires
        ready(root, bs),
    ensures
        nid_of(items_of(root), 0, bs) <= 0xFFFF,
        total_blocks(items_of(root), bs) <= u32::MAX,
{
    reveal(ready);
}

/// Puts the image together.
fn assemble(root: &Node, items: &Vec<Item>, l: &Layout, p: &Params) -> (r: Vec<u8>)
    requires
        ready(*root, p.block_size as int),
        items.len() > 0,
        numbered(items@) == items_of(*root),
        l.describes(items_of(*root), p.block_size as int),
        encode_utf8(p.volume_name@).len() <= 16,
    ensures
        r@ == image_of(*root, *p),
{
    let ghost all = items_of(*root);
    let bs: u64 = p.block_size;
    let mut meta: Vec<u8> = start_meta(root, items, l, p);
    let mut data: Vec<u8> = Vec::new();
    assert(data@ =~= data_upto(all, 0, p.block_size as int));
    let mut i: usize = 0;
    while i < items.len()
        invariant
            i <= items.len(),
            all == items_of(*root),
            numbered(items@) == all,
            ready(*root, p.block_size as int),
            l.describes(all, p.block_size as int),
            encode_utf8(p.volume_name@).len() <= 16,
            meta@ == meta_upto(all, i as int, *p, 0),
            data@ == data_upto(all, i as int, p.block_size as int),
        decreases items.len() - i,
    {
        write_item(&mut meta, &mut data, root, items, l, i, p);
        i += 1;
    }
    proof {
        assert(numbered(items@).len() == items@.len());
        lemma_ready(*root, bs as int);
        lemma_meta_len(*root, all.len() as int, *p, 0);
        lemma_record(all, all.len() as int, bs as int);
        lemma_pad_blocks(meta_end(all, bs as int), bs as int);
    }
    let rest: usize = meta.len() % bs as usize;
    if rest > 0 {
        push_zeros(&mut meta, bs as usize - rest);
    } else {
        push_zeros(&mut meta, 0);
    }
    assert(meta@ == meta_bytes(all, *p, 0));
    let crc: u32 = crc32c(0xFFFF_FFFF, vstd::slice::slice_subrange(&meta, 1024, bs as usize));
    assert(crc == checksum(all, *p));
    put32(&mut meta, 1028, crc);
    proof {
        lemma_checksum_place(*root, all.len() as int, *p, crc as int);
        lemma_patch_prefix(
            meta_upto(all, all.len() as int, *p, 0),
            zero_seq(round_up(meta_end(all, bs as int), bs as int) - meta_end(all, bs as int)),
            1028,
            bytes32(crc as int),
        );
    }
    push_bytes(&mut meta, &data);
    meta
}

proof fn lemma_patch_prefix(a: Seq<u8>, b: Seq<u8>, at: int, d: Seq<u8>)
    requires
        0 <= at,
        at + d.len() <= a.len(),
    ensures
        patched(a + b, at, d) == patched(a, at, d) + b,
{
    assert(patched(a + b, at, d) =~= patched(a, at, d) + b);
}

/// Writes `root` as an EROFS image. Returns the image and its block and inode
/// usage.
pub fn write_image(root: &Node, p: &Params) -> (r: Result<(Vec<u8>, Stats), Error>)
    requires
        p.block_size != 512,
    ensures
        match r {
            Ok((image, stats)) => {
                &&& write_fault(*root, *p) is None
                &&& image@ == image_of(*root, *p)
                &&& stats.blocks == total_blocks(items_of(*root), p.block_size as int)
                &&& stats.used_blocks == stats.blocks
                &&& stats.inodes == items_of(*root).len() % 0x1_0000_0000
                &&& stats.used_inodes == stats.inodes
            },
            Err(e) => write_fault(*root, *p) == Some(e),
        },
{
    let bs: u64 = p.block_size;
    proof {
        reveal(supported_block_size);
    }
    if !(bs == 1024 || bs == 2048 || bs == 4096 || bs == 8192 || bs == 16384 || bs == 32768 || bs
        == 65536) {
        return Err(Error::UnsupportedBlockSize);
    }
    let name: &[u8] = p.volume_name.as_str().as_bytes();
    if name.len() > 16 {
        return Err(Error::VolumeNameTooLong);
    }
    let items: Vec<Item> = match number(root, true) {
        Ok(items) => items,
        Err(e) => {
            return Err(e);
        },
    };
    proof {
        lemma_items(*root);
        assert(numbered(items@).len() == items@.len());
    }
    let l: Layout = match layout(&items, bs) {
        Ok(l) => l,
        Err(e) => {
            return Err(e);
        },
    };
    assert(ready(*root, bs as int)) by {
        reveal(ready);
    }
    let image: Vec<u8> = assemble(root, &items, &l, p);
    let inodes: u32 = (items.len() as u64 % 0x1_0000_0000) as u32;
    let stats: Stats = Stats {
        blocks: l.places.total,
        used_blocks: l.places.total,
        inodes,
        used_inodes: inodes,
    };
    Ok((image, stats))
}

proof fn lemma_pad_blocks(end: int, bs: int)
    requires
        0 <= end,
        0 < bs,
    ensures
        end % bs > 0 ==> round_up(end, bs) - end == bs - end % bs,
        end % bs == 0 ==> round_up(end, bs) == end,
        0 < end ==> bs <= round_up(end, bs),
{
    let q = end / bs;
    let r = end % bs;
    lemma_round_up(end, bs);
    assert(end == q * bs + r) by (nonlinear_arith)
        requires
            0 < bs,
            q == end / bs,
            r == end % bs,
    ;
    if r > 0 {
        assert((end + bs - 1) / bs == q + 1) by (nonlinear_arith)
            requires
                end == q * bs + r,
                0 < r < bs,
        ;
        assert((q + 1) * bs == q * bs + bs) by (nonlinear_arith);
    }
    if 0 < end {
        let c = ceil_div(end, bs);
        assert(c * bs >= bs) by (nonlinear_arith)
            requires
                c * bs >= end > 0,
                0 < bs,
        ;
    }
}

} // verus!
