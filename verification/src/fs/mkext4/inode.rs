//! The inodes of an ext4 image: their numbers, content and bytes.
use vstd::prelude::*;
use crate::bytes::{bytes16, bytes32, push16, push32, push_bytes, push_zeros, start16, start32,
    zero_seq, zeros};
use crate::error::Error;
use crate::fs::mkerofs::layout::{clone_bytes, file_type, node_type, subdirs};
use crate::fs::mkerofs::mode_of;
use crate::fs::mkext4::dirs::{dir_blocks, dir_content, dirents_view, names_fit, with_dots, DirEntry,
    Dirent};
use crate::fs::mkext4::extents::{bounded, build_tree, data_ok, filled, lemma_add_block,
    lemma_leaves, lemma_stored, lemma_tree, next_block, store, store_content, with_tree, Extent};
use crate::fs::mkext4::layout::{capacity, lemma_bounds, nth_block, supported, Groups, Layout};
use crate::fs::mkext4::xattrs::{area, block_bytes, fits, lemma_lens, place_xattrs, xattr_block,
    XATTR_MAGIC};
use crate::fs::mkext4::{Node, NodeKind};
use crate::fs::tree::{bad_name, kid, kids_of, lemma_item_kids, numbered, rooted, Item, Numbered};
use crate::fs::xattr::{attrs_of, attrs_view, security_xattrs, Attr, Xattr};

verus! {

broadcast use crate::bytes::group_byte_lens;

pub const ROOT_INO: u32 = 2;

pub const LOST_FOUND_INO: u32 = 11;

/// lost+found gets 16 KiB so that it can be used without allocating.
pub const LOST_FOUND_BYTES: u64 = 16384;

pub const FLAG_EXTENTS: u32 = 0x80000;

/// `lost+found`
pub open spec fn lost_found_name() -> Seq<u8> {
    seq![0x6cu8, 0x6f, 0x73, 0x74, 0x2b, 0x66, 0x6f, 0x75, 0x6e, 0x64]
}

/// The first item from `i` on that is named `lost+found`. The children of the
/// root come before all deeper nodes.
pub open spec fn lost_found(items: Seq<Numbered>, i: int) -> int
    decreases items.len() - i,
{
    if i >= items.len() || items[i].node.name@ == lost_found_name() {
        i
    } else {
        lost_found(items, i + 1)
    }
}

/// The inode of item `i`, where item `lf` is lost+found: 2 for the root, 11
/// for lost+found, the rest from 12 on.
pub open spec fn ino_of(lf: int, i: int) -> int {
    if i == 0 {
        2
    } else if i == lf {
        11
    } else if i < lf {
        11 + i
    } else {
        10 + i
    }
}

/// The item that comes in place `j` in the order of inodes.
pub open spec fn item_at(lf: int, j: int) -> int {
    if j == 0 {
        0
    } else if j == 1 {
        lf
    } else if j - 1 < lf {
        j - 1
    } else {
        j
    }
}

/// The entries of directory `i` but "." and "..".
pub open spec fn kid_entries(items: Seq<Numbered>, lf: int, i: int) -> Seq<Dirent> {
    let node = items[i].node;
    Seq::new(
        kids_of(node).len(),
        |k: int|
            Dirent {
                name: kid(node, k).name@,
                ino: ino_of(lf, items[i].first + k),
                ftype: file_type(kid(node, k)),
            },
    )
}

/// All entries of directory `i`.
pub open spec fn entries_of(items: Seq<Numbered>, lf: int, i: int) -> Seq<Dirent> {
    with_dots(ino_of(lf, i), ino_of(lf, items[i].parent), kid_entries(items, lf, i))
}

/// The content of directory `i`.
#[verifier::opaque]
pub open spec fn dir_data(items: Seq<Numbered>, lf: int, i: int, bs: int) -> Seq<u8> {
    dir_content(
        entries_of(items, lf, i),
        bs,
        (if i == lf {
            LOST_FOUND_BYTES
        } else {
            0
        }) as int,
    )
}

/// Where the content of an inode is: the blocks stored so far, the 60 bytes
/// in the inode, its flags and the size of the content.
pub struct Placed {
    pub data: Seq<u8>,
    pub block: Seq<u8>,
    pub flags: int,
    pub size: int,
}

/// Content in blocks of its own, under an extent tree.
pub open spec fn mapped(l: Groups, data: Seq<u8>, content: Seq<u8>, sparse: bool) -> Result<
    Placed,
    Error,
> {
    match store(l, data, content, sparse) {
        None => Err(Error::StorageFull),
        Some(s) => match with_tree(l, s.data, s.runs) {
            None => Err(Error::StorageFull),
            Some((d, top)) => Ok(
                Placed {
                    data: d,
                    block: top,
                    flags: FLAG_EXTENTS as int,
                    size: content.len() as int,
                },
            ),
        },
    }
}

/// Places the content of a node; `dir` is that of a directory. Short symlink
/// targets stand in the inode.
#[verifier::opaque]
pub open spec fn placed(l: Groups, data: Seq<u8>, node: Node, dir: Seq<u8>) -> Result<
    Placed,
    Error,
> {
    match node.kind {
        NodeKind::Dir(_) => mapped(l, data, dir, false),
        NodeKind::File { data: d } => mapped(l, data, d@, true),
        NodeKind::Symlink(t) => if t@.len() == 0 || t@.len() >= l.bs {
            Err(Error::BadSymlinkTarget)
        } else if t@.len() < 60 {
            Ok(
                Placed {
                    data,
                    block: t@ + zero_seq(60 - t@.len()),
                    flags: 0,
                    size: t@.len() as int,
                },
            )
        } else {
            mapped(l, data, t@, false)
        },
    }
}

/// Where the xattrs of an inode are: the blocks stored so far, the xattr
/// block, and the last 96 bytes of the inode.
pub struct Attached {
    pub data: Seq<u8>,
    pub acl: int,
    pub area: Seq<u8>,
}

/// Xattrs stand in the inode when they fit, else in one xattr block.
#[verifier::opaque]
pub open spec fn attached(l: Groups, data: Seq<u8>, attrs: Seq<Attr>) -> Result<Attached, Error> {
    if attrs.len() == 0 {
        Ok(Attached { data, acl: 0, area: zero_seq(96) })
    } else if fits(attrs, 0, 92) {
        Ok(
            Attached {
                data,
                acl: 0,
                area: bytes32(XATTR_MAGIC as int) + area(attrs, 0, 92, false),
            },
        )
    } else if data.len() as int / l.bs >= capacity(l) {
        Err(Error::StorageFull)
    } else if !fits(attrs, 32, l.bs) {
        Err(Error::XattrsTooBig)
    } else {
        Ok(
            Attached {
                data: data + block_bytes(attrs, l.bs),
                acl: nth_block(l, data.len() as int / l.bs),
                area: zero_seq(96),
            },
        )
    }
}

/// The link count: 1, or for a directory 2 and one for each directory in it;
/// 1 also stands for too many to count.
pub open spec fn links(node: Node) -> int {
    if node.kind is Dir {
        let n = 2 + subdirs(node, kids_of(node).len() as int);
        if n >= 65000 {
            1
        } else {
            n
        }
    } else {
        1
    }
}

/// The first 40 bytes of an inode.
pub open spec fn inode_head(node: Node, size: int, sectors: int, flags: int, time: int) -> Seq<u8> {
    bytes16(mode_of(node)) + bytes16((node.uid % 0x1_0000) as int) + bytes32(size % 0x1_0000_0000)
        + bytes32(time) + bytes32(time) + bytes32(time) + bytes32(0) + bytes16(
        (node.gid % 0x1_0000) as int,
    ) + bytes16(links(node)) + bytes32(sectors % 0x1_0000_0000) + bytes32(flags) + bytes32(0)
}

/// The bytes of an inode from 100 on, before its xattrs.
pub open spec fn inode_rest(node: Node, size: int, sectors: int, acl: int, time: int) -> Seq<u8> {
    bytes32(0) + bytes32(acl % 0x1_0000_0000) + bytes32(size / 0x1_0000_0000) + bytes32(0) + bytes16(
        sectors / 0x1_0000_0000,
    ) + bytes16(acl / 0x1_0000_0000) + bytes16((node.uid / 0x1_0000) as int) + bytes16(
        (node.gid / 0x1_0000) as int,
    ) + bytes32(0) + bytes16(32) + zero_seq(14) + bytes32(time) + zero_seq(12)
}

/// An inode.
#[verifier::opaque]
pub open spec fn inode_bytes(node: Node, pl: Placed, a: Attached, sectors: int, time: int) -> Seq<
    u8,
> {
    inode_head(node, pl.size, sectors, pl.flags, time) + pl.block + inode_rest(
        node,
        pl.size,
        sectors,
        a.acl,
        time,
    ) + a.area
}

/// An image that is being written: the blocks stored so far, and the inodes
/// from number 1 on.
#[verifier::ext_equal]
pub struct Image {
    pub data: Seq<u8>,
    pub inodes: Seq<u8>,
}

/// The 512-byte sectors of the blocks that were stored last.
pub open spec fn sectors_of(before: Seq<u8>, after: Seq<u8>, bs: int) -> int {
    (after.len() - before.len()) / bs * (bs / 512)
}

/// Appends the inode of item `i`, and its content.
#[verifier::opaque]
pub open spec fn with_inode(
    l: Groups,
    img: Image,
    items: Seq<Numbered>,
    lf: int,
    i: int,
    time: int,
) -> Result<Image, Error> {
    let node = items[i].node;
    match placed(l, img.data, node, dir_data(items, lf, i, l.bs)) {
        Err(e) => Err(e),
        Ok(pl) => match attached(l, pl.data, attrs_of(node)) {
            Err(e) => Err(e),
            Ok(a) => Ok(
                Image {
                    data: a.data,
                    inodes: img.inodes + inode_bytes(
                        node,
                        pl,
                        a,
                        sectors_of(img.data, a.data, l.bs),
                        time,
                    ),
                },
            ),
        },
    }
}

/// The image with the first `j` inodes that are in use. Inode 1 and those
/// between the root and lost+found are empty.
pub open spec fn image_upto(
    l: Groups,
    items: Seq<Numbered>,
    lf: int,
    j: int,
    time: int,
) -> Result<Image, Error>
    decreases j,
{
    if j <= 0 {
        Ok(Image { data: Seq::empty(), inodes: zero_seq(256) })
    } else {
        match image_upto(l, items, lf, j - 1, time) {
            Err(e) => Err(e),
            Ok(img) => match with_inode(l, img, items, lf, item_at(lf, j - 1), time) {
                Err(e) => Err(e),
                Ok(img) => if j == 1 {
                    Ok(Image { data: img.data, inodes: img.inodes + zero_seq(2048) })
                } else {
                    Ok(img)
                },
            },
        }
    }
}

/// What holds of an image that is being written.
pub open spec fn image_ok(l: Groups, img: Image, j: int) -> bool {
    &&& data_ok(l, img.data)
    &&& img.inodes.len() == (if j <= 0 {
        256
    } else {
        256 * (9 + j)
    })
}

pub proof fn lemma_mapped(l: Groups, data: Seq<u8>, content: Seq<u8>, sparse: bool)
    requires
        36 <= l.bs,
        data_ok(l, data),
        mapped(l, data, content, sparse) is Ok,
    ensures
        ({
            let pl = mapped(l, data, content, sparse)->Ok_0;
            &&& data_ok(l, pl.data)
            &&& data.len() <= pl.data.len()
            &&& pl.data.take(data.len() as int) == data
            &&& pl.block.len() == 60
        }),
{
    let n = crate::bytes::ceil_div(content.len() as int, l.bs);
    assert(0 <= n) by (nonlinear_arith)
        requires
            n == (content.len() + l.bs - 1) / l.bs,
            0 < l.bs,
    ;
    lemma_stored(l, data, content, n, sparse);
    let s = store(l, data, content, sparse)->Some_0;
    let sp = crate::fs::mkext4::extents::split_runs(s.runs, s.runs.len() as int);
    let v = crate::fs::mkext4::extents::leaves(sp, sp.len() as int);
    lemma_leaves(sp, sp.len() as int);
    lemma_tree(l, s.data, v, 0);
    let t = crate::fs::mkext4::extents::tree(l, s.data, v, 0)->Some_0;
    assert(t.data.take(data.len() as int) =~= s.data.take(data.len() as int));
}

pub proof fn lemma_placed(l: Groups, data: Seq<u8>, node: Node, dir: Seq<u8>)
    requires
        36 <= l.bs,
        data_ok(l, data),
        placed(l, data, node, dir) is Ok,
    ensures
        ({
            let pl = placed(l, data, node, dir)->Ok_0;
            &&& data_ok(l, pl.data)
            &&& data.len() <= pl.data.len()
            &&& pl.data.take(data.len() as int) == data
            &&& pl.block.len() == 60
        }),
{
    reveal(placed);
    assert(data.take(data.len() as int) =~= data);
    match node.kind {
        NodeKind::Dir(_) => {
            lemma_mapped(l, data, dir, false);
        },
        NodeKind::File { data: d } => {
            lemma_mapped(l, data, d@, true);
        },
        NodeKind::Symlink(t) => {
            if t@.len() >= 60 {
                lemma_mapped(l, data, t@, false);
            }
        },
    }
}

pub proof fn lemma_attached(l: Groups, data: Seq<u8>, attrs: Seq<Attr>)
    requires
        36 <= l.bs,
        data_ok(l, data),
        attached(l, data, attrs) is Ok,
    ensures
        ({
            let a = attached(l, data, attrs)->Ok_0;
            &&& data_ok(l, a.data)
            &&& data.len() <= a.data.len()
            &&& a.data.take(data.len() as int) == data
            &&& a.area.len() == 96
        }),
{
    reveal(attached);
    let n = attrs.len() as int;
    assert(data.take(data.len() as int) =~= data);
    lemma_lens(attrs, n, 92, false);
    lemma_lens(attrs, n, l.bs, true);
    if attrs.len() > 0 && !fits(attrs, 0, 92) {
        let b = block_bytes(attrs, l.bs);
        lemma_add_block(data, b, l.bs);
        assert((data + b).take(data.len() as int) =~= data);
    }
}

pub proof fn lemma_inode_len(node: Node, pl: Placed, a: Attached, sectors: int, time: int)
    requires
        pl.block.len() == 60,
        a.area.len() == 96,
    ensures
        inode_bytes(node, pl, a, sectors, time).len() == 256,
{
    reveal(inode_bytes);
}

/// What appending an inode keeps.
pub proof fn lemma_with_inode(
    l: Groups,
    img: Image,
    items: Seq<Numbered>,
    lf: int,
    i: int,
    time: int,
)
    requires
        36 <= l.bs,
        data_ok(l, img.data),
        with_inode(l, img, items, lf, i, time) is Ok,
    ensures
        ({
            let r = with_inode(l, img, items, lf, i, time)->Ok_0;
            &&& data_ok(l, r.data)
            &&& img.data.len() <= r.data.len()
            &&& r.data.take(img.data.len() as int) == img.data
            &&& r.inodes.len() == img.inodes.len() + 256
            &&& r.inodes.take(img.inodes.len() as int) == img.inodes
        }),
{
    reveal(with_inode);
    let node = items[i].node;
    let dir = dir_data(items, lf, i, l.bs);
    let pl = placed(l, img.data, node, dir)->Ok_0;
    lemma_placed(l, img.data, node, dir);
    let a = attached(l, pl.data, attrs_of(node))->Ok_0;
    lemma_attached(l, pl.data, attrs_of(node));
    let sectors = sectors_of(img.data, a.data, l.bs);
    lemma_inode_len(node, pl, a, sectors, time);
    let r = with_inode(l, img, items, lf, i, time)->Ok_0;
    assert(r.data.take(img.data.len() as int) =~= pl.data.take(img.data.len() as int));
    assert(r.inodes.take(img.inodes.len() as int) =~= img.inodes);
}

pub proof fn lemma_image_upto(l: Groups, items: Seq<Numbered>, lf: int, j: int, time: int)
    requires
        36 <= l.bs,
        data_ok(l, Seq::empty()),
        0 <= j,
        image_upto(l, items, lf, j, time) is Ok,
    ensures
        image_ok(l, image_upto(l, items, lf, j, time)->Ok_0, j),
    decreases j,
{
    if j > 0 {
        lemma_image_upto(l, items, lf, j - 1, time);
        lemma_with_inode(
            l,
            image_upto(l, items, lf, j - 1, time)->Ok_0,
            items,
            lf,
            item_at(lf, j - 1),
            time,
        );
    }
}

/// Where the content of an inode was placed.
pub struct Place {
    pub block: Vec<u8>,
    pub flags: u32,
    pub size: u64,
}

pub open spec fn placed_at(data: Seq<u8>, p: Place) -> Placed {
    Placed { data, block: p.block@, flags: p.flags as int, size: p.size as int }
}

/// Stores content under an extent tree.
fn map_content(l: &Layout, cap: u64, data: &mut Vec<u8>, content: &[u8], sparse: bool) -> (r: Result<
    Place,
    Error,
>)
    requires
        filled(l, cap, old(data)@),
    ensures
        match r {
            Ok(p) => filled(l, cap, final(data)@) && mapped(l@, old(data)@, content@, sparse) == Ok::<
                Placed,
                Error,
            >(placed_at(final(data)@, p)),
            Err(e) => mapped(l@, old(data)@, content@, sparse) == Err::<Placed, Error>(e),
        },
{
    let runs: Vec<Extent> = match store_content(l, cap, data, content, sparse) {
        Ok(v) => v,
        Err(e) => {
            return Err(e);
        },
    };
    proof {
        lemma_bounds(l@);
        let n = content.len() as int;
        let bs = l@.bs;
        assert((n + bs - 1) / bs <= n) by (nonlinear_arith)
            requires
                0 <= n,
                0 < bs,
        ;
        assert(bounded(runs@, u64::MAX as int));
    }
    match build_tree(l, cap, data, &runs) {
        Ok(block) => Ok(Place { block, flags: FLAG_EXTENTS, size: content.len() as u64 }),
        Err(e) => Err(e),
    }
}

/// Places the content of a node.
fn place(l: &Layout, cap: u64, data: &mut Vec<u8>, node: &Node, dir: &Vec<u8>) -> (r: Result<
    Place,
    Error,
>)
    requires
        filled(l, cap, old(data)@),
    ensures
        match r {
            Ok(p) => filled(l, cap, final(data)@) && placed(l@, old(data)@, *node, dir@) == Ok::<
                Placed,
                Error,
            >(placed_at(final(data)@, p)),
            Err(e) => placed(l@, old(data)@, *node, dir@) == Err::<Placed, Error>(e),
        },
{
    proof {
        reveal(placed);
        lemma_bounds(l@);
    }
    match &node.kind {
        NodeKind::Dir(_) => map_content(l, cap, data, dir, false),
        NodeKind::File { data: d } => map_content(l, cap, data, d, true),
        NodeKind::Symlink(target) => {
            let n: usize = target.len();
            if n == 0 || n as u64 >= l.bs {
                return Err(Error::BadSymlinkTarget);
            }
            if n < 60 {
                let mut block: Vec<u8> = clone_bytes(target);
                push_zeros(&mut block, 60 - n);
                return Ok(Place { block, flags: 0, size: n as u64 });
            }
            map_content(l, cap, data, target, false)
        },
    }
}

/// Where the xattrs of an inode were placed.
pub struct Holder {
    pub acl: u64,
    pub area: Vec<u8>,
}

pub open spec fn attached_at(data: Seq<u8>, h: Holder) -> Attached {
    Attached { data, acl: h.acl as int, area: h.area@ }
}

/// Places xattrs.
fn attach(l: &Layout, cap: u64, data: &mut Vec<u8>, attrs: &Vec<Xattr>) -> (r: Result<Holder, Error>)
    requires
        filled(l, cap, old(data)@),
        forall|k: int| 0 <= k < attrs@.len() ==> (#[trigger] attrs@[k]).name.len() <= 255,
    ensures
        match r {
            Ok(h) => filled(l, cap, final(data)@) && h.acl <= u32::MAX && attached(
                l@,
                old(data)@,
                attrs_view(attrs@),
            ) == Ok::<Attached, Error>(attached_at(final(data)@, h)),
            Err(e) => attached(l@, old(data)@, attrs_view(attrs@)) == Err::<Attached, Error>(e),
        },
{
    proof {
        reveal(attached);
        lemma_bounds(l@);
    }
    let ghost all = attrs_view(attrs@);
    if attrs.len() == 0 {
        return Ok(Holder { acl: 0, area: zeros(96) });
    }
    if let Some(a) = place_xattrs(attrs, 0, 92, false) {
        let mut b: Vec<u8> = start32(XATTR_MAGIC);
        push_bytes(&mut b, &a);
        return Ok(Holder { acl: 0, area: b });
    }
    let acl: u64 = match next_block(l, cap, data) {
        Ok(b) => b,
        Err(e) => {
            return Err(e);
        },
    };
    match xattr_block(attrs, l.bs as usize) {
        Ok(b) => {
            let ghost was = data@;
            push_bytes(data, &b);
            proof {
                lemma_lens(all, all.len() as int, l@.bs, true);
                lemma_add_block(was, b@, l@.bs);
            }
            Ok(Holder { acl, area: zeros(96) })
        },
        Err(e) => Err(e),
    }
}

fn head(node: &Node, nlink: u16, size: u64, sectors: u64, flags: u32, time: u32) -> (r: Vec<u8>)
    requires
        nlink == links(*node),
    ensures
        r@ == inode_head(*node, size as int, sectors as int, flags as int, time as int),
{
    let kind: u16 = match &node.kind {
        NodeKind::File { .. } => 0x8000,
        NodeKind::Dir(_) => 0x4000,
        NodeKind::Symlink(_) => 0xA000,
    };
    let mut b: Vec<u8> = start16(kind + (node.mode % 0x1000) as u16);
    push16(&mut b, (node.uid % 0x1_0000) as u16);
    push32(&mut b, (size % 0x1_0000_0000) as u32);
    push32(&mut b, time);
    push32(&mut b, time);
    push32(&mut b, time);
    push32(&mut b, 0);
    push16(&mut b, (node.gid % 0x1_0000) as u16);
    push16(&mut b, nlink);
    push32(&mut b, (sectors % 0x1_0000_0000) as u32);
    push32(&mut b, flags);
    push32(&mut b, 0);
    b
}

fn rest(node: &Node, size: u64, sectors: u64, acl: u64, time: u32) -> (r: Vec<u8>)
    requires
        acl <= u32::MAX,
        sectors / 0x1_0000_0000 <= 0xFFFF,
    ensures
        r@ == inode_rest(*node, size as int, sectors as int, acl as int, time as int),
{
    let mut b: Vec<u8> = start32(0);
    push32(&mut b, (acl % 0x1_0000_0000) as u32);
    push32(&mut b, (size / 0x1_0000_0000) as u32);
    push32(&mut b, 0);
    push16(&mut b, (sectors / 0x1_0000_0000) as u16);
    push16(&mut b, (acl / 0x1_0000_0000) as u16);
    push16(&mut b, (node.uid / 0x1_0000) as u16);
    push16(&mut b, (node.gid / 0x1_0000) as u16);
    push32(&mut b, 0);
    push16(&mut b, 32);
    push_zeros(&mut b, 14);
    push32(&mut b, time);
    push_zeros(&mut b, 12);
    b
}

fn full_inode(node: &Node, nlink: u16, p: &Place, h: &Holder, sectors: u64, time: u32) -> (r: Vec<u8>)
    requires
        nlink == links(*node),
        h.acl <= u32::MAX,
        sectors / 0x1_0000_0000 <= 0xFFFF,
    ensures
        forall|d: Seq<u8>, e: Seq<u8>|
            r@ == #[trigger] inode_bytes(
                *node,
                placed_at(d, *p),
                attached_at(e, *h),
                sectors as int,
                time as int,
            ),
{
    proof {
        reveal(inode_bytes);
    }
    let mut b: Vec<u8> = head(node, nlink, p.size, sectors, p.flags, time);
    push_bytes(&mut b, &p.block);
    let tail: Vec<u8> = rest(node, p.size, sectors, h.acl, time);
    push_bytes(&mut b, &tail);
    push_bytes(&mut b, &h.area);
    b
}

/// The inode of item `i`.
fn number_of(lf: usize, i: usize) -> (r: u32)
    requires
        i + 11 <= u32::MAX,
    ensures
        r == ino_of(lf as int, i as int),
{
    if i == 0 {
        ROOT_INO
    } else if i == lf {
        LOST_FOUND_INO
    } else if i < lf {
        11 + i as u32
    } else {
        10 + i as u32
    }
}

/// The entries of directory `i`, and how many of them are directories.
fn list_kids<'a>(items: &Vec<Item<'a>>, lf: usize, i: usize, n: usize) -> (r: (Vec<DirEntry>, usize))
    requires
        i < items.len(),
        items.len() + 16 <= u32::MAX,
        rooted(numbered(items@), i as int),
        n == kids_of(*items@[i as int].node).len(),
    ensures
        dirents_view(r.0@) == kid_entries(numbered(items@), lf as int, i as int),
        r.1 == subdirs(*items@[i as int].node, n as int),
{
    let ghost all = numbered(items@);
    let ghost c = kid_entries(all, lf as int, i as int);
    proof {
        lemma_item_kids(all, i as int);
        assert(all[i as int] == items@[i as int].numbered());
        assert(all.len() == items@.len());
    }
    let first: usize = items[i].first;
    let mut v: Vec<DirEntry> = Vec::new();
    let mut dirs: usize = 0;
    let mut k: usize = 0;
    while k < n
        invariant
            k <= n,
            dirs <= k,
            all == numbered(items@),
            all.len() == items@.len(),
            items.len() + 16 <= u32::MAX,
            i < items.len(),
            all[i as int] == items@[i as int].numbered(),
            first == items@[i as int].first,
            n == kids_of(all[i as int].node).len(),
            first + n <= items.len(),
            c == kid_entries(all, lf as int, i as int),
            forall|k: int|
                0 <= k < n ==> #[trigger] all[first + k].node == kid(all[i as int].node, k),
            dirents_view(v@) =~= c.take(k as int),
            dirs == subdirs(all[i as int].node, k as int),
        decreases n - k,
    {
        assert(all[first + k] == items@[first + k].numbered());
        let child: &Node = items[first + k].node;
        assert(all[first + k as int].node == kid(all[i as int].node, k as int));
        let ftype: u8 = node_type(child);
        let ghost prev = v@;
        v.push(DirEntry { name: clone_bytes(&child.name), ino: number_of(lf, first + k), ftype });
        assert(dirents_view(v@) =~= dirents_view(prev).push(c[k as int]));
        if ftype == 2 {
            dirs += 1;
        }
        k += 1;
    }
    assert(c.take(n as int) =~= c);
    (v, dirs)
}

/// What the items of a tree without a fault keep, with lost+found as item
/// `lf`.
pub open spec fn sound(items: Seq<Numbered>, lf: int) -> bool {
    &&& 0 < lf < items.len()
    &&& forall|i: int| 0 <= i < items.len() ==> #[trigger] rooted(items, i)
    &&& forall|i: int|
        0 <= i < items.len() ==> 0 <= (#[trigger] items[i]).parent < items.len()
    &&& forall|i: int|
        0 < i < items.len() ==> !bad_name((#[trigger] items[i]).node.name@, false)
}

pub proof fn lemma_names_fit(items: Seq<Numbered>, lf: int, i: int)
    requires
        sound(items, lf),
        0 <= i < items.len(),
    ensures
        names_fit(kid_entries(items, lf, i)),
{
    assert(rooted(items, i));
    lemma_item_kids(items, i);
    let c = kid_entries(items, lf, i);
    assert forall|k: int| 0 <= k < c.len() implies (#[trigger] c[k]).name.len() <= 255 by {
        assert(items[items[i].first + k].node == kid(items[i].node, k));
        assert(!bad_name(items[items[i].first + k].node.name@, false));
    }
}

/// The content of a directory, and the link count of any node.
pub fn node_dir<'a>(items: &Vec<Item<'a>>, lf: usize, i: usize, bs: usize) -> (r: (Vec<u8>, u16))
    requires
        i < items.len(),
        items.len() + 16 <= u32::MAX,
        sound(numbered(items@), lf as int),
        264 <= bs <= 65536,
    ensures
        items@[i as int].node.kind is Dir ==> r.0@ == dir_data(
            numbered(items@),
            lf as int,
            i as int,
            bs as int,
        ),
        r.1 == links(*items@[i as int].node),
{
    let ghost all = numbered(items@);
    proof {
        reveal(dir_data);
        assert(all[i as int] == items@[i as int].numbered());
        assert(all.len() == items@.len());
        assert(rooted(all, i as int));
        lemma_names_fit(all, lf as int, i as int);
    }
    match &items[i].node.kind {
        NodeKind::Dir(ch) => {
            proof {
                crate::fs::tree::lemma_kids(*items@[i as int].node);
            }
            let n: usize = ch.len();
            let (kids, dirs): (Vec<DirEntry>, usize) = list_kids(items, lf, i, n);
            let parent: usize = items[i].parent;
            assert(all[i as int].parent < items.len());
            let min: u64 = if i == lf {
                LOST_FOUND_BYTES
            } else {
                0
            };
            let bytes: Vec<u8> = dir_blocks(
                number_of(lf, i),
                number_of(lf, parent),
                kids,
                bs,
                min,
            );
            let nlink: u16 = if dirs >= 64998 {
                1
            } else {
                2 + dirs as u16
            };
            (bytes, nlink)
        },
        _ => (Vec::new(), 1),
    }
}

/// Appends the inode of item `i`, and its content.
pub fn write_inode<'a>(
    l: &Layout,
    cap: u64,
    data: &mut Vec<u8>,
    inodes: &mut Vec<u8>,
    items: &Vec<Item<'a>>,
    lf: usize,
    i: usize,
    time: u32,
) -> (r: Result<(), Error>)
    requires
        filled(l, cap, old(data)@),
        i < items.len(),
        items.len() + 16 <= u32::MAX,
        sound(numbered(items@), lf as int),
    ensures
        match r {
            Ok(_) => filled(l, cap, final(data)@) && with_inode(
                l@,
                Image { data: old(data)@, inodes: old(inodes)@ },
                numbered(items@),
                lf as int,
                i as int,
                time as int,
            ) == Ok::<Image, Error>(Image { data: final(data)@, inodes: final(inodes)@ }),
            Err(e) => with_inode(
                l@,
                Image { data: old(data)@, inodes: old(inodes)@ },
                numbered(items@),
                lf as int,
                i as int,
                time as int,
            ) == Err::<Image, Error>(e),
        },
{
    let ghost all = numbered(items@);
    proof {
        reveal(with_inode);
        lemma_bounds(l@);
        assert(all[i as int] == items@[i as int].numbered());
    }
    let node: &Node = items[i].node;
    let (dir, nlink): (Vec<u8>, u16) = node_dir(items, lf, i, l.bs as usize);
    let before: usize = data.len();
    let ghost start = data@;
    let ghost spec_dir = dir_data(all, lf as int, i as int, l@.bs);
    proof {
        assert(placed(l@, start, *node, dir@) == placed(l@, start, *node, spec_dir)) by {
            reveal(placed);
        }
    }
    let p: Place = match place(l, cap, data, node, &dir) {
        Ok(p) => p,
        Err(e) => {
            return Err(e);
        },
    };
    proof {
        lemma_placed(l@, start, *node, dir@);
    }
    let ghost mid = data@;
    let attrs: Vec<Xattr> = security_xattrs(node);
    proof {
        lemma_attr_names(*node);
        assert forall|k: int| 0 <= k < attrs@.len() implies (#[trigger] attrs@[k]).name.len()
            <= 255 by {
            assert(attrs_view(attrs@)[k].name.len() <= 10);
            assert(attrs_view(attrs@)[k] == attrs@[k]@);
        }
    }
    let h: Holder = match attach(l, cap, data, &attrs) {
        Ok(h) => h,
        Err(e) => {
            return Err(e);
        },
    };
    proof {
        lemma_attached(l@, mid, attrs_of(*node));
        lemma_sectors(start, data@, l@.bs, cap as int);
    }
    let sectors: u64 = (data.len() - before) as u64 / l.bs * (l.bs / 512);
    let b: Vec<u8> = full_inode(node, nlink, &p, &h, sectors, time);
    assert(b@ == inode_bytes(
        *node,
        placed_at(mid, p),
        attached_at(data@, h),
        sectors as int,
        time as int,
    ));
    push_bytes(inodes, &b);
    Ok(())
}

pub proof fn lemma_sectors(before: Seq<u8>, after: Seq<u8>, bs: int, cap: int)
    requires
        supported(bs),
        before.len() <= after.len(),
        after.len() as int / bs <= cap,
        cap <= 0x2_0000_0000,
    ensures
        0 <= sectors_of(before, after, bs) <= 0x10_0000_0000,
{
    let n = after.len() - before.len();
    if bs == 1024 {
        assert(0 <= n / 1024 <= after.len() as int / 1024);
    } else if bs == 2048 {
        assert(0 <= n / 2048 <= after.len() as int / 2048);
    } else {
        assert(0 <= n / 4096 <= after.len() as int / 4096);
    }
    let q = n / bs;
    let k = bs / 512;
    assert(0 <= q * k <= 0x2_0000_0000 * 8) by (nonlinear_arith)
        requires
            0 <= q <= 0x2_0000_0000,
            0 <= k <= 8,
    ;
}

/// The names of security xattrs are short.
pub proof fn lemma_attr_names(node: Node)
    ensures
        forall|k: int|
            0 <= k < attrs_of(node).len() ==> (#[trigger] attrs_of(node)[k]).name.len() <= 10,
        attrs_of(node).len() <= 2,
{
    let a = attrs_of(node);
    assert forall|k: int| 0 <= k < a.len() implies (#[trigger] a[k]).name.len() <= 10 by {
        assert(a[k].name == crate::fs::xattr::selinux_name() || a[k].name
            == crate::fs::xattr::capability_name());
    }
}

/// Writes all inodes with their content.
pub fn write_inodes<'a>(l: &Layout, cap: u64, items: &Vec<Item<'a>>, lf: usize, time: u32) -> (r: Result<
    (Vec<u8>, Vec<u8>),
    Error,
>)
    requires
        filled(l, cap, Seq::empty()),
        items.len() + 16 <= u32::MAX,
        sound(numbered(items@), lf as int),
    ensures
        match r {
            Ok((data, inodes)) => filled(l, cap, data@) && image_upto(
                l@,
                numbered(items@),
                lf as int,
                items@.len() as int,
                time as int,
            ) == Ok::<Image, Error>(Image { data: data@, inodes: inodes@ }),
            Err(e) => image_upto(
                l@,
                numbered(items@),
                lf as int,
                items@.len() as int,
                time as int,
            ) == Err::<Image, Error>(e),
        },
{
    let ghost all = numbered(items@);
    let mut data: Vec<u8> = Vec::new();
    assert(data@ =~= Seq::<u8>::empty());
    let mut inodes: Vec<u8> = zeros(256);
    let n: usize = items.len();
    let mut j: usize = 0;
    while j < n
        invariant
            all == numbered(items@),
            all.len() == items@.len(),
            n == items@.len(),
            n + 16 <= u32::MAX,
            j <= n,
            sound(all, lf as int),
            filled(l, cap, data@),
            image_upto(l@, all, lf as int, j as int, time as int) == Ok::<Image, Error>(
                Image { data: data@, inodes: inodes@ },
            ),
        decreases n - j,
    {
        let i: usize = if j == 0 {
            0
        } else if j == 1 {
            lf
        } else if j - 1 < lf {
            j - 1
        } else {
            j
        };
        match write_inode(l, cap, &mut data, &mut inodes, items, lf, i, time) {
            Ok(_) => {},
            Err(e) => {
                proof {
                    lemma_error(l@, all, lf as int, j + 1, n as int, time as int);
                }
                return Err(e);
            },
        }
        if j == 0 {
            push_zeros(&mut inodes, 2048);
        }
        j += 1;
    }
    Ok((data, inodes))
}

/// The first error stays.
proof fn lemma_error(l: Groups, items: Seq<Numbered>, lf: int, j: int, n: int, time: int)
    requires
        j <= n,
        image_upto(l, items, lf, j, time) is Err,
    ensures
        image_upto(l, items, lf, n, time) == image_upto(l, items, lf, j, time),
    decreases n - j,
{
    if j < n {
        lemma_error(l, items, lf, j + 1, n, time);
    }
}

} // verus!
