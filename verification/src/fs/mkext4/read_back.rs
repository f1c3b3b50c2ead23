//! Reading a written ext4 image gives back the tree that it was written from.
use vstd::prelude::*;
use vstd::utf8::encode_utf8;
use crate::bytes::{ceil_div, zero_seq};
use crate::error::Error;
use crate::fs::ext4::{block_size, data_of, dir_of, fast_link, file_of, inode_at, is_dot, link_of,
    meta_of, open_fault, signed32, InodeView};
use crate::fs::mkerofs::mode_of;
use crate::fs::mkerofs::read_meta::{all_seen, good_label, lemma_security, node_kind};
use crate::fs::mkext4::dirs::{dir_content, names_fit};
use crate::fs::mkext4::extents::{data_ok, lemma_block_in, store, stored};
use crate::fs::mkext4::inode::{attached, dir_data, entries_of, image_upto, ino_of, inode_bytes,
    item_at, kid_entries, lemma_attached, lemma_image_upto, lemma_inode_len, lemma_names_fit,
    lemma_placed, lemma_sectors, lemma_with_inode, lost_found, mapped, placed, sectors_of, sound,
    with_inode, Attached, Image, Placed};
use crate::fs::mkext4::layout::{addressable, capacity, lemma_bounds, lemma_home,
    lemma_layout_blocks, nth_block, supported, well_formed, Groups};
use crate::fs::mkext4::read_extents::{lemma_shows_prefix, shows};
use crate::fs::mkext4::read_groups::{lemma_inode_at, lemma_reader, lemma_shows, lemma_upto_len,
    whole};
use crate::fs::mkext4::read_inodes::{inode_view, lemma_attached_reads, lemma_inode_reads, modest};
use crate::fs::mkext4::read_lists::{lemma_all_listed, lemma_content_lists, listed, numbered_well};
use crate::fs::mkext4::read_trees::lemma_mapped_reads;
use crate::fs::mkext4::xattrs::{fits, lemma_lens_mono, values_len};
use crate::fs::mkext4::{image_bytes, laid_out, lemma_lost_found, min_inodes, Node, NodeKind,
    Params};
use crate::fs::tree::{items_of, kid, kids_of, lemma_item_kids, lemma_kids, rooted, Numbered};
use crate::fs::xattr::{attrs_of, capability_name, selinux_name, Attr};
use crate::fs::{kind_of, text_view, Kind, MetaView};

verus! {

broadcast use crate::bytes::group_byte_lens;

/// The place of item `i` in the order of inodes.
pub open spec fn place_of(lf: int, i: int) -> int {
    if i == 0 {
        0
    } else if i == lf {
        1
    } else if i < lf {
        i + 1
    } else {
        i
    }
}

/// An image with fewer inodes is the front of one with more.
proof fn lemma_upto_prefix(l: Groups, items: Seq<Numbered>, lf: int, j: int, n: int, time: int)
    requires
        36 <= l.bs,
        data_ok(l, Seq::empty()),
        0 <= j <= n,
        image_upto(l, items, lf, n, time) is Ok,
    ensures
        image_upto(l, items, lf, j, time) is Ok,
        ({
            let a = image_upto(l, items, lf, j, time)->Ok_0;
            let b = image_upto(l, items, lf, n, time)->Ok_0;
            &&& a.data.len() <= b.data.len()
            &&& b.data.take(a.data.len() as int) == a.data
            &&& a.inodes.len() <= b.inodes.len()
            &&& b.inodes.take(a.inodes.len() as int) == a.inodes
        }),
    decreases n - j,
{
    let b = image_upto(l, items, lf, n, time)->Ok_0;
    if j < n {
        let m = image_upto(l, items, lf, n - 1, time)->Ok_0;
        lemma_image_upto(l, items, lf, n - 1, time);
        lemma_with_inode(l, m, items, lf, item_at(lf, n - 1), time);
        lemma_upto_prefix(l, items, lf, j, n - 1, time);
        let a = image_upto(l, items, lf, j, time)->Ok_0;
        let w = with_inode(l, m, items, lf, item_at(lf, n - 1), time)->Ok_0;
        assert(b.inodes.take(w.inodes.len() as int) =~= w.inodes);
        assert(b.data.take(a.data.len() as int) =~= m.data.take(a.data.len() as int)) by {
            assert(w.data.take(m.data.len() as int) == m.data);
            assert forall|x: int| 0 <= x < a.data.len() implies #[trigger] b.data[x] == m.data[x] by {
                assert(w.data.take(m.data.len() as int)[x] == w.data[x]);
            }
        }
        assert(b.inodes.take(a.inodes.len() as int) =~= m.inodes.take(a.inodes.len() as int)) by {
            assert forall|x: int| 0 <= x < a.inodes.len() implies #[trigger] b.inodes[x]
                == m.inodes[x] by {
                assert(b.inodes.take(w.inodes.len() as int)[x] == b.inodes[x]);
                assert(w.inodes.take(m.inodes.len() as int)[x] == w.inodes[x]);
            }
        }
    } else {
        assert(b.data.take(b.data.len() as int) =~= b.data);
        assert(b.inodes.take(b.inodes.len() as int) =~= b.inodes);
    }
}

/// The blocks and inodes before item `i`.
pub open spec fn before(l: Groups, items: Seq<Numbered>, lf: int, i: int, time: int) -> Image {
    image_upto(l, items, lf, place_of(lf, i), time)->Ok_0
}

/// Where the content of item `i` was placed.
pub open spec fn placed_of(l: Groups, items: Seq<Numbered>, lf: int, i: int, time: int) -> Placed {
    placed(
        l,
        before(l, items, lf, i, time).data,
        items[i].node,
        dir_data(items, lf, i, l.bs),
    )->Ok_0
}

/// Where the xattrs of item `i` were attached.
pub open spec fn attached_of(
    l: Groups,
    items: Seq<Numbered>,
    lf: int,
    i: int,
    time: int,
) -> Attached {
    attached(l, placed_of(l, items, lf, i, time).data, attrs_of(items[i].node))->Ok_0
}

/// The sectors of item `i`.
pub open spec fn sectors_at(l: Groups, items: Seq<Numbered>, lf: int, i: int, time: int) -> int {
    sectors_of(
        before(l, items, lf, i, time).data,
        attached_of(l, items, lf, i, time).data,
        l.bs,
    )
}

/// What was written for item `i`.
proof fn lemma_written(l: Groups, items: Seq<Numbered>, lf: int, i: int, time: int)
    requires
        well_formed(l),
        data_ok(l, Seq::empty()),
        0 < lf < items.len(),
        0 <= i < items.len(),
        image_upto(l, items, lf, items.len() as int, time) is Ok,
    ensures
        ({
            let img = image_upto(l, items, lf, items.len() as int, time)->Ok_0;
            let node = items[i].node;
            let b = before(l, items, lf, i, time);
            let pl = placed_of(l, items, lf, i, time);
            let a = attached_of(l, items, lf, i, time);
            let ino = ino_of(lf, i);
            &&& placed(l, b.data, node, dir_data(items, lf, i, l.bs)) is Ok
            &&& attached(l, pl.data, attrs_of(node)) is Ok
            &&& data_ok(l, b.data)
            &&& data_ok(l, pl.data)
            &&& data_ok(l, a.data)
            &&& b.data.len() <= a.data.len()
            &&& pl.data.len() <= img.data.len()
            &&& img.data.take(pl.data.len() as int) == pl.data
            &&& a.data.len() <= img.data.len()
            &&& img.data.take(a.data.len() as int) == a.data
            &&& data_ok(l, img.data)
            &&& pl.block.len() == 60
            &&& a.area.len() == 96
            &&& ino * 256 <= img.inodes.len()
            &&& 2 <= ino <= items.len() + 9
            &&& img.inodes.subrange((ino - 1) * 256, ino * 256) == inode_bytes(
                node,
                pl,
                a,
                sectors_at(l, items, lf, i, time),
                time,
            )
        }),
{
    lemma_bounds(l);
    let n = items.len() as int;
    let j = place_of(lf, i);
    let node = items[i].node;
    let dir = dir_data(items, lf, i, l.bs);
    assert(item_at(lf, j) == i && 0 <= j < n);
    lemma_upto_prefix(l, items, lf, j, n, time);
    lemma_upto_prefix(l, items, lf, j + 1, n, time);
    lemma_image_upto(l, items, lf, j, time);
    lemma_image_upto(l, items, lf, j + 1, time);
    lemma_image_upto(l, items, lf, n, time);
    let b = image_upto(l, items, lf, j, time)->Ok_0;
    let c = image_upto(l, items, lf, j + 1, time)->Ok_0;
    let img = image_upto(l, items, lf, n, time)->Ok_0;
    let w = with_inode(l, b, items, lf, i, time)->Ok_0;
    assert(with_inode(l, b, items, lf, i, time) is Ok);
    reveal(with_inode);
    let pl = placed_of(l, items, lf, i, time);
    let a = attached_of(l, items, lf, i, time);
    lemma_placed(l, b.data, node, dir);
    lemma_attached(l, pl.data, attrs_of(node));
    let sectors = sectors_at(l, items, lf, i, time);
    lemma_inode_len(node, pl, a, sectors, time);
    let rec = inode_bytes(node, pl, a, sectors, time);
    assert(w.inodes == b.inodes + rec);
    let ino = ino_of(lf, i);
    let at = (ino - 1) * 256;
    assert(at == b.inodes.len());
    assert forall|k: int| 0 <= k < 256 implies #[trigger] img.inodes.subrange(at, at + 256)[k]
        == rec[k] by {
        assert(c.inodes[at + k] == w.inodes[at + k]);
        assert(img.inodes.take(c.inodes.len() as int)[at + k] == img.inodes[at + k]);
    }
    assert(img.inodes.subrange(at, at + 256) =~= rec);
    assert(c.data == a.data);
    assert(img.data.take(pl.data.len() as int) =~= pl.data) by {
        assert forall|x: int| 0 <= x < pl.data.len() implies #[trigger] img.data[x] == pl.data[x] by {
            assert(img.data.take(a.data.len() as int)[x] == img.data[x]);
            assert(a.data.take(pl.data.len() as int)[x] == a.data[x]);
        }
    }
}

/// Content without holes takes all of its blocks.
proof fn lemma_stored_len(l: Groups, data: Seq<u8>, content: Seq<u8>, n: int)
    requires
        supported(l.bs),
        data_ok(l, data),
        0 <= n <= ceil_div(content.len() as int, l.bs),
        stored(l, data, content, n, false) is Some,
    ensures
        stored(l, data, content, n, false)->Some_0.data.len() == data.len() + n * l.bs,
    decreases n,
{
    if n > 0 {
        lemma_stored_len(l, data, content, n - 1);
        lemma_block_in(content, n - 1, l.bs);
        assert((n - 1) * l.bs + l.bs == n * l.bs) by (nonlinear_arith);
    } else {
        assert(0 * l.bs == 0) by (nonlinear_arith);
    }
}

/// Content without holes is no longer than the image.
proof fn lemma_mapped_size(l: Groups, data: Seq<u8>, content: Seq<u8>)
    requires
        well_formed(l),
        data_ok(l, data),
        mapped(l, data, content, false) is Ok,
    ensures
        ceil_div(content.len() as int, l.bs) <= l.blocks,
        content.len() <= 0x1000_0000_0000,
{
    lemma_bounds(l);
    let bs = l.bs;
    let len = content.len() as int;
    let n = ceil_div(len, bs);
    assert(0 <= n && len <= n * bs) by (nonlinear_arith)
        requires
            n == (len + bs - 1) / bs,
            0 <= len,
            0 < bs,
    ;
    let s = store(l, data, content, false)->Some_0;
    lemma_stored_len(l, data, content, n);
    crate::fs::mkext4::extents::lemma_stored(l, data, content, n, false);
    crate::fs::mkext4::image::lemma_rooms(l, l.groups);
    let q = s.data.len() as int / bs;
    assert(n <= q) by (nonlinear_arith)
        requires
            q == s.data.len() as int / bs,
            s.data.len() >= n * bs,
            0 < bs,
    ;
    assert(n * bs <= 0x1_0000_0000 * 4096) by (nonlinear_arith)
        requires
            0 <= n <= 0x1_0000_0000,
            0 < bs <= 4096,
    ;
}

/// The content of a node; `dir` is that of a directory.
pub open spec fn content_of(node: Node, dir: Seq<u8>) -> Seq<u8> {
    match node.kind {
        NodeKind::Dir(_) => dir,
        NodeKind::File { data } => data@,
        NodeKind::Symlink(t) => t@,
    }
}

/// What placing content gives.
proof fn lemma_placed_kinds(l: Groups, data: Seq<u8>, node: Node, dir: Seq<u8>)
    requires
        well_formed(l),
        data_ok(l, data),
        placed(l, data, node, dir) is Ok,
    ensures
        ({
            let pl = placed(l, data, node, dir)->Ok_0;
            let c = content_of(node, dir);
            let fast = node.kind is Symlink && c.len() < 60;
            &&& pl.size == c.len()
            &&& pl.size < 0x1_0000_0000_0000_0000
            &&& fast ==> pl.flags == 0 && pl.data == data && pl.block == c + zero_seq(60 - c.len())
            &&& !fast ==> pl.flags == 0x80000 && (mapped(l, data, c, node.kind is File)) == Ok::<
                Placed,
                Error,
            >(pl)
            &&& node.kind is Dir ==> ceil_div(c.len() as int, l.bs) <= u32::MAX
            &&& node.kind is Symlink ==> ceil_div(c.len() as int, l.bs) <= 1
        }),
{
    reveal(placed);
    lemma_bounds(l);
    match node.kind {
        NodeKind::Dir(_) => {
            lemma_mapped_size(l, data, dir);
        },
        NodeKind::File { data: d } => {
            assert(d.len() <= usize::MAX);
        },
        NodeKind::Symlink(t) => {
            assert(t.len() <= usize::MAX);
            let n = t@.len() as int;
            let bs = l.bs;
            assert((n + bs - 1) / bs <= 1) by (nonlinear_arith)
                requires
                    0 <= n < bs,
            ;
        },
    }
}

/// A tree that can be written with these parameters, as an image whose inode
/// count fits in its field.
pub open spec fn writable(root: Node, p: Params) -> bool {
    &&& addressable(p.block_size as int, p.blocks as int)
    &&& laid_out(root, p) is Ok
    &&& laid_out(root, p)->Ok_0.groups.ipg * laid_out(root, p)->Ok_0.groups.groups <= u32::MAX
}

/// The groups of the image of a tree.
pub open spec fn groups_of(root: Node, p: Params) -> Groups {
    laid_out(root, p)->Ok_0.groups
}

/// The image of a tree.
pub open spec fn image_of(root: Node, p: Params) -> Seq<u8> {
    image_bytes(laid_out(root, p)->Ok_0, p)
}

/// The inode of item `i` of a tree.
pub open spec fn inode_number(root: Node, i: int) -> int {
    ino_of(lost_found(items_of(root), 1), i)
}

pub proof fn lemma_writable(root: Node, p: Params)
    requires
        writable(root, p),
    ensures
        ({
            let l = groups_of(root, p);
            let c = laid_out(root, p)->Ok_0.content;
            let items = items_of(root);
            &&& well_formed(l)
            &&& c.items == items
            &&& c.lf == lost_found(items, 1)
            &&& sound(items, c.lf)
            &&& items.len() + 16 <= u32::MAX
            &&& data_ok(l, Seq::empty())
            &&& 0 < items.len() + 10 <= l.ipg * l.groups <= u32::MAX
            &&& image_upto(l, items, c.lf, items.len() as int, p.timestamp as int) == Ok::<
                Image,
                Error,
            >(c.image)
            &&& image_of(root, p) == whole(l, p, c)
        }),
{
    let l = groups_of(root, p);
    let min = min_inodes(root, p);
    crate::fs::mkext4::size::lemma_laid(p.block_size as int, p.blocks as int, min);
    lemma_lost_found(root);
    lemma_bounds(l);
    crate::fs::mkext4::lemma_enough_inodes(l.bs, l.blocks, min);
    crate::fs::mkext4::image::lemma_rooms(l, l.groups);
}

/// The inode of item `i` as it was written.
pub open spec fn view_of(root: Node, p: Params, i: int) -> InodeView {
    let l = groups_of(root, p);
    let items = items_of(root);
    let lf = lost_found(items, 1);
    let time = p.timestamp as int;
    inode_view(
        items[i].node,
        placed_of(l, items, lf, i, time),
        attached_of(l, items, lf, i, time),
        sectors_at(l, items, lf, i, time),
        time,
    )
}

/// The reader finds the inode of item `i`.
proof fn lemma_item_inode(root: Node, p: Params, i: int)
    requires
        writable(root, p),
        0 <= i < items_of(root).len(),
    ensures
        ({
            let l = groups_of(root, p);
            let items = items_of(root);
            let lf = lost_found(items, 1);
            let time = p.timestamp as int;
            let img = image_of(root, p);
            &&& inode_at(img, inode_number(root, i)) == Ok::<InodeView, Error>(view_of(root, p, i))
            &&& shows(img, l, placed_of(l, items, lf, i, time).data)
            &&& shows(img, l, attached_of(l, items, lf, i, time).data)
        }),
{
    lemma_writable(root, p);
    let l = groups_of(root, p);
    let c = laid_out(root, p)->Ok_0.content;
    let items = items_of(root);
    let lf = c.lf;
    let time = p.timestamp as int;
    let img = image_of(root, p);
    lemma_bounds(l);
    lemma_written(l, items, lf, i, time);
    lemma_shows(l, p, c);
    let b = before(l, items, lf, i, time);
    let pl = placed_of(l, items, lf, i, time);
    let a = attached_of(l, items, lf, i, time);
    lemma_shows_prefix(img, l, pl.data, c.image.data);
    lemma_shows_prefix(img, l, a.data, c.image.data);
    let ino = ino_of(lf, i);
    lemma_inode_at(l, p, c, ino);
    lemma_placed_kinds(l, b.data, items[i].node, dir_data(items, lf, i, l.bs));
    crate::fs::mkext4::image::lemma_rooms(l, l.groups);
    lemma_sectors(b.data, a.data, l.bs, capacity(l));
    lemma_acl(l, pl.data, attrs_of(items[i].node));
    let sectors = sectors_at(l, items, lf, i, time);
    lemma_inode_reads(img, items[i].node, pl, a, sectors, time);
}

/// The number of an xattr block.
proof fn lemma_acl(l: Groups, data: Seq<u8>, attrs: Seq<Attr>)
    requires
        well_formed(l),
        data_ok(l, data),
        attached(l, data, attrs) is Ok,
    ensures
        0 <= attached(l, data, attrs)->Ok_0.acl <= u32::MAX,
        attrs.len() > 0 && !fits(attrs, 0, 92) ==> attached(l, data, attrs)->Ok_0.acl != 0,
{
    reveal(attached);
    lemma_bounds(l);
    if attrs.len() > 0 && !fits(attrs, 0, 92) {
        let k = data.len() as int / l.bs;
        assert(0 <= k) by (nonlinear_arith)
            requires
                k == data.len() as int / l.bs,
                0 < l.bs,
        ;
        lemma_home(l, k);
        crate::fs::mkext4::layout::lemma_group(l, crate::fs::mkext4::layout::home(l, k));
    }
}

/// Files whose block numbers fit in an extent.
pub open spec fn good_sizes(root: Node, bs: int) -> bool {
    forall|i: int|
        0 <= i < items_of(root).len() && (#[trigger] items_of(root)[i]).node.kind is File
            ==> ceil_div(
            content_of(items_of(root)[i].node, Seq::empty()).len() as int,
            bs,
        ) <= 0x1_0000_0000
}

/// Content that is not in the inode reads back.
proof fn lemma_item_data(root: Node, p: Params, i: int)
    requires
        writable(root, p),
        good_sizes(root, p.block_size as int),
        0 <= i < items_of(root).len(),
        ({
            let items = items_of(root);
            let c = content_of(
                items[i].node,
                dir_data(items, lost_found(items, 1), i, p.block_size as int),
            );
            !(items[i].node.kind is Symlink && c.len() < 60)
        }),
    ensures
        ({
            let items = items_of(root);
            data_of(image_of(root, p), view_of(root, p, i), Seq::empty()) == Ok::<Seq<u8>, Error>(
                content_of(
                    items[i].node,
                    dir_data(items, lost_found(items, 1), i, p.block_size as int),
                ),
            )
        }),
{
    lemma_writable(root, p);
    lemma_item_inode(root, p, i);
    let l = groups_of(root, p);
    let items = items_of(root);
    let lf = lost_found(items, 1);
    let time = p.timestamp as int;
    let img = image_of(root, p);
    lemma_bounds(l);
    lemma_bs(root, p);
    lemma_written(l, items, lf, i, time);
    let b = before(l, items, lf, i, time);
    let node = items[i].node;
    let dir = dir_data(items, lf, i, l.bs);
    lemma_placed_kinds(l, b.data, node, dir);
    let c = content_of(node, dir);
    if node.kind is File {
        assert(items[i].node.kind is File);
        assert(content_of(node, dir) == content_of(node, Seq::empty()));
    }
    lemma_mapped_reads(img, l, b.data, c, node.kind is File, view_of(root, p, i), Seq::empty());
}

proof fn lemma_bs(root: Node, p: Params)
    requires
        writable(root, p),
    ensures
        groups_of(root, p).bs == p.block_size,
{
    crate::fs::mkext4::size::lemma_laid(
        p.block_size as int,
        p.blocks as int,
        min_inodes(root, p),
    );
}

/// Labels without a NUL.
pub open spec fn plain_label(node: Node) -> bool {
    match node.selinux {
        Some(l) => !encode_utf8(l@).contains(0u8),
        None => true,
    }
}

/// Xattrs that were attached have short labels.
proof fn lemma_label_len(l: Groups, data: Seq<u8>, node: Node)
    requires
        supported(l.bs),
        attached(l, data, attrs_of(node)) is Ok,
        plain_label(node),
    ensures
        good_label(node),
{
    reveal(attached);
    let attrs = attrs_of(node);
    if let Some(s) = node.selinux {
        assert(attrs[0].value == encode_utf8(s@).push(0));
        lemma_lens_mono(attrs, 1, attrs.len() as int);
        lemma_lens_mono(attrs, 0, attrs.len() as int);
        assert(values_len(attrs, 1) >= attrs[0].value.len()) by {
            assert(values_len(attrs, 0) == 0);
        }
    }
}

/// The metadata of every node reads back: its kind, permissions, owner, time
/// and size, its label and its capabilities, from the inode or from a block
/// of its own. It holds of every node whose own label has no NUL.
pub proof fn metadata_reads_back(root: Node, p: Params, i: int)
    requires
        writable(root, p),
        0 <= i < items_of(root).len(),
        plain_label(items_of(root)[i].node),
    ensures
        ({
            let node = items_of(root)[i].node;
            meta_of(image_of(root, p), inode_number(root, i)) == Ok::<MetaView, Error>(
                MetaView {
                    kind: node_kind(node),
                    mode: (node.mode % 0x1000) as int,
                    uid: node.uid as int,
                    gid: node.gid as int,
                    mtime: signed32(p.timestamp as int),
                    size: view_of(root, p, i).size,
                    selinux: text_view(node.selinux),
                    capabilities: node.capabilities,
                },
            )
        }),
{
    lemma_writable(root, p);
    lemma_item_inode(root, p, i);
    let l = groups_of(root, p);
    let items = items_of(root);
    let lf = lost_found(items, 1);
    let time = p.timestamp as int;
    let img = image_of(root, p);
    let node = items[i].node;
    let attrs = attrs_of(node);
    lemma_bounds(l);
    lemma_written(l, items, lf, i, time);
    let pl = placed_of(l, items, lf, i, time);
    lemma_acl(l, pl.data, attrs);
    lemma_modest(node);
    let v = view_of(root, p, i);
    assert(attrs.len() > 0 && !fits(attrs, 0, 92) ==> nth_block(l, pl.data.len() as int / l.bs)
        != 0) by {
        reveal(attached);
    }
    lemma_attached_reads(img, l, pl.data, attrs, v, Seq::empty());
    lemma_label_len(l, pl.data, node);
    lemma_security(node);
    assert(kind_of(mode_of(node)) == Ok::<Kind, Error>(node_kind(node)));
    assert(mode_of(node) % 0x1000 == node.mode % 0x1000);
    assert(all_seen(attrs).len() == attrs.len());
}

proof fn lemma_modest(node: Node)
    ensures
        modest(attrs_of(node)),
{
    let a = attrs_of(node);
    assert forall|k: int| 0 <= k < a.len() implies 0 < (#[trigger] a[k]).name.len() <= 255 by {
        assert(a[k].name == selinux_name() || a[k].name == capability_name());
    }
}

/// Names that no directory lists: "." and "..".
pub open spec fn good_names(root: Node) -> bool {
    forall|i: int|
        0 < i < items_of(root).len() ==> !is_dot((#[trigger] items_of(root)[i]).node.name@)
}

/// What the reader lists for directory `i`.
pub open spec fn listing(items: Seq<Numbered>, lf: int, i: int) -> Seq<(Seq<u8>, u32)> {
    Seq::new(
        kids_of(items[i].node).len(),
        |k: int|
            (kid(items[i].node, k).name@, ino_of(lf, items[i].first + k) as u32),
    )
}

/// The entries of a directory are listed without "." and "..".
proof fn lemma_entries_listed(items: Seq<Numbered>, lf: int, i: int)
    requires
        sound(items, lf),
        items.len() + 16 <= u32::MAX,
        0 <= i < items.len(),
        forall|k: int| 0 < k < items.len() ==> !is_dot((#[trigger] items[k]).node.name@),
    ensures
        names_fit(entries_of(items, lf, i)),
        numbered_well(entries_of(items, lf, i)),
        listed(
            entries_of(items, lf, i),
            0,
            entries_of(items, lf, i).len() as int,
        ) == listing(items, lf, i),
{
    let e = entries_of(items, lf, i);
    let c = kid_entries(items, lf, i);
    let n = e.len() as int;
    assert(rooted(items, i));
    lemma_item_kids(items, i);
    lemma_names_fit(items, lf, i);
    assert forall|k: int| 0 <= k < n implies (#[trigger] e[k]).name.len() <= 255 && 0 < e[k].ino
        <= u32::MAX && (k >= 2 ==> e[k] == c[k - 2] && !is_dot(e[k].name)) by {
        if k >= 2 {
            assert(e[k] == c[k - 2]);
            assert(c[k - 2].name.len() <= 255);
            let x = items[i].first + (k - 2);
            assert(items[x].node == kid(items[i].node, k - 2));
            assert(!is_dot(items[x].node.name@));
        } else {
            assert(0 <= items[i].parent < items.len());
        }
    }
    assert(is_dot(e[0].name));
    assert(is_dot(e[1].name));
    reveal_with_fuel(listed, 3);
    lemma_all_listed(e, 2, n);
    assert(listed(e, 0, n) =~= listed(e, 2, n));
    assert forall|k: int| 0 <= k < n - 2 implies #[trigger] listing(items, lf, i)[k] == (
        e[2 + k].name,
        e[2 + k].ino as u32,
    ) by {
        assert(e[2 + k] == c[k]);
    }
    assert(listed(e, 0, n) =~= listing(items, lf, i));
}

/// The reader lists directory `i`.
proof fn lemma_item_dir(root: Node, p: Params, i: int)
    requires
        writable(root, p),
        good_names(root),
        good_sizes(root, p.block_size as int),
        0 <= i < items_of(root).len(),
        items_of(root)[i].node.kind is Dir,
    ensures
        dir_of(image_of(root, p), inode_number(root, i)) == Ok::<Seq<(Seq<u8>, u32)>, Error>(
            listing(items_of(root), lost_found(items_of(root), 1), i),
        ),
{
    lemma_writable(root, p);
    lemma_item_inode(root, p, i);
    lemma_item_data(root, p, i);
    let l = groups_of(root, p);
    let items = items_of(root);
    let lf = lost_found(items, 1);
    let img = image_of(root, p);
    let node = items[i].node;
    lemma_bounds(l);
    lemma_bs(root, p);
    lemma_written(l, items, lf, i, p.timestamp as int);
    lemma_placed_kinds(
        l,
        before(l, items, lf, i, p.timestamp as int).data,
        node,
        dir_data(items, lf, i, l.bs),
    );
    lemma_reader(l, p, laid_out(root, p)->Ok_0.content);
    lemma_entries_listed(items, lf, i);
    let e = entries_of(items, lf, i);
    let min: int = if i == lf {
        16384
    } else {
        0
    };
    reveal(dir_data);
    assert(dir_data(items, lf, i, l.bs) == dir_content(e, l.bs, min));
    lemma_content_lists(e, l.bs, min);
    let v = view_of(root, p, i);
    assert(v.mode / 0x1000 == 4);
    let flags: u32 = v.flags;
    assert(flags & 0x1000_0000 == 0) by (bit_vector)
        requires
            flags == 0x80000,
    ;
}

/// The reader finds the target of symlink `i`.
proof fn lemma_item_link(root: Node, p: Params, i: int)
    requires
        writable(root, p),
        good_sizes(root, p.block_size as int),
        0 <= i < items_of(root).len(),
        items_of(root)[i].node.kind is Symlink,
    ensures
        link_of(image_of(root, p), inode_number(root, i)) == Ok::<Seq<u8>, Error>(
            items_of(root)[i].node.kind->Symlink_0@,
        ),
{
    lemma_writable(root, p);
    lemma_item_inode(root, p, i);
    let l = groups_of(root, p);
    let items = items_of(root);
    let lf = lost_found(items, 1);
    let time = p.timestamp as int;
    let img = image_of(root, p);
    let node = items[i].node;
    let dir = dir_data(items, lf, i, l.bs);
    lemma_bounds(l);
    lemma_bs(root, p);
    lemma_written(l, items, lf, i, time);
    let b = before(l, items, lf, i, time);
    let pl = placed_of(l, items, lf, i, time);
    lemma_placed_kinds(l, b.data, node, dir);
    lemma_reader(l, p, laid_out(root, p)->Ok_0.content);
    let v = view_of(root, p, i);
    let t = node.kind->Symlink_0@;
    let flags: u32 = v.flags;
    if t.len() < 60 {
        assert(flags & 0x1008_0000 == 0) by (bit_vector)
            requires
                flags == 0,
        ;
        lemma_fast_sectors(l, b.data, attrs_of(node));
        lemma_acl(l, pl.data, attrs_of(node));
        assert(fast_link(img, v));
        assert(pl.block.take(pl.size) =~= t);
    } else {
        lemma_item_data(root, p, i);
        assert(flags & 0x1008_0000 != 0) by (bit_vector)
            requires
                flags == 0x80000,
        ;
        assert(!fast_link(img, v));
    }
}

/// Only an xattr block adds to the sectors of a short symlink.
proof fn lemma_fast_sectors(l: Groups, data: Seq<u8>, attrs: Seq<Attr>)
    requires
        supported(l.bs),
        data_ok(l, data),
        attached(l, data, attrs) is Ok,
    ensures
        ({
            let a = attached(l, data, attrs)->Ok_0;
            sectors_of(data, a.data, l.bs) <= (if attrs.len() > 0 && !fits(attrs, 0, 92) {
                l.bs / 512
            } else {
                0
            })
        }),
{
    reveal(attached);
    let bs = l.bs;
    assert(0int / bs * (bs / 512) == 0) by {
        assert(0int / bs == 0) by (nonlinear_arith)
            requires
                0 < bs,
        ;
        assert(0 * (bs / 512) == 0) by (nonlinear_arith);
    }
    if attrs.len() > 0 && !fits(attrs, 0, 92) {
        let b = crate::fs::mkext4::xattrs::block_bytes(attrs, bs);
        crate::fs::mkext4::xattrs::lemma_lens(attrs, attrs.len() as int, bs, true);
        assert(b.len() == bs);
        assert(bs / bs == 1) by (nonlinear_arith)
            requires
                0 < bs,
        ;
        assert(1 * (bs / 512) == bs / 512) by (nonlinear_arith);
    }
}

/// What the reader gives for the node with inode `ino` is `node`, with
/// everything below it: the metadata (the time is the build time), the
/// content, and the children in the order of their names.
pub open spec fn reads_as(image: Seq<u8>, ino: int, node: Node, time: int) -> bool
    decreases node,
{
    &&& meta_of(image, ino) matches Ok(m) && {
        &&& m.kind == node_kind(node)
        &&& m.mode == node.mode % 0x1000
        &&& m.uid == node.uid
        &&& m.gid == node.gid
        &&& m.mtime == signed32(time)
        &&& m.selinux == text_view(node.selinux)
        &&& m.capabilities == node.capabilities
    }
    &&& match node.kind {
        NodeKind::File { data } => file_of(image, ino) == Ok::<Seq<u8>, Error>(data@),
        NodeKind::Symlink(target) => link_of(image, ino) == Ok::<Seq<u8>, Error>(target@),
        NodeKind::Dir(ch) => {
            &&& dir_of(image, ino) is Ok
            &&& dir_of(image, ino)->Ok_0.len() == ch@.len()
            &&& forall|k: int|
                0 <= k < ch@.len() && 0 <= #[trigger] kids_of(node)[k] < ch@.len() ==> {
                    let entry = dir_of(image, ino)->Ok_0[k];
                    let child = ch@[kids_of(node)[k]];
                    &&& entry.0 == child.name@
                    &&& reads_as(image, entry.1 as int, child, time)
                }
        },
    }
}

/// Labels that read back.
pub open spec fn plain_labels(root: Node) -> bool {
    forall|i: int| 0 <= i < items_of(root).len() ==> plain_label((#[trigger] items_of(root)[i]).node)
}

proof fn lemma_reads_as(root: Node, p: Params, i: int, node: Node)
    requires
        writable(root, p),
        good_names(root),
        plain_labels(root),
        good_sizes(root, p.block_size as int),
        0 <= i < items_of(root).len(),
        items_of(root)[i].node == node,
    ensures
        reads_as(image_of(root, p), inode_number(root, i), node, p.timestamp as int),
    decreases node,
{
    let items = items_of(root);
    let lf = lost_found(items, 1);
    let img = image_of(root, p);
    let ino = inode_number(root, i);
    lemma_writable(root, p);
    assert(plain_label(items[i].node));
    metadata_reads_back(root, p, i);
    match node.kind {
        NodeKind::Dir(ch) => {
            lemma_kids(node);
            lemma_item_dir(root, p, i);
            assert(rooted(items, i));
            lemma_item_kids(items, i);
            let seen = listing(items, lf, i);
            assert forall|k: int|
                0 <= k < ch@.len() && 0 <= #[trigger] kids_of(node)[k] < ch@.len() implies ({
                let entry = dir_of(img, ino)->Ok_0[k];
                let child = ch@[kids_of(node)[k]];
                &&& entry.0 == child.name@
                &&& reads_as(img, entry.1 as int, child, p.timestamp as int)
            }) by {
                let x = items[i].first + k;
                assert(items[x].node == kid(node, k));
                lemma_reads_as(root, p, x, ch@[kids_of(node)[k]]);
                assert(seen[k] == (kid(node, k).name@, ino_of(lf, x) as u32));
            }
        },
        NodeKind::File { data } => {
            lemma_item_inode(root, p, i);
            lemma_item_data(root, p, i);
        },
        NodeKind::Symlink(t) => {
            lemma_item_link(root, p, i);
        },
    }
}

/// An image has as many bytes as its blocks have.
pub proof fn ext4_image_length(root: Node, p: Params)
    requires
        writable(root, p),
    ensures
        image_of(root, p).len() == groups_of(root, p).blocks * p.block_size,
{
    lemma_writable(root, p);
    let l = groups_of(root, p);
    lemma_layout_blocks(p.block_size as int, p.blocks as int, min_inodes(root, p));
    lemma_bounds(l);
    lemma_upto_len(l, p, laid_out(root, p)->Ok_0.content, l.groups);
}

/// Reading an image gives back the tree that it was written from: names,
/// permissions, owners, labels, capabilities, contents and link targets. It
/// holds of every tree that can be written, with no node named "." or "..",
/// no NUL in a label, and block numbers that fit in an extent.
pub proof fn ext4_round_trip(root: Node, p: Params)
    requires
        writable(root, p),
        good_names(root),
        plain_labels(root),
        good_sizes(root, p.block_size as int),
    ensures
        open_fault(image_of(root, p)) is None,
        reads_as(image_of(root, p), 2, root, p.timestamp as int),
{
    lemma_writable(root, p);
    lemma_reader(groups_of(root, p), p, laid_out(root, p)->Ok_0.content);
    lemma_reads_as(root, p, 0, root);
}

} // verus!
