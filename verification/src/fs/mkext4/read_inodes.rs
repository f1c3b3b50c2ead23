//! The inodes of a written image, as the reader sees them.
use vstd::prelude::*;
use crate::bytes::{bytes16, bytes32, le16, le32, lemma_bytes16, lemma_bytes32, zero_seq};
use crate::error::Error;
use crate::fs::ext4::{block_at, entry_name, extra_isize, inner_xattrs, inode_in, lemma_plain_value,
    lemma_xattrs_end, lemma_xattrs_join, lemma_xattrs_step, outer_xattrs, prefix_text, round_up_4,
    signed32, xattrs_from, xattrs_of, InodeView};
use crate::fs::mkerofs::mode_of;
use crate::fs::mkerofs::read_meta::{all_seen, seen};
use crate::fs::mkext4::extents::data_ok;
use crate::fs::mkext4::inode::{attached, inode_bytes, inode_head, inode_rest, Attached, Placed};
use crate::fs::mkext4::layout::{nth_block, supported, Groups};
use crate::fs::mkext4::read_extents::{lemma_block, lemma_last_block, shows};
use crate::fs::mkext4::xattrs::{area, block_bytes, entries, entries_len, entry_bytes, fits,
    lemma_lens, lemma_lens_mono, pad4, values, values_len};
use crate::fs::mkext4::Node;
use crate::fs::xattr::Attr;
use crate::text::text_of;

verus! {

broadcast use crate::bytes::group_byte_lens;

/// Entry `k` stands behind the entries before it.
proof fn lemma_entry_at(attrs: Seq<Attr>, k: int, n: int, len: int, hashed: bool)
    requires
        0 <= k < n <= attrs.len(),
    ensures
        0 <= entries_len(attrs, k) <= entries_len(attrs, k + 1) <= entries(attrs, n, len, hashed).len(),
        entries(attrs, n, len, hashed).subrange(entries_len(attrs, k), entries_len(attrs, k + 1))
            == entry_bytes(attrs, k, len, hashed),
    decreases n,
{
    lemma_lens(attrs, n, len, hashed);
    lemma_lens(attrs, n - 1, len, hashed);
    lemma_lens(attrs, k, len, hashed);
    let a = entries(attrs, n - 1, len, hashed);
    let b = entries(attrs, n, len, hashed);
    let from = entries_len(attrs, k);
    let to = entries_len(attrs, k + 1);
    if k < n - 1 {
        lemma_entry_at(attrs, k, n - 1, len, hashed);
        assert(b.subrange(from, to) =~= a.subrange(from, to));
    } else {
        assert(b.subrange(from, to) =~= entry_bytes(attrs, k, len, hashed));
    }
}

/// Value `k` stands before the values of the xattrs before it.
proof fn lemma_value_at(attrs: Seq<Attr>, k: int, n: int)
    requires
        0 <= k < n <= attrs.len(),
    ensures
        ({
            let from = values_len(attrs, n) - values_len(attrs, k + 1);
            &&& 0 <= from
            &&& from + attrs[k].value.len() <= values(attrs, n).len()
            &&& values(attrs, n).subrange(from, from + attrs[k].value.len()) == attrs[k].value
        }),
    decreases n,
{
    lemma_lens(attrs, n, 0, false);
    lemma_lens(attrs, n - 1, 0, false);
    lemma_lens(attrs, k, 0, false);
    let v = attrs[n - 1].value;
    let a = values(attrs, n - 1);
    let b = values(attrs, n);
    let from = values_len(attrs, n) - values_len(attrs, k + 1);
    let m = attrs[k].value.len() as int;
    if k < n - 1 {
        lemma_value_at(attrs, k, n - 1);
        let old_from = values_len(attrs, n - 1) - values_len(attrs, k + 1);
        assert(b.subrange(from, from + m) =~= a.subrange(old_from, old_from + m));
    } else {
        assert(b.subrange(from, from + m) =~= v);
    }
}

/// Xattrs whose lengths the fields of an entry can hold.
pub open spec fn modest(attrs: Seq<Attr>) -> bool {
    forall|k: int| 0 <= k < attrs.len() ==> 0 < (#[trigger] attrs[k]).name.len() <= 255
}

/// The fields of an entry.
proof fn lemma_entry_fields(attrs: Seq<Attr>, k: int, len: int, hashed: bool)
    requires
        modest(attrs),
        0 <= k < attrs.len(),
        0 <= len - values_len(attrs, k + 1) <= 0xFFFF,
        attrs[k].value.len() <= 0xFFFF,
    ensures
        ({
            let b = entry_bytes(attrs, k, len, hashed);
            let a = attrs[k];
            &&& b.len() == 16 + pad4(a.name.len() as int)
            &&& b[0] == a.name.len()
            &&& b[1] == 6
            &&& le16(b, 2) == len - values_len(attrs, k + 1)
            &&& le32(b, 4) == 0
            &&& le32(b, 8) == a.value.len()
            &&& b.subrange(16, 16int + a.name.len()) == a.name
        }),
{
    let b = entry_bytes(attrs, k, len, hashed);
    let a = attrs[k];
    let offs = len - values_len(attrs, k + 1);
    lemma_bytes16(offs);
    lemma_bytes32(0);
    lemma_bytes32(a.value.len() as int);
    assert(le16(b, 2) == le16(bytes16(offs), 0));
    assert(le32(b, 4) == le32(bytes32(0), 0));
    assert(le32(b, 8) == le32(bytes32(a.value.len() as int), 0));
    assert(b.subrange(16, 16int + a.name.len()) =~= a.name);
}

/// Entry and value `k` of an area.
proof fn lemma_area_parts(
    attrs: Seq<Attr>,
    at: int,
    len: int,
    hashed: bool,
    vals: Seq<u8>,
    k: int,
)
    requires
        modest(attrs),
        0 <= at <= len <= 0xFFFF,
        fits(attrs, at, len),
        vals.len() == len,
        vals.skip(at) == area(attrs, at, len, hashed),
        0 <= k < attrs.len(),
    ensures
        ({
            let ar = area(attrs, at, len, hashed);
            let i = entries_len(attrs, k);
            let a = attrs[k];
            let offs = len - values_len(attrs, k + 1);
            let size = a.value.len() as int;
            &&& 0 <= i
            &&& i + 16 + pad4(a.name.len() as int) <= ar.len()
            &&& 0 <= offs
            &&& offs + size <= len
            &&& size <= 0xFFFF
            &&& ar.subrange(i, i + 16 + pad4(a.name.len() as int)) == entry_bytes(
                attrs,
                k,
                len,
                hashed,
            )
            &&& vals.subrange(offs, offs + size) == a.value
        }),
{
    let n = attrs.len() as int;
    let ar = area(attrs, at, len, hashed);
    let i = entries_len(attrs, k);
    lemma_lens(attrs, n, len, hashed);
    lemma_lens_mono(attrs, k + 1, n);
    lemma_lens_mono(attrs, 0, k);
    lemma_entry_at(attrs, k, n, len, hashed);
    lemma_value_at(attrs, k, n);
    let es = entries(attrs, n, len, hashed);
    let vs = values(attrs, n);
    let a = attrs[k];
    let b = entry_bytes(attrs, k, len, hashed);
    let offs = len - values_len(attrs, k + 1);
    let size = a.value.len() as int;
    let from = values_len(attrs, n) - values_len(attrs, k + 1);
    let j = i + 16 + pad4(a.name.len() as int);
    assert(ar.subrange(i, j) =~= b) by {
        assert forall|t: int| 0 <= t < j - i implies #[trigger] ar.subrange(i, j)[t] == es.subrange(
            i,
            j,
        )[t] by {}
        assert(ar.subrange(i, j) =~= es.subrange(i, j));
    }
    assert(vals.subrange(offs, offs + size) =~= a.value) by {
        assert forall|t: int| 0 <= t < size implies #[trigger] vals.subrange(offs, offs + size)[t]
            == a.value[t] by {
            assert(vs.subrange(from, from + size)[t] == vs[from + t]);
            assert(ar[len - at - values_len(attrs, n) + (from + t)] == vs[from + t]);
            assert(vals.skip(at)[offs - at + t] == vals[offs + t]);
        }
    }
}

/// The numbers at the front of a part of an area.
proof fn lemma_same_numbers(ar: Seq<u8>, b: Seq<u8>, i: int)
    requires
        0 <= i,
        16 <= b.len(),
        i + b.len() <= ar.len(),
        forall|t: int| 0 <= t < b.len() ==> #[trigger] b[t] == ar[i + t],
    ensures
        ar[i] == b[0],
        le32(ar, i) == le32(b, 0),
        le16(ar, i + 2) == le16(b, 2),
        le32(ar, i + 4) == le32(b, 4),
        le32(ar, i + 8) == le32(b, 8),
{
    assert(b[0] == ar[i] && b[1] == ar[i + 1]);
    assert(b[2] == ar[i + 2] && b[3] == ar[i + 3]);
    assert(b[4] == ar[i + 4] && b[5] == ar[i + 5] && b[6] == ar[i + 6] && b[7] == ar[i + 7]);
    assert(b[8] == ar[i + 8] && b[9] == ar[i + 9] && b[10] == ar[i + 10] && b[11] == ar[i + 11]);
}

/// The fields of entry `k` of an area.
proof fn lemma_area_fields(
    attrs: Seq<Attr>,
    at: int,
    len: int,
    hashed: bool,
    vals: Seq<u8>,
    k: int,
)
    requires
        modest(attrs),
        0 <= at <= len <= 0xFFFF,
        fits(attrs, at, len),
        vals.len() == len,
        vals.skip(at) == area(attrs, at, len, hashed),
        0 <= k < attrs.len(),
    ensures
        ({
            let ar = area(attrs, at, len, hashed);
            let i = entries_len(attrs, k);
            let a = attrs[k];
            &&& 0 <= i
            &&& i + 16 + a.name.len() <= ar.len()
            &&& ar[i] == a.name.len()
            &&& le32(ar, i) != 0
            &&& entry_name(ar, i) == "security."@ + text_of(a.name)
            &&& le32(ar, i + 4) == 0
            &&& le16(ar, i + 2) + le32(ar, i + 8) <= vals.len()
            &&& vals.subrange(le16(ar, i + 2), le16(ar, i + 2) + le32(ar, i + 8)) == a.value
            &&& i + round_up_4(16 + ar[i]) == entries_len(attrs, k + 1)
        }),
{
    lemma_area_parts(attrs, at, len, hashed, vals, k);
    lemma_entry_fields(attrs, k, len, hashed);
    let ar = area(attrs, at, len, hashed);
    let i = entries_len(attrs, k);
    let a = attrs[k];
    let b = entry_bytes(attrs, k, len, hashed);
    let j = i + 16 + pad4(a.name.len() as int);
    assert forall|t: int| 0 <= t < b.len() implies #[trigger] b[t] == ar[i + t] by {
        assert(ar.subrange(i, j)[t] == ar[i + t]);
    }
    lemma_same_numbers(ar, b, i);
    assert(ar.subrange(i + 16, i + 16 + a.name.len()) =~= b.subrange(16, 16int + a.name.len()));
    assert(prefix_text(6) == "security."@);
}

/// The xattrs of an area read back, from number `k` on.
proof fn lemma_area_reads(
    img: Seq<u8>,
    attrs: Seq<Attr>,
    at: int,
    len: int,
    hashed: bool,
    vals: Seq<u8>,
    k: int,
    path: Seq<int>,
)
    requires
        modest(attrs),
        0 <= at <= len <= 0xFFFF,
        fits(attrs, at, len),
        vals.len() == len,
        vals.skip(at) == area(attrs, at, len, hashed),
        0 <= k <= attrs.len(),
    ensures
        xattrs_from(
            img,
            area(attrs, at, len, hashed),
            vals,
            entries_len(attrs, k),
            path,
        ) == Ok::<Seq<(Seq<char>, Seq<u8>)>, Error>(all_seen(attrs).skip(k)),
    decreases attrs.len() - k,
{
    let n = attrs.len() as int;
    let ar = area(attrs, at, len, hashed);
    let i = entries_len(attrs, k);
    let x = all_seen(attrs);
    if k >= n {
        lemma_lens(attrs, n, len, hashed);
        assert(ar[i] == 0 && ar[i + 1] == 0 && ar[i + 2] == 0 && ar[i + 3] == 0);
        lemma_xattrs_end(img, ar, vals, i, path);
        assert(x.skip(k) =~= Seq::<(Seq<char>, Seq<u8>)>::empty());
    } else {
        lemma_area_reads(img, attrs, at, len, hashed, vals, k + 1, path);
        lemma_area_fields(attrs, at, len, hashed, vals, k);
        lemma_plain_value(img, ar, vals, i, path);
        lemma_xattrs_step(img, ar, vals, i, path);
        assert(seq![seen(attrs[k])] + x.skip(k + 1) =~= x.skip(k));
    }
}

/// Xattrs in an inode.
proof fn lemma_inner_reads(img: Seq<u8>, attrs: Seq<Attr>, inode: InodeView, path: Seq<int>)
    requires
        modest(attrs),
        fits(attrs, 0, 92),
        inode.xattr_area == bytes32(0xEA02_0000) + area(attrs, 0, 92, false),
    ensures
        inner_xattrs(img, inode, path) == Ok::<Seq<(Seq<char>, Seq<u8>)>, Error>(all_seen(attrs)),
{
    let ar = area(attrs, 0, 92, false);
    let h = inode.xattr_area;
    lemma_lens(attrs, attrs.len() as int, 92, false);
    lemma_bytes32(0xEA02_0000);
    assert(le32(h, 0) == le32(bytes32(0xEA02_0000), 0));
    assert(h.skip(4) =~= ar);
    assert(ar.skip(0) =~= ar);
    lemma_area_reads(img, attrs, 0, 92, false, ar, 0, path);
    assert(all_seen(attrs).skip(0) =~= all_seen(attrs));
    assert(entries_len(attrs, 0) == 0);
    reveal(inner_xattrs);
}

/// No xattrs in an inode.
proof fn lemma_no_inner(img: Seq<u8>, inode: InodeView, path: Seq<int>)
    requires
        inode.xattr_area == zero_seq(96),
    ensures
        inner_xattrs(img, inode, path) == Ok::<Seq<(Seq<char>, Seq<u8>)>, Error>(Seq::empty()),
{
    let z = zero_seq(96);
    assert(z[0] == 0 && z[1] == 0 && z[2] == 0 && z[3] == 0);
    reveal(inner_xattrs);
}

/// Xattrs in a block of their own.
proof fn lemma_outer_reads(
    img: Seq<u8>,
    attrs: Seq<Attr>,
    bs: int,
    inode: InodeView,
    path: Seq<int>,
)
    requires
        supported(bs),
        modest(attrs),
        fits(attrs, 32, bs),
        inode.file_acl != 0,
        block_at(img, inode.file_acl) == Ok::<Seq<u8>, Error>(block_bytes(attrs, bs)),
    ensures
        outer_xattrs(img, inode, path) == Ok::<Seq<(Seq<char>, Seq<u8>)>, Error>(all_seen(attrs)),
{
    let b = block_bytes(attrs, bs);
    let ar = area(attrs, 32, bs, true);
    lemma_lens(attrs, attrs.len() as int, bs, true);
    lemma_bytes32(0xEA02_0000);
    assert(le32(b, 0) == le32(bytes32(0xEA02_0000), 0));
    assert(b.skip(32) =~= ar);
    lemma_area_reads(img, attrs, 32, bs, true, b, 0, path);
    assert(all_seen(attrs).skip(0) =~= all_seen(attrs));
    assert(entries_len(attrs, 0) == 0);
    reveal(outer_xattrs);
}

proof fn lemma_no_outer(img: Seq<u8>, inode: InodeView, path: Seq<int>)
    requires
        inode.file_acl == 0,
    ensures
        outer_xattrs(img, inode, path) == Ok::<Seq<(Seq<char>, Seq<u8>)>, Error>(Seq::empty()),
{
    reveal(outer_xattrs);
}

/// Xattrs that were attached read back.
pub proof fn lemma_attached_reads(
    img: Seq<u8>,
    l: Groups,
    data: Seq<u8>,
    attrs: Seq<Attr>,
    inode: InodeView,
    path: Seq<int>,
)
    requires
        supported(l.bs),
        data_ok(l, data),
        modest(attrs),
        attached(l, data, attrs) is Ok,
        shows(img, l, attached(l, data, attrs)->Ok_0.data),
        inode.xattr_area == attached(l, data, attrs)->Ok_0.area,
        inode.file_acl == attached(l, data, attrs)->Ok_0.acl,
        attrs.len() > 0 && !fits(attrs, 0, 92) ==> nth_block(l, data.len() as int / l.bs) != 0,
    ensures
        xattrs_of(img, inode, path) == Ok::<Seq<(Seq<char>, Seq<u8>)>, Error>(all_seen(attrs)),
{
    let n = attrs.len() as int;
    let x = all_seen(attrs);
    let none = Seq::<(Seq<char>, Seq<u8>)>::empty();
    assert(x + none =~= x);
    assert(none + x =~= x);
    if n == 0 {
        reveal(attached);
        assert(x =~= none);
        lemma_no_inner(img, inode, path);
        lemma_no_outer(img, inode, path);
        lemma_xattrs_join(img, inode, path, none, x);
    } else if fits(attrs, 0, 92) {
        reveal(attached);
        lemma_inner_reads(img, attrs, inode, path);
        lemma_no_outer(img, inode, path);
        lemma_xattrs_join(img, inode, path, x, none);
    } else {
        reveal(attached);
        let b = block_bytes(attrs, l.bs);
        lemma_lens(attrs, n, l.bs, true);
        lemma_last_block(l, data, b);
        let k = data.len() as int / l.bs;
        assert(0 <= k) by (nonlinear_arith)
            requires
                k == data.len() as int / l.bs,
                0 < l.bs,
        ;
        lemma_block(img, l, data + b, k);
        lemma_no_inner(img, inode, path);
        lemma_outer_reads(img, attrs, l.bs, inode, path);
        lemma_xattrs_join(img, inode, path, none, x);
    }
}

/// The front of an inode.
proof fn lemma_head(node: Node, size: int, sectors: int, flags: int, time: int)
    requires
        0 <= size,
        0 <= sectors,
        0 <= flags <= u32::MAX,
        0 <= time <= u32::MAX,
    ensures
        ({
            let h = inode_head(node, size, sectors, flags, time);
            &&& h.len() == 40
            &&& le16(h, 0) == mode_of(node)
            &&& le16(h, 2) == node.uid % 0x1_0000
            &&& le32(h, 4) == size % 0x1_0000_0000
            &&& le32(h, 0x10) == time
            &&& le16(h, 0x18) == node.gid % 0x1_0000
            &&& le32(h, 0x1C) == sectors % 0x1_0000_0000
            &&& le32(h, 0x20) == flags
        }),
{
    let h = inode_head(node, size, sectors, flags, time);
    lemma_bytes16(mode_of(node));
    lemma_bytes16((node.uid % 0x1_0000) as int);
    lemma_bytes16((node.gid % 0x1_0000) as int);
    lemma_bytes32(size % 0x1_0000_0000);
    lemma_bytes32(time);
    lemma_bytes32(sectors % 0x1_0000_0000);
    lemma_bytes32(flags);
    assert(le16(h, 0) == le16(bytes16(mode_of(node)), 0));
    assert(le16(h, 2) == le16(bytes16((node.uid % 0x1_0000) as int), 0));
    assert(le32(h, 4) == le32(bytes32(size % 0x1_0000_0000), 0));
    assert(le32(h, 0x10) == le32(bytes32(time), 0));
    assert(le16(h, 0x18) == le16(bytes16((node.gid % 0x1_0000) as int), 0));
    assert(le32(h, 0x1C) == le32(bytes32(sectors % 0x1_0000_0000), 0));
    assert(le32(h, 0x20) == le32(bytes32(flags), 0));
}

/// The rest of an inode.
proof fn lemma_rest(node: Node, size: int, sectors: int, acl: int, time: int)
    requires
        0 <= size < 0x1_0000_0000_0000_0000,
        0 <= sectors < 0x1_0000_0000_0000,
        0 <= acl <= u32::MAX,
        0 <= time <= u32::MAX,
    ensures
        ({
            let h = inode_rest(node, size, sectors, acl, time);
            &&& h.len() == 60
            &&& le32(h, 4) == acl
            &&& le32(h, 8) == size / 0x1_0000_0000
            &&& le16(h, 16) == sectors / 0x1_0000_0000
            &&& le16(h, 18) == 0
            &&& le16(h, 20) == node.uid / 0x1_0000
            &&& le16(h, 22) == node.gid / 0x1_0000
            &&& le16(h, 28) == 32
            &&& le32(h, 36) == 0
        }),
{
    let h = inode_rest(node, size, sectors, acl, time);
    assert(acl % 0x1_0000_0000 == acl && acl / 0x1_0000_0000 == 0);
    lemma_bytes32(acl);
    lemma_bytes32(size / 0x1_0000_0000);
    lemma_bytes16(sectors / 0x1_0000_0000);
    lemma_bytes16(0);
    lemma_bytes16((node.uid / 0x1_0000) as int);
    lemma_bytes16((node.gid / 0x1_0000) as int);
    lemma_bytes16(32);
    assert(le32(h, 4) == le32(bytes32(acl), 0));
    assert(le32(h, 8) == le32(bytes32(size / 0x1_0000_0000), 0));
    assert(le16(h, 16) == le16(bytes16(sectors / 0x1_0000_0000), 0));
    assert(le16(h, 18) == le16(bytes16(0), 0));
    assert(le16(h, 20) == le16(bytes16((node.uid / 0x1_0000) as int), 0));
    assert(le16(h, 22) == le16(bytes16((node.gid / 0x1_0000) as int), 0));
    assert(le16(h, 28) == le16(bytes16(32), 0));
    assert(h[36] == 0 && h[37] == 0 && h[38] == 0 && h[39] == 0);
}

/// An inode as the reader sees it.
pub open spec fn inode_view(node: Node, pl: Placed, a: Attached, sectors: int, time: int) -> InodeView {
    InodeView {
        mode: mode_of(node),
        uid: node.uid as int,
        gid: node.gid as int,
        size: pl.size,
        mtime: signed32(time),
        flags: pl.flags as u32,
        sectors,
        block: pl.block,
        file_acl: a.acl,
        xattr_area: a.area,
    }
}

/// The bytes of an inode read back.
pub proof fn lemma_inode_reads(
    img: Seq<u8>,
    node: Node,
    pl: Placed,
    a: Attached,
    sectors: int,
    time: int,
)
    requires
        pl.block.len() == 60,
        a.area.len() == 96,
        0 <= pl.size < 0x1_0000_0000_0000_0000,
        0 <= sectors < 0x1_0000_0000_0000,
        0 <= a.acl <= u32::MAX,
        0 <= time <= u32::MAX,
        pl.flags == 0 || pl.flags == 0x80000,
    ensures
        inode_in(img, inode_bytes(node, pl, a, sectors, time)) == inode_view(
            node,
            pl,
            a,
            sectors,
            time,
        ),
{
    reveal(inode_bytes);
    let b = inode_bytes(node, pl, a, sectors, time);
    let h = inode_head(node, pl.size, sectors, pl.flags, time);
    let r = inode_rest(node, pl.size, sectors, a.acl, time);
    lemma_head(node, pl.size, sectors, pl.flags, time);
    lemma_rest(node, pl.size, sectors, a.acl, time);
    lemma_parts(h, pl.block, r, a.area);
    assert(b == h + pl.block + r + a.area);
    assert(h[0] == b[0] && h[1] == b[1] && h[2] == b[2] && h[3] == b[3]);
    assert(h[4] == b[4] && h[5] == b[5] && h[6] == b[6] && h[7] == b[7]);
    assert(h[0x10] == b[0x10] && h[0x11] == b[0x11] && h[0x12] == b[0x12] && h[0x13] == b[0x13]);
    assert(h[0x18] == b[0x18] && h[0x19] == b[0x19]);
    assert(h[0x1C] == b[0x1C] && h[0x1D] == b[0x1D] && h[0x1E] == b[0x1E] && h[0x1F] == b[0x1F]);
    assert(h[0x20] == b[0x20] && h[0x21] == b[0x21] && h[0x22] == b[0x22] && h[0x23] == b[0x23]);
    assert(r[4] == b[0x68] && r[5] == b[0x69] && r[6] == b[0x6A] && r[7] == b[0x6B]);
    assert(r[8] == b[0x6C] && r[9] == b[0x6D] && r[10] == b[0x6E] && r[11] == b[0x6F]);
    assert(r[16] == b[0x74] && r[17] == b[0x75] && r[18] == b[0x76] && r[19] == b[0x77]);
    assert(r[20] == b[0x78] && r[21] == b[0x79] && r[22] == b[0x7A] && r[23] == b[0x7B]);
    assert(r[28] == b[0x80] && r[29] == b[0x81]);
    assert(r[36] == b[0x88] && r[37] == b[0x89] && r[38] == b[0x8A] && r[39] == b[0x8B]);
    let flags: u32 = pl.flags as u32;
    assert(flags & 0x40000 == 0) by (bit_vector)
        requires
            flags == 0 || flags == 0x80000,
    ;
    assert(extra_isize(b) == 32);
}

/// The four parts of an inode.
proof fn lemma_parts(h: Seq<u8>, m: Seq<u8>, r: Seq<u8>, t: Seq<u8>)
    requires
        h.len() == 40,
        m.len() == 60,
        r.len() == 60,
        t.len() == 96,
    ensures
        ({
            let b = h + m + r + t;
            &&& b.len() == 256
            &&& forall|k: int| 0 <= k < 40 ==> #[trigger] h[k] == b[k]
            &&& b.subrange(0x28, 0x64) == m
            &&& forall|k: int| 0 <= k < 60 ==> #[trigger] r[k] == b[0x64 + k]
            &&& b.skip(160) == t
        }),
{
    let b = h + m + r + t;
    assert(b.subrange(0x28, 0x64) =~= m);
    assert(b.skip(160) =~= t);
}

} // verus!
