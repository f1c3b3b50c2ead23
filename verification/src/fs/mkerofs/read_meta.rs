//! The metadata that the EROFS reader finds in an image that `write_image`
//! made.
use vstd::prelude::*;
use vstd::utf8::{encode_utf8, encode_utf8_decode_utf8, encode_utf8_valid_utf8, is_ascii_chars,
    is_ascii_chars_encode_utf8};
use crate::bytes::{bytes16, bytes32, le16, le32, lemma_bytes16, lemma_bytes32, lemma_round_up};
use crate::error::Error;
use crate::fs::{kind_of, read_range, security_of, Kind, MetaView};
use crate::fs::erofs::{block_size, known, meta_of, prefix_text, shared_from, signed_time,
    xattr_entry_in, xattrs_of, XattrEntryView};
use crate::fs::mkerofs::layout::{area_of, inode_len, lemma_pool, lemma_record, nid_of, pool_area,
    pool_index, pool_of, pool_offset, pool_with_all, record_len, record_start, shared_id, size_of,
    xattr_bytes, xattr_len, SB_END, XATTR_INDEX_SECURITY};
use crate::fs::mkerofs::{checksum, id_bytes, image_of, lemma_id_bytes_len, lemma_meta_len,
    lemma_nid, lemma_ready, lemma_record_bytes, meta_upto, mode_of, record_bytes, xattr_header,
    Params};
use crate::fs::mkerofs::read_back::{inode_seen, lemma_inode, lemma_meta_start,
    lemma_record_in_image, lemma_sb, lemma_sb_rest_len, lemma_writable, writable};
use crate::fs::mkext4::{Node, NodeKind};
use crate::fs::tree::{items_of, Numbered};
use crate::fs::xattr::{attrs_of, capability_name, capability_round_trip, selinux_name, Attr};
use crate::text::{text_of, until_nul};

verus! {

broadcast use crate::bytes::group_byte_lens;

/// Entry `k` of the pool stands in the area at its offset.
proof fn lemma_in_area(pool: Seq<Seq<u8>>, k: int, n: int, bs: int)
    requires
        0 <= k < n <= pool.len(),
        0 < bs,
    ensures
        ({
            let at = pool_offset(pool, k, bs) - SB_END;
            &&& 0 <= at
            &&& at + pool[k].len() <= pool_area(pool, n, bs).len()
            &&& pool_area(pool, n, bs).subrange(at, at + pool[k].len()) == pool[k]
        }),
    decreases n,
{
    let at = pool_offset(pool, k, bs) - SB_END;
    let a = pool_area(pool, n, bs);
    let before = pool_area(pool, n - 1, bs);
    if k < n - 1 {
        lemma_in_area(pool, k, n - 1, bs);
        assert(a.subrange(at, at + pool[k].len()) =~= before.subrange(at, at + pool[k].len()));
    } else {
        assert(a.subrange(at, at + pool[k].len()) =~= pool[k]);
    }
}

proof fn lemma_index(pool: Seq<Seq<u8>>, e: Seq<u8>, k: int)
    requires
        0 <= k <= pool.len(),
        exists|j: int| k <= j < pool.len() && #[trigger] pool[j] == e,
    ensures
        k <= pool_index(pool, e, k) < pool.len(),
        pool[pool_index(pool, e, k)] == e,
    decreases pool.len() - k,
{
    if k < pool.len() && pool[k] != e {
        lemma_index(pool, e, k + 1);
    }
}

/// All entries are whole words.
pub open spec fn aligned(pool: Seq<Seq<u8>>) -> bool {
    forall|k: int| 0 <= k < pool.len() ==> (#[trigger] pool[k]).len() % 4 == 0
}

proof fn lemma_aligned_all(pool: Seq<Seq<u8>>, attrs: Seq<Attr>, n: int)
    requires
        aligned(pool),
    ensures
        aligned(pool_with_all(pool, attrs, n)),
    decreases n,
{
    if n > 0 {
        lemma_aligned_all(pool, attrs, n - 1);
        let a = attrs[n - 1];
        let e = seq![a.name.len() as u8, XATTR_INDEX_SECURITY] + bytes16(a.value.len() as int)
            + a.name + a.value;
        lemma_round_up(e.len() as int, 4);
        assert(xattr_bytes(a).len() % 4 == 0);
    }
}

proof fn lemma_aligned(items: Seq<Numbered>, n: int)
    ensures
        aligned(pool_of(items, n)),
    decreases n,
{
    if n > 0 {
        lemma_aligned(items, n - 1);
        let attrs = attrs_of(items[n - 1].node);
        lemma_aligned_all(pool_of(items, n - 1), attrs, attrs.len() as int);
    }
}

/// Offsets in the pool are whole words.
proof fn lemma_offset_aligned(pool: Seq<Seq<u8>>, k: int, bs: int)
    requires
        aligned(pool),
        0 <= k < pool.len(),
        0 < bs,
        bs % 4 == 0,
    ensures
        pool_offset(pool, k, bs) % 4 == 0,
        pool_area(pool, k, bs).len() % 4 == 0,
    decreases k,
{
    if k > 0 {
        lemma_offset_aligned(pool, k - 1, bs);
        lemma_area_step(pool, k - 1, bs);
    }
    let pos = SB_END + pool_area(pool, k, bs).len();
    lemma_mod4(pos, bs);
}

proof fn lemma_area_step(pool: Seq<Seq<u8>>, k: int, bs: int)
    requires
        0 <= k < pool.len(),
        0 < bs,
    ensures
        SB_END + pool_area(pool, k + 1, bs).len() == pool_offset(pool, k, bs) + pool[k].len(),
{
    let pos = SB_END + pool_area(pool, k, bs).len();
    assert(0 <= pos % bs < bs);
}

proof fn lemma_mod4(pos: int, bs: int)
    requires
        pos % 4 == 0,
        bs % 4 == 0,
        0 < bs,
    ensures
        (pos % bs) % 4 == 0,
        (pos + (bs - pos % bs)) % 4 == 0,
{
    let q = pos / bs;
    let w = bs / 4;
    assert(pos == q * bs + pos % bs) by (nonlinear_arith)
        requires
            0 < bs,
            q == pos / bs,
    ;
    assert(q * (w * 4) == (q * w) * 4) by (nonlinear_arith);
    assert(bs == w * 4);
}

/// The bytes of an xattr entry before its padding read back.
proof fn lemma_entry(a: Attr)
    requires
        a.name.len() <= 255,
        a.value.len() < 0x1_0000,
    ensures
        ({
            let e = xattr_bytes(a);
            let len = 4 + a.name.len() + a.value.len();
            &&& len <= e.len()
            &&& e[0] == a.name.len()
            &&& e[1] == 6
            &&& le16(e, 2) == a.value.len()
            &&& e.take(len as int).subrange(4, 4 + a.name.len() as int) == a.name
            &&& e.take(len as int).subrange(4 + a.name.len() as int, len as int) == a.value
        }),
{
    let e = xattr_bytes(a);
    let len = (4 + a.name.len() + a.value.len()) as int;
    let n = bytes16(a.value.len() as int);
    lemma_round_up(len, 4);
    lemma_bytes16(a.value.len() as int);
    assert(e[2] == n[0] && e[3] == n[1]);
    assert(e.take(len).subrange(4, 4 + a.name.len() as int) =~= a.name);
    assert(e.take(len).subrange(4 + a.name.len() as int, len) =~= a.value);
}

/// An xattr entry that was written reads back, whatever follows it: whole
/// words long, under its full name and with its value.
pub proof fn xattr_reads_back(prefixes: Seq<(u8, Seq<u8>)>, a: Attr, t: Seq<u8>)
    requires
        a.name.len() <= 255,
        a.value.len() < 0x1_0000,
    ensures
        xattr_bytes(a).len() % 4 == 0,
        xattr_entry_in(prefixes, xattr_bytes(a) + t) == Ok::<XattrEntryView, Error>(
            XattrEntryView {
                len: xattr_bytes(a).len() as int,
                name: Some("security."@ + text_of(a.name)),
                value: a.value,
            },
        ),
{
    let e = xattr_bytes(a);
    let b = e + t;
    let end = (4 + a.name.len() + a.value.len()) as int;
    lemma_entry(a);
    lemma_round_up(end, 4);
    assert(b[0] == e[0] && b[1] == e[1] && b[2] == e[2] && b[3] == e[3]);
    assert(b.subrange(4, 4 + b[0]) =~= e.take(end).subrange(4, 4 + a.name.len() as int));
    assert(b.subrange(4 + b[0], end) =~= e.take(end).subrange(4 + a.name.len() as int, end));
    assert(prefix_text(6) == Some("security."@));
}

/// An xattr as the reader names it.
pub open spec fn seen(a: Attr) -> (Seq<char>, Seq<u8>) {
    ("security."@ + text_of(a.name), a.value)
}

/// The first `n` xattrs as the reader names them.
pub open spec fn all_seen(attrs: Seq<Attr>) -> Seq<(Seq<char>, Seq<u8>)> {
    attrs.map_values(|a: Attr| seen(a))
}

/// An xattr entry in the image reads back.
proof fn lemma_read_entry(img: Seq<u8>, at: int, a: Attr)
    requires
        a.name.len() <= 255,
        a.value.len() < 0x1_0000,
        0 <= at,
        at + xattr_bytes(a).len() <= img.len(),
        img.subrange(at, at + xattr_bytes(a).len()) == xattr_bytes(a),
    ensures
        ({
            let head = img.subrange(at, at + 4);
            let len = 4 + head[0] + le16(head, 2);
            &&& read_range(img, at, 4) == Ok::<Seq<u8>, Error>(head)
            &&& read_range(img, at, len) is Ok
            &&& ({
                let b = read_range(img, at, len)->Ok_0;
                &&& xattr_entry_in(Seq::empty(), b) is Ok
                &&& known(xattr_entry_in(Seq::empty(), b)->Ok_0) == seq![seen(a)]
            })
        }),
{
    let e = xattr_bytes(a);
    lemma_entry(a);
    let head = img.subrange(at, at + 4);
    let sub = img.subrange(at, at + e.len());
    assert(head[0] == sub[0] && head[1] == sub[1] && head[2] == sub[2] && head[3] == sub[3]);
    let len = (4 + a.name.len() + a.value.len()) as int;
    let b = img.subrange(at, at + len);
    assert(b =~= e.take(len));
    assert(b[0] == e[0] && b[1] == e[1] && b[2] == e[2] && b[3] == e[3]);
    assert(4 + b[0] == 4 + a.name.len());
    assert(prefix_text(6) == Some("security."@));
}

/// The shared area in the image.
proof fn lemma_area_in_image(root: Node, p: Params)
    requires
        writable(root, p),
    ensures
        ({
            let img = image_of(root, p);
            let area = area_of(items_of(root), p.block_size as int);
            &&& SB_END + area.len() <= img.len()
            &&& img.subrange(SB_END as int, SB_END + area.len()) == area
            &&& SB_END + area.len() <= 0xFFFF * 32
        }),
{
    let items = items_of(root);
    let bs = p.block_size as int;
    let img = image_of(root, p);
    let crc = checksum(items, p) as int;
    let area = area_of(items, bs);
    lemma_writable(root, p);
    lemma_ready(root, bs);
    lemma_meta_start(root, items.len() as int, p, crc);
    lemma_meta_len(root, 0, p, crc);
    lemma_record(items, 0, bs);
    lemma_nid(items, 0, bs);
    lemma_sb_rest_len(items, p);
    let m = meta_upto(items, items.len() as int, p, crc);
    let start = meta_upto(items, 0, p, crc);
    let sub = img.subrange(SB_END as int, SB_END + area.len());
    assert forall|k: int| 0 <= k < area.len() implies #[trigger] sub[k] == area[k] by {
        assert(start[SB_END + k] == area[k]);
        assert(m.take(start.len() as int)[SB_END + k] == m[SB_END + k]);
    }
    assert(sub =~= area);
}

/// The entry for an xattr of item `i` in the image, found by its id.
proof fn lemma_shared_entry(root: Node, i: int, k: int, p: Params)
    requires
        writable(root, p),
        0 <= i < items_of(root).len(),
        0 <= k < attrs_of(items_of(root)[i].node).len(),
    ensures
        ({
            let items = items_of(root);
            let bs = p.block_size as int;
            let a = attrs_of(items[i].node)[k];
            let img = image_of(root, p);
            let id = shared_id(pool_of(items, items.len() as int), a, bs);
            &&& 0 <= id <= u32::MAX
            &&& 4 * id + xattr_bytes(a).len() <= img.len()
            &&& img.subrange(4 * id, 4 * id + xattr_bytes(a).len()) == xattr_bytes(a)
        }),
{
    let items = items_of(root);
    let bs = p.block_size as int;
    let a = attrs_of(items[i].node)[k];
    let img = image_of(root, p);
    let pool = pool_of(items, items.len() as int);
    let e = xattr_bytes(a);
    let area = area_of(items, bs);
    lemma_writable(root, p);
    lemma_ready(root, bs);
    crate::fs::mkerofs::lemma_block_size(bs);
    lemma_pool(items, items.len() as int, i);
    assert(pool.contains(e));
    lemma_index(pool, e, 0);
    let x = pool_index(pool, e, 0);
    lemma_in_area(pool, x, pool.len() as int, bs);
    lemma_aligned(items, items.len() as int);
    assert(bs % 4 == 0);
    lemma_offset_aligned(pool, x, bs);
    lemma_area_in_image(root, p);
    reveal(area_of);
    let off = pool_offset(pool, x, bs);
    assert(area == pool_area(pool, pool.len() as int, bs));
    assert(img.subrange(off, off + e.len()) =~= img.subrange(
        SB_END as int,
        SB_END + area.len(),
    ).subrange(off - SB_END, off - SB_END + e.len()));
}

proof fn lemma_ids(pool: Seq<Seq<u8>>, attrs: Seq<Attr>, k: int, n: int, bs: int)
    requires
        0 <= k < n,
        0 <= shared_id(pool, attrs[k], bs) <= u32::MAX,
    ensures
        id_bytes(pool, attrs, n, bs).len() == 4 * n,
        le32(id_bytes(pool, attrs, n, bs), 4 * k) == shared_id(pool, attrs[k], bs),
    decreases n,
{
    let all = id_bytes(pool, attrs, n, bs);
    let before = id_bytes(pool, attrs, n - 1, bs);
    lemma_id_bytes_len(pool, attrs, n, bs);
    lemma_id_bytes_len(pool, attrs, n - 1, bs);
    if k < n - 1 {
        lemma_ids(pool, attrs, k, n - 1, bs);
        assert(all[4 * k] == before[4 * k] && all[4 * k + 1] == before[4 * k + 1]);
        assert(all[4 * k + 2] == before[4 * k + 2] && all[4 * k + 3] == before[4 * k + 3]);
    } else {
        let d = bytes32(shared_id(pool, attrs[k], bs));
        lemma_bytes32(shared_id(pool, attrs[k], bs));
        assert(all[4 * k] == d[0] && all[4 * k + 1] == d[1]);
        assert(all[4 * k + 2] == d[2] && all[4 * k + 3] == d[3]);
    }
}

/// The xattr header of item `i` holds the number of xattrs and their ids.
proof fn lemma_header(pool: Seq<Seq<u8>>, attrs: Seq<Attr>, bs: int)
    requires
        0 < attrs.len() <= 255,
        forall|k: int|
            0 <= k < attrs.len() ==> 0 <= #[trigger] shared_id(pool, attrs[k], bs) <= u32::MAX,
    ensures
        ({
            let h = xattr_header(pool, attrs, bs);
            &&& h.len() == 12 + 4 * attrs.len()
            &&& h[4] == attrs.len()
            &&& forall|k: int|
                0 <= k < attrs.len() ==> le32(h, 12 + 4 * k) == #[trigger] shared_id(
                    pool,
                    attrs[k],
                    bs,
                )
        }),
{
    reveal(xattr_header);
    let n = attrs.len() as int;
    let h = xattr_header(pool, attrs, bs);
    let ids = id_bytes(pool, attrs, n, bs);
    lemma_id_bytes_len(pool, attrs, n, bs);
    assert forall|k: int| 0 <= k < n implies le32(h, 12 + 4 * k) == #[trigger] shared_id(
        pool,
        attrs[k],
        bs,
    ) by {
        lemma_ids(pool, attrs, k, n, bs);
        assert(h[12 + 4 * k] == ids[4 * k] && h[12 + 4 * k + 1] == ids[4 * k + 1]);
        assert(h[12 + 4 * k + 2] == ids[4 * k + 2] && h[12 + 4 * k + 3] == ids[4 * k + 3]);
    }
}

/// Labels that an xattr value can hold.
pub open spec fn good_label(node: Node) -> bool {
    match node.selinux {
        Some(l) => encode_utf8(l@).len() < 0xFFFF && !encode_utf8(l@).contains(0u8),
        None => true,
    }
}

/// Entries that stand where their ids say.
spec fn placed(img: Seq<u8>, attrs: Seq<Attr>, area: Seq<u8>) -> bool {
    forall|k: int|
        0 <= k < attrs.len() ==> {
            let at = 4 * le32(area, 12 + 4 * k);
            let e = xattr_bytes(#[trigger] attrs[k]);
            &&& attrs[k].name.len() <= 255
            &&& attrs[k].value.len() < 0x1_0000
            &&& at + e.len() <= img.len()
            &&& img.subrange(at, at + e.len()) == e
        }
}

/// Shared xattrs from number `k` on.
proof fn lemma_shared(img: Seq<u8>, attrs: Seq<Attr>, area: Seq<u8>, k: int)
    requires
        placed(img, attrs, area),
        le32(img, 1068) == 0,
        0 <= k <= attrs.len(),
    ensures
        shared_from(img, Seq::empty(), area, k, attrs.len() as int) == Ok::<
            Seq<(Seq<char>, Seq<u8>)>,
            Error,
        >(all_seen(attrs).skip(k)),
    decreases attrs.len() - k,
{
    if k < attrs.len() {
        let a = attrs[k];
        lemma_shared(img, attrs, area, k + 1);
        lemma_read_entry(img, 4 * le32(area, 12 + 4 * k), a);
        let bs = block_size(img);
        assert(0 * bs == 0) by (nonlinear_arith);
        assert(seq![seen(a)] + all_seen(attrs).skip(k + 1) =~= all_seen(attrs).skip(k));
    } else {
        assert(all_seen(attrs).skip(k) =~= Seq::empty());
    }
}

/// Names and values of the xattrs of a node fit in an entry.
proof fn lemma_attrs_fit(node: Node)
    requires
        good_label(node),
    ensures
        attrs_of(node).len() <= 2,
        forall|k: int|
            0 <= k < attrs_of(node).len() ==> (#[trigger] attrs_of(node)[k]).name.len() <= 255
                && attrs_of(node)[k].value.len() < 0x1_0000,
{
    if let Some(c) = node.capabilities {
        capability_round_trip(c);
    }
}

/// The xattr header of item `i` in the image.
proof fn lemma_header_in_image(root: Node, i: int, p: Params)
    requires
        writable(root, p),
        0 <= i < items_of(root).len(),
        attrs_of(items_of(root)[i].node).len() > 0,
    ensures
        ({
            let items = items_of(root);
            let bs = p.block_size as int;
            let at = record_start(items, i, bs) + inode_len(items, i, bs);
            read_range(image_of(root, p), at, xattr_len(items[i].node)) == Ok::<Seq<u8>, Error>(
                xattr_header(pool_of(items, items.len() as int), attrs_of(items[i].node), bs),
            )
        }),
{
    let items = items_of(root);
    let bs = p.block_size as int;
    let img = image_of(root, p);
    let node = items[i].node;
    let pool = pool_of(items, items.len() as int);
    lemma_writable(root, p);
    lemma_record_in_image(root, i, p);
    lemma_record_bytes(root, i, p.timestamp as int, p.timestamp_nsec as int, bs);
    let start = record_start(items, i, bs);
    let at = start + inode_len(items, i, bs);
    let h = xattr_header(pool, attrs_of(node), bs);
    let rec = record_bytes(items, i, p.timestamp as int, p.timestamp_nsec as int, bs);
    let len = record_len(items, i, bs);
    let n = xattr_len(node);
    assert(rec.subrange(at - start, at - start + n) =~= h);
    assert(img.subrange(at, at + n) =~= img.subrange(start, start + len).subrange(
        at - start,
        at - start + n,
    ));
}

/// The reader finds the xattrs of item `i`.
pub proof fn lemma_xattrs(root: Node, i: int, p: Params)
    requires
        writable(root, p),
        0 <= i < items_of(root).len(),
        good_label(items_of(root)[i].node),
    ensures
        xattrs_of(image_of(root, p), Seq::empty(), inode_seen(root, i, p)) == Ok::<
            Seq<(Seq<char>, Seq<u8>)>,
            Error,
        >(all_seen(attrs_of(items_of(root)[i].node))),
{
    let items = items_of(root);
    let bs = p.block_size as int;
    let img = image_of(root, p);
    let attrs = attrs_of(items[i].node);
    let pool = pool_of(items, items.len() as int);
    let h = xattr_header(pool, attrs, bs);
    lemma_attrs_fit(items[i].node);
    if attrs.len() == 0 {
        assert(all_seen(attrs) =~= Seq::empty());
    } else {
        assert forall|k: int| 0 <= k < attrs.len() implies 0 <= #[trigger] shared_id(
            pool,
            attrs[k],
            bs,
        ) <= u32::MAX by {
            lemma_shared_entry(root, i, k, p);
        }
        lemma_header(pool, attrs, bs);
        assert(placed(img, attrs, h)) by {
            assert forall|k: int| 0 <= k < attrs.len() implies ({
                let at = 4 * le32(h, 12 + 4 * k);
                let e = xattr_bytes(#[trigger] attrs[k]);
                &&& attrs[k].name.len() <= 255
                &&& attrs[k].value.len() < 0x1_0000
                &&& at + e.len() <= img.len()
                &&& img.subrange(at, at + e.len()) == e
            }) by {
                lemma_shared_entry(root, i, k, p);
                assert(le32(h, 12 + 4 * k) == shared_id(pool, attrs[k], bs));
            }
        }
        lemma_header_in_image(root, i, p);
        lemma_inode(root, i, p);
        lemma_sb(root, p);
        lemma_shared(img, attrs, h, 0);
        assert(all_seen(attrs).skip(0) =~= all_seen(attrs));
        assert(all_seen(attrs) + Seq::<(Seq<char>, Seq<u8>)>::empty() =~= all_seen(attrs));
    }
}

/// `security.selinux` and `security.capability`.
proof fn lemma_names()
    ensures
        "security."@ + text_of(selinux_name()) == "security.selinux"@,
        "security."@ + text_of(capability_name()) == "security.capability"@,
        "security.selinux"@ != "security.capability"@,
{
    reveal_strlit("security.");
    reveal_strlit("security.selinux");
    reveal_strlit("security.capability");
    reveal_strlit("selinux");
    reveal_strlit("capability");
    let a = "selinux"@;
    let b = "capability"@;
    assert(is_ascii_chars(a));
    assert(is_ascii_chars(b));
    is_ascii_chars_encode_utf8(a);
    is_ascii_chars_encode_utf8(b);
    assert(encode_utf8(a) =~= selinux_name());
    assert(encode_utf8(b) =~= capability_name());
    encode_utf8_decode_utf8(a);
    encode_utf8_decode_utf8(b);
    encode_utf8_valid_utf8(a);
    encode_utf8_valid_utf8(b);
    assert("security."@ + a =~= "security.selinux"@);
    assert("security."@ + b =~= "security.capability"@);
    assert("security.selinux"@.len() != "security.capability"@.len());
}

proof fn lemma_until_nul(s: Seq<u8>, i: int)
    requires
        0 <= i <= s.len(),
        !s.contains(0u8),
    ensures
        until_nul(s.push(0), i) == s,
    decreases s.len() - i,
{
    if i < s.len() {
        assert(s.contains(s[i]));
        lemma_until_nul(s, i + 1);
    } else {
        assert(s.push(0).take(i) =~= s);
    }
}

/// The label and the capabilities of a node, read back.
pub proof fn lemma_security(node: Node)
    requires
        good_label(node),
    ensures
        security_of(all_seen(attrs_of(node)), attrs_of(node).len() as int) == (
            crate::fs::text_view(node.selinux),
            node.capabilities,
        ),
{
    let attrs = attrs_of(node);
    let xs = all_seen(attrs);
    lemma_names();
    reveal_with_fuel(security_of, 3);
    if let Some(l) = node.selinux {
        lemma_until_nul(encode_utf8(l@), 0);
        encode_utf8_decode_utf8(l@);
        encode_utf8_valid_utf8(l@);
        assert(xs[0] == seen(attrs[0]));
    }
    if let Some(c) = node.capabilities {
        capability_round_trip(c);
        assert(xs[attrs.len() - 1] == seen(attrs[attrs.len() - 1]));
    }
}

/// The kind of a node.
pub open spec fn node_kind(node: Node) -> Kind {
    match node.kind {
        NodeKind::File { .. } => Kind::File,
        NodeKind::Dir(_) => Kind::Dir,
        NodeKind::Symlink(_) => Kind::Symlink,
    }
}

/// The metadata that the reader gives for item `i`.
pub open spec fn meta_seen(root: Node, i: int, p: Params) -> MetaView {
    let node = items_of(root)[i].node;
    MetaView {
        kind: node_kind(node),
        mode: (node.mode % 0x1000) as int,
        uid: node.uid as int,
        gid: node.gid as int,
        mtime: signed_time(p.timestamp as int) as int,
        size: size_of(items_of(root), i, p.block_size as int),
        selinux: crate::fs::text_view(node.selinux),
        capabilities: node.capabilities,
    }
}

/// The metadata of every node reads back: its kind, permissions, owner, time
/// and size, its label and its capabilities. It holds of every node whose own
/// label has no NUL and fits in an xattr.
pub proof fn metadata_reads_back(root: Node, i: int, p: Params)
    requires
        writable(root, p),
        0 <= i < items_of(root).len(),
        good_label(items_of(root)[i].node),
    ensures
        meta_of(
            image_of(root, p),
            Seq::empty(),
            nid_of(items_of(root), i, p.block_size as int),
        ) == Ok::<MetaView, Error>(meta_seen(root, i, p)),
{
    let node = items_of(root)[i].node;
    lemma_inode(root, i, p);
    lemma_xattrs(root, i, p);
    lemma_security(node);
    assert(kind_of(mode_of(node)) == Ok::<Kind, Error>(node_kind(node)));
    assert(mode_of(node) % 0x1000 == node.mode % 0x1000);
    assert(all_seen(attrs_of(node)).len() == attrs_of(node).len());
}

} // verus!
