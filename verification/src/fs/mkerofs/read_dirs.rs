//! The directories that the EROFS reader finds in an image that `write_image`
//! made, and with them the whole tree.
use vstd::prelude::*;
use crate::bytes::{bytes16, bytes64, le16, le64, lemma_bytes16, lemma_bytes64};
use crate::error::Error;
use crate::fs::{kind_of, Kind};
use crate::fs::erofs::{block_at, block_entries, block_size, dir_of, entries_from, file_of, is_dot,
    list_from, meta_of, name_end, open_fault, prefixes_of, signed_time};
use crate::fs::mkerofs::layout::{block_len, child_entries, counts_ok, dir_block, dir_bytes,
    dir_counts, dir_entries, dirent, dirents, dot, dotdot, entries_fit, entry_names, fill,
    lemma_counts, lemma_dirents_len, lemma_entries, lemma_fill, lemma_full_blocks, lemma_places,
    lemma_record, lemma_sum_mono, name_bytes, nid_of, sum, DirEntry};
use crate::fs::mkerofs::{content, image_of, lemma_nid, lemma_ready, mode_of, nids_of, Params};
use crate::fs::mkerofs::read_back::{lemma_data, lemma_inode, lemma_opens, lemma_writable, writable};
use crate::fs::mkerofs::read_meta::{good_label, metadata_reads_back, node_kind};
use crate::fs::mkext4::{Node, NodeKind};
use crate::fs::order::place;
use crate::fs::tree::{bad_name, fault, items_of, kid, kids_of, lemma_item_kids, lemma_items,
    lemma_items_clean, lemma_kids, rooted, Numbered};
use crate::text::until_nul;

verus! {

broadcast use crate::bytes::group_byte_lens;

/// Entries that can be told apart in a block: no empty name, none with a NUL.
pub open spec fn readable(entries: Seq<DirEntry>) -> bool {
    forall|k: int|
        0 <= k < entries.len() ==> (#[trigger] entries[k]).name.len() > 0
            && !entries[k].name.contains(0u8)
}

/// Entry numbers that are items, with nids that fit their field.
pub open spec fn good_targets(entries: Seq<DirEntry>, nids: Seq<int>) -> bool {
    forall|k: int|
        0 <= k < entries.len() ==> 0 <= (#[trigger] entries[k]).target < nids.len() && 0
            <= nids[entries[k].target] <= u64::MAX
}

/// The entries `a..b` that are not "." or "..", with their nids.
pub open spec fn listed(entries: Seq<DirEntry>, nids: Seq<int>, a: int, b: int) -> Seq<
    (Seq<u8>, u64),
>
    decreases b - a,
{
    if a >= b {
        Seq::empty()
    } else {
        let rest = listed(entries, nids, a + 1, b);
        if is_dot(entries[a].name) {
            rest
        } else {
            seq![(entries[a].name, nids[entries[a].target] as u64)] + rest
        }
    }
}

/// Entry `k` in the fixed part of a block.
proof fn lemma_dirent(
    entries: Seq<DirEntry>,
    nids: Seq<int>,
    from: int,
    count: int,
    k: int,
    n: int,
)
    requires
        0 <= k < n,
    ensures
        dirents(entries, nids, from, count, n).len() == 12 * n,
        dirents(entries, nids, from, count, n).subrange(12 * k, 12 * k + 12) == dirent(
            entries,
            nids,
            from,
            count,
            k,
        ),
    decreases n,
{
    let all = dirents(entries, nids, from, count, n);
    let before = dirents(entries, nids, from, count, n - 1);
    lemma_dirents_len(entries, nids, from, count, n);
    lemma_dirents_len(entries, nids, from, count, n - 1);
    if k < n - 1 {
        lemma_dirent(entries, nids, from, count, k, n - 1);
        assert(all.subrange(12 * k, 12 * k + 12) =~= before.subrange(12 * k, 12 * k + 12));
    } else {
        assert(all.subrange(12 * k, 12 * k + 12) =~= dirent(entries, nids, from, count, k));
    }
}

/// The fields of entry `k` of a block.
proof fn lemma_dirent_fields(
    entries: Seq<DirEntry>,
    nids: Seq<int>,
    from: int,
    count: int,
    k: int,
    block: Seq<u8>,
)
    requires
        0 <= k < count,
        12 * count <= block.len(),
        block.take(12 * count) == dirents(entries, nids, from, count, count),
        0 <= nids[entries[from + k].target] <= u64::MAX,
        12 * count + name_bytes(entries, from, k).len() <= 0xFFFF,
    ensures
        le64(block, 12 * k) == nids[entries[from + k].target],
        le16(block, 12 * k + 8) == 12 * count + name_bytes(entries, from, k).len(),
{
    let d = dirents(entries, nids, from, count, count);
    let e = dirent(entries, nids, from, count, k);
    let nid = nids[entries[from + k].target];
    let off = 12 * count + name_bytes(entries, from, k).len();
    lemma_dirent(entries, nids, from, count, k, count);
    lemma_bytes64(nid);
    lemma_bytes16(off);
    let sub = d.subrange(12 * k, 12 * k + 12);
    assert forall|j: int| 0 <= j < 12 implies block[12 * k + j] == #[trigger] e[j] by {
        assert(sub[j] == d[12 * k + j]);
        assert(block.take(12 * count)[12 * k + j] == block[12 * k + j]);
    }
    let n8 = bytes64(nid);
    let n2 = bytes16(off);
    assert(e[0] == n8[0] && e[1] == n8[1] && e[2] == n8[2] && e[3] == n8[3]);
    assert(e[4] == n8[4] && e[5] == n8[5] && e[6] == n8[6] && e[7] == n8[7]);
    assert(e[8] == n2[0] && e[9] == n2[1]);
    assert(block[12 * k + 0] == e[0]);
}

/// Name `k` in the bytes of the names.
proof fn lemma_name_at(entries: Seq<DirEntry>, from: int, k: int, n: int)
    requires
        0 <= k < n,
    ensures
        ({
            let all = name_bytes(entries, from, n);
            let at = name_bytes(entries, from, k).len() as int;
            let name = entries[from + k].name;
            &&& at + name.len() <= all.len()
            &&& at + name.len() == name_bytes(entries, from, k + 1).len()
            &&& all.subrange(at, at + name.len()) == name
        }),
    decreases n,
{
    let all = name_bytes(entries, from, n);
    let before = name_bytes(entries, from, n - 1);
    let at = name_bytes(entries, from, k).len() as int;
    let name = entries[from + k].name;
    if k < n - 1 {
        lemma_name_at(entries, from, k, n - 1);
        assert(all.subrange(at, at + name.len()) =~= before.subrange(at, at + name.len()));
    } else {
        assert(all.subrange(at, at + name.len()) =~= name);
    }
}

/// A name before the end of a block or a NUL.
proof fn lemma_until(s: Seq<u8>, name: Seq<u8>, i: int)
    requires
        0 <= i <= name.len() <= s.len(),
        s.take(name.len() as int) == name,
        !name.contains(0u8),
        name.len() < s.len() ==> s[name.len() as int] == 0,
    ensures
        until_nul(s, i) == name,
    decreases name.len() - i,
{
    if i < name.len() {
        assert(s.take(name.len() as int)[i] == s[i]);
        assert(name.contains(name[i]));
        lemma_until(s, name, i + 1);
    }
}

/// A block that holds `count` entries from `from` on, and zeros.
pub open spec fn holds(
    block: Seq<u8>,
    entries: Seq<DirEntry>,
    nids: Seq<int>,
    from: int,
    count: int,
) -> bool {
    let b = dir_block(entries, nids, from, count);
    &&& b.len() <= block.len() <= 65536
    &&& block.take(b.len() as int) == b
    &&& forall|k: int| b.len() <= k < block.len() ==> #[trigger] block[k] == 0
}

/// Where the name of entry `k` stands in its block.
proof fn lemma_entry_name(
    entries: Seq<DirEntry>,
    nids: Seq<int>,
    from: int,
    count: int,
    k: int,
    block: Seq<u8>,
)
    requires
        holds(block, entries, nids, from, count),
        0 <= k < count,
        0 <= from,
        from + count <= entries.len(),
        readable(entries),
        good_targets(entries, nids),
    ensures
        ({
            let start = le16(block, 12 * k + 8);
            let end = name_end(block, count, k);
            &&& start <= end <= block.len()
            &&& block.subrange(start, end) == entries[from + k].name
            &&& le64(block, 12 * k) == nids[entries[from + k].target]
        }),
{
    let b = dir_block(entries, nids, from, count);
    let heads = dirents(entries, nids, from, count, count);
    let names = name_bytes(entries, from, count);
    let name = entries[from + k].name;
    let at = name_bytes(entries, from, k).len() as int;
    lemma_dirents_len(entries, nids, from, count, count);
    lemma_name_at(entries, from, k, count);
    assert(entries[from + k].name.len() > 0);
    assert(block.take(12 * count) =~= heads) by {
        assert(block.take(12 * count) =~= b.take(12 * count));
    }
    lemma_dirent_fields(entries, nids, from, count, k, block);
    let start = 12 * count + at;
    assert(block.subrange(start, start + name.len()) =~= name) by {
        assert(block.subrange(start, start + name.len()) =~= b.subrange(start, start + name.len()));
        assert(b.subrange(start, start + name.len()) =~= names.subrange(at, at + name.len()));
    }
    if k + 1 < count {
        lemma_name_at(entries, from, k + 1, count);
        assert(entries[from + (k + 1)].name.len() > 0);
        lemma_dirent_fields(entries, nids, from, count, k + 1, block);
        assert(12 * (k + 1) + 8 == 12 * k + 20);
    } else {
        let rest = block.skip(start);
        assert(rest.take(name.len() as int) =~= name);
        lemma_until(rest, name, 0);
    }
}

/// The entries of a block from number `k` on, read back.
proof fn lemma_block_entries(
    entries: Seq<DirEntry>,
    nids: Seq<int>,
    from: int,
    count: int,
    k: int,
    block: Seq<u8>,
)
    requires
        holds(block, entries, nids, from, count),
        0 <= k <= count,
        0 <= from,
        from + count <= entries.len(),
        readable(entries),
        good_targets(entries, nids),
    ensures
        entries_from(block, count, k) == Ok::<Seq<(Seq<u8>, u64)>, Error>(
            listed(entries, nids, from + k, from + count),
        ),
    decreases count - k,
{
    if k < count {
        lemma_block_entries(entries, nids, from, count, k + 1, block);
        lemma_entry_name(entries, nids, from, count, k, block);
        let rest = listed(entries, nids, from + k + 1, from + count);
        assert(Seq::<(Seq<u8>, u64)>::empty() + rest =~= rest);
    }
}

/// A whole block, read back.
proof fn lemma_block(
    entries: Seq<DirEntry>,
    nids: Seq<int>,
    from: int,
    count: int,
    block: Seq<u8>,
)
    requires
        holds(block, entries, nids, from, count),
        0 < count,
        0 <= from,
        from + count <= entries.len(),
        readable(entries),
        good_targets(entries, nids),
    ensures
        block_entries(block) == Ok::<Seq<(Seq<u8>, u64)>, Error>(
            listed(entries, nids, from, from + count),
        ),
{
    let b = dir_block(entries, nids, from, count);
    lemma_dirents_len(entries, nids, from, count, count);
    lemma_name_at(entries, from, 0, count);
    assert(entries[from + 0].name.len() > 0);
    assert(block.take(12 * count) =~= dirents(entries, nids, from, count, count)) by {
        assert(block.take(12 * count) =~= b.take(12 * count));
    }
    lemma_dirent_fields(entries, nids, from, count, 0, block);
    assert(le16(block, 8) == 12 * count);
    lemma_block_entries(entries, nids, from, count, 0, block);
}

/// Joining two lists.
proof fn lemma_listed_join(entries: Seq<DirEntry>, nids: Seq<int>, a: int, b: int, c: int)
    requires
        a <= b <= c,
    ensures
        listed(entries, nids, a, b) + listed(entries, nids, b, c) == listed(entries, nids, a, c),
    decreases b - a,
{
    if a < b {
        lemma_listed_join(entries, nids, a + 1, b, c);
        assert(listed(entries, nids, a, b) + listed(entries, nids, b, c) =~= listed(
            entries,
            nids,
            a,
            c,
        ));
    } else {
        assert(Seq::<(Seq<u8>, u64)>::empty() + listed(entries, nids, b, c) =~= listed(
            entries,
            nids,
            a,
            c,
        ));
    }
}

/// Block `b` of a directory.
proof fn lemma_block_at(
    entries: Seq<DirEntry>,
    nids: Seq<int>,
    counts: Seq<int>,
    b: int,
    c: int,
    bs: int,
)
    requires
        counts_ok(entries, counts, bs),
        0 <= b < c <= counts.len(),
        0 < bs <= 65536,
    ensures
        ({
            let data = dir_bytes(entries, nids, counts, c, bs);
            let block = block_at(data, b * bs, bs);
            let n = block_len(entries, sum(counts, b), counts[b]);
            &&& b * bs + n <= data.len()
            &&& (b + 1 < c ==> (b + 1) * bs <= data.len())
            &&& (b + 1 == c && c == counts.len() ==> data.len() == b * bs + n)
            &&& holds(block, entries, nids, sum(counts, b), counts[b])
        }),
    decreases c,
{
    let data = dir_bytes(entries, nids, counts, c, bs);
    let before = dir_bytes(entries, nids, counts, c - 1, bs);
    let block = block_at(data, b * bs, bs);
    let inner = dir_block(entries, nids, sum(counts, b), counts[b]);
    assert(0 <= counts[b] && block_len(entries, sum(counts, b), counts[b]) <= bs);
    assert(0 <= counts[c - 1] && block_len(entries, sum(counts, c - 1), counts[c - 1]) <= bs);
    lemma_dirents_len(entries, nids, sum(counts, b), counts[b], counts[b]);
    lemma_dirents_len(entries, nids, sum(counts, c - 1), counts[c - 1], counts[c - 1]);
    lemma_full_blocks(entries, nids, counts, c - 1, bs);
    assert((b + 1) * bs == b * bs + bs) by (nonlinear_arith);
    if b < c - 1 {
        lemma_block_at(entries, nids, counts, b, c - 1, bs);
        assert((b + 1) * bs <= (c - 1) * bs) by (nonlinear_arith)
            requires
                b + 1 <= c - 1,
                0 < bs,
        ;
        assert(block =~= block_at(before, b * bs, bs));
    } else {
        assert(block.take(inner.len() as int) =~= inner);
    }
}

/// The blocks of a directory from number `b` on, read back.
proof fn lemma_list(
    entries: Seq<DirEntry>,
    nids: Seq<int>,
    counts: Seq<int>,
    b: int,
    bs: int,
)
    requires
        counts_ok(entries, counts, bs),
        forall|k: int| 0 <= k < counts.len() ==> 0 < #[trigger] counts[k],
        0 <= b <= counts.len(),
        0 < bs <= 65536,
        readable(entries),
        good_targets(entries, nids),
    ensures
        list_from(dir_bytes(entries, nids, counts, counts.len() as int, bs), bs, b * bs) == Ok::<
            Seq<(Seq<u8>, u64)>,
            Error,
        >(listed(entries, nids, sum(counts, b), entries.len() as int)),
    decreases counts.len() - b,
{
    let n = counts.len() as int;
    let data = dir_bytes(entries, nids, counts, n, bs);
    lemma_block_at(entries, nids, counts, n - 1, n, bs);
    assert(0 < counts[n - 1]);
    assert((n - 1) * bs + bs == n * bs) by (nonlinear_arith);
    if b < n {
        lemma_block_at(entries, nids, counts, b, n, bs);
        assert(0 < counts[b]);
        lemma_sum_mono(counts, b + 1, n);
        lemma_sum_mono(counts, 0, b);
        lemma_list(entries, nids, counts, b + 1, bs);
        let from = sum(counts, b);
        lemma_block(entries, nids, from, counts[b], block_at(data, b * bs, bs));
        lemma_listed_join(entries, nids, from, from + counts[b], entries.len() as int);
        assert(b * bs + bs == (b + 1) * bs) by (nonlinear_arith);
        assert(name_bytes(entries, from, counts[b]).len() >= 0);
    } else {
        assert(data.len() <= n * bs);
    }
}

/// A directory reads back as its entries without "." and "..".
proof fn lemma_dir_bytes(entries: Seq<DirEntry>, nids: Seq<int>, bs: int)
    requires
        entries_fit(entries, bs),
        entries.len() > 0,
        0 < bs <= 65536,
        readable(entries),
        good_targets(entries, nids),
    ensures
        list_from(
            dir_bytes(entries, nids, dir_counts(entries, bs), dir_counts(entries, bs).len() as int, bs),
            bs,
            0,
        ) == Ok::<Seq<(Seq<u8>, u64)>, Error>(listed(entries, nids, 0, entries.len() as int)),
{
    let counts = dir_counts(entries, bs);
    let f = fill(entries, entries.len() as int, bs);
    lemma_counts(entries, bs);
    lemma_fill(entries, entries.len() as int, bs);
    assert forall|k: int| 0 <= k < counts.len() implies 0 < #[trigger] counts[k] by {
        if k < f.blocks.len() {
            assert(0 < f.blocks[k]);
        }
    }
    assert(0 * bs == 0) by (nonlinear_arith);
    lemma_list(entries, nids, counts, 0, bs);
}

/// Child `k` of item `i` as the reader lists it.
pub open spec fn child_seen(items: Seq<Numbered>, i: int, bs: int, k: int) -> (Seq<u8>, u64) {
    (kid(items[i].node, k).name@, nid_of(items, items[i].first + k, bs) as u64)
}

/// The children of item `i` as the reader lists them.
pub open spec fn children_seen(items: Seq<Numbered>, i: int, bs: int) -> Seq<(Seq<u8>, u64)> {
    Seq::new(kids_of(items[i].node).len(), |k: int| child_seen(items, i, bs, k))
}

/// A run of entries without "." and ".." is listed as it is.
proof fn lemma_listed_plain(entries: Seq<DirEntry>, nids: Seq<int>, a: int, b: int)
    requires
        forall|k: int| a <= k < b ==> !is_dot((#[trigger] entries[k]).name),
        a <= b,
    ensures
        listed(entries, nids, a, b) == Seq::new(
            (b - a) as nat,
            |k: int| (entries[a + k].name, nids[entries[a + k].target] as u64),
        ),
    decreases b - a,
{
    let all = Seq::new(
        (b - a) as nat,
        |k: int| (entries[a + k].name, nids[entries[a + k].target] as u64),
    );
    if a < b {
        lemma_listed_plain(entries, nids, a + 1, b);
        assert(!is_dot(entries[a].name));
        let rest = listed(entries, nids, a + 1, b);
        assert forall|k: int| 0 <= k < b - a implies #[trigger] (seq![
            (entries[a].name, nids[entries[a].target] as u64),
        ] + rest)[k] == all[k] by {
            if k > 0 {
                assert(rest[k - 1] == (
                    entries[a + 1 + (k - 1)].name,
                    nids[entries[a + 1 + (k - 1)].target] as u64,
                ));
            }
        }
        assert(listed(entries, nids, a, b) =~= all);
    } else {
        assert(listed(entries, nids, a, b) =~= all);
    }
}

/// Of the entries of directory `i`, the children are listed.
proof fn lemma_listed_children(root: Node, i: int, bs: int)
    requires
        fault(root, true) is None,
        0 <= i < items_of(root).len(),
    ensures
        ({
            let items = items_of(root);
            let e = dir_entries(items, i);
            listed(e, nids_of(items, bs), 0, e.len() as int) == children_seen(items, i, bs)
        }),
{
    let items = items_of(root);
    let e = dir_entries(items, i);
    let c = child_entries(items, i);
    let nids = nids_of(items, bs);
    let n = c.len() as int;
    let p = place(entry_names(c), n, dot());
    let q = place(entry_names(c), n, dotdot());
    lemma_places(entry_names(c), n);
    lemma_items(root);
    lemma_items_clean(root, true);
    assert(rooted(items, i));
    lemma_item_kids(items, i);
    assert forall|k: int| 0 <= k < n implies !is_dot((#[trigger] c[k]).name) && 0 <= c[k].target
        < items.len() by {
        assert(items[items[i].first + k].node == kid(items[i].node, k));
        assert(!bad_name(items[items[i].first + k].node.name@, true));
    }
    assert(e.len() == n + 2);
    assert forall|k: int| 0 <= k < p implies #[trigger] e[k] == c[k] by {}
    assert(e[p].name == dot());
    assert forall|k: int| p + 1 <= k < q + 1 implies #[trigger] e[k] == c[k - 1] by {}
    assert(e[q + 1].name == dotdot());
    assert forall|k: int| q + 2 <= k < n + 2 implies #[trigger] e[k] == c[k - 2] by {}
    lemma_listed_plain(e, nids, 0, p);
    lemma_listed_plain(e, nids, p + 1, q + 1);
    lemma_listed_plain(e, nids, q + 2, n + 2);
    lemma_listed_join(e, nids, p + 1, q + 1, n + 2);
    lemma_listed_join(e, nids, 0, p, n + 2);
    assert(is_dot(e[p].name) && is_dot(e[q + 1].name));
    assert(listed(e, nids, p, n + 2) == listed(e, nids, p + 1, n + 2));
    assert(listed(e, nids, q + 1, n + 2) == listed(e, nids, q + 2, n + 2));
    let seen = children_seen(items, i, bs);
    let a = listed(e, nids, 0, p);
    let b = listed(e, nids, p + 1, q + 1);
    let d = listed(e, nids, q + 2, n + 2);
    assert forall|k: int| 0 <= k < n implies #[trigger] (a + (b + d))[k] == seen[k] by {
        let x = if k < p {
            k
        } else if k < q {
            k + 1
        } else {
            k + 2
        };
        assert(e[x] == c[k]);
        if k < p {
            assert(a[k] == (e[0 + k].name, nids[e[0 + k].target] as u64));
        } else if k < q {
            assert(b[k - p] == (
                e[p + 1 + (k - p)].name,
                nids[e[p + 1 + (k - p)].target] as u64,
            ));
        } else {
            assert(d[k - q] == (
                e[q + 2 + (k - q)].name,
                nids[e[q + 2 + (k - q)].target] as u64,
            ));
        }
    }
    assert(a + (b + d) =~= seen);
}

/// Names that a directory of the image can hold: none with a NUL.
pub open spec fn good_names(root: Node) -> bool {
    forall|i: int|
        0 < i < items_of(root).len() ==> !(#[trigger] items_of(root)[i]).node.name@.contains(0u8)
}

/// The entries of directory `i` can be told apart, and point at items.
proof fn lemma_readable(root: Node, i: int, p: Params)
    requires
        writable(root, p),
        good_names(root),
        0 <= i < items_of(root).len(),
    ensures
        ({
            let items = items_of(root);
            let bs = p.block_size as int;
            let e = dir_entries(items, i);
            &&& e.len() > 0
            &&& entries_fit(e, bs)
            &&& readable(e)
            &&& good_targets(e, nids_of(items, bs))
        }),
{
    let items = items_of(root);
    let bs = p.block_size as int;
    let e = dir_entries(items, i);
    let c = child_entries(items, i);
    lemma_writable(root, p);
    lemma_ready(root, bs);
    lemma_entries(root, i, bs);
    lemma_items(root);
    lemma_items_clean(root, true);
    assert(rooted(items, i));
    lemma_item_kids(items, i);
    lemma_places(entry_names(c), c.len() as int);
    assert forall|k: int| 0 <= k < c.len() implies (#[trigger] c[k]).name.len() > 0
        && !c[k].name.contains(0u8) by {
        let x = items[i].first + k;
        assert(items[x].node == kid(items[i].node, k));
        assert(!bad_name(items[x].node.name@, true));
    }
    assert(!dot().contains(0u8));
    assert(!dotdot().contains(0u8));
    assert forall|k: int| 0 <= k < e.len() implies 0 <= (#[trigger] e[k]).target < nids_of(
        items,
        bs,
    ).len() && 0 <= nids_of(items, bs)[e[k].target] <= u64::MAX by {
        lemma_nid_fits(root, e[k].target, p);
    }
}

/// A nid fits in 64 bits.
proof fn lemma_nid_fits(root: Node, i: int, p: Params)
    requires
        writable(root, p),
        0 <= i < items_of(root).len(),
    ensures
        0 <= nid_of(items_of(root), i, p.block_size as int) <= u64::MAX,
{
    let items = items_of(root);
    let bs = p.block_size as int;
    lemma_writable(root, p);
    lemma_ready(root, bs);
    lemma_nid(items, i, bs);
    crate::fs::mkerofs::read_back::lemma_record_in_image(root, i, p);
    crate::fs::mkerofs::read_back::image_length(root, p);
    lemma_record(items, i, bs);
    let t = crate::fs::mkerofs::layout::total_blocks(items, bs);
    assert(t * bs <= u32::MAX * 65536) by (nonlinear_arith)
        requires
            t <= u32::MAX,
            0 < bs <= 65536,
    ;
}

/// The reader lists directory `i`.
proof fn lemma_dir(root: Node, i: int, p: Params)
    requires
        writable(root, p),
        good_names(root),
        0 <= i < items_of(root).len(),
        items_of(root)[i].node.kind is Dir,
    ensures
        dir_of(image_of(root, p), nid_of(items_of(root), i, p.block_size as int)) == Ok::<
            Seq<(Seq<u8>, u64)>,
            Error,
        >(children_seen(items_of(root), i, p.block_size as int)),
{
    let items = items_of(root);
    let bs = p.block_size as int;
    let node = items[i].node;
    lemma_writable(root, p);
    lemma_ready(root, bs);
    lemma_inode(root, i, p);
    lemma_data(root, i, p);
    lemma_readable(root, i, p);
    lemma_dir_bytes(dir_entries(items, i), nids_of(items, bs), bs);
    lemma_listed_children(root, i, bs);
    reveal(content);
    assert(kind_of(mode_of(node)) == Ok::<Kind, Error>(Kind::Dir));
}

/// What the reader gives for the node at `nid` is `node`, with everything
/// below it: the metadata (the time is the build time), the content, and the
/// children in the order of their names.
pub open spec fn reads_as(image: Seq<u8>, nid: int, node: Node, time: int) -> bool
    decreases node,
{
    &&& meta_of(image, Seq::empty(), nid) matches Ok(m) && {
        &&& m.kind == node_kind(node)
        &&& m.mode == node.mode % 0x1000
        &&& m.uid == node.uid
        &&& m.gid == node.gid
        &&& m.mtime == signed_time(time)
        &&& m.selinux == crate::fs::text_view(node.selinux)
        &&& m.capabilities == node.capabilities
    }
    &&& match node.kind {
        NodeKind::File { data } => file_of(image, nid) == Ok::<Seq<u8>, Error>(data@),
        NodeKind::Symlink(target) => file_of(image, nid) == Ok::<Seq<u8>, Error>(target@),
        NodeKind::Dir(ch) => {
            &&& dir_of(image, nid) is Ok
            &&& dir_of(image, nid)->Ok_0.len() == ch@.len()
            &&& forall|k: int|
                0 <= k < ch@.len() && 0 <= #[trigger] kids_of(node)[k] < ch@.len() ==> {
                    let entry = dir_of(image, nid)->Ok_0[k];
                    let child = ch@[kids_of(node)[k]];
                    &&& entry.0 == child.name@
                    &&& reads_as(image, entry.1 as int, child, time)
                }
        },
    }
}

/// Labels that the xattrs of the image can hold.
pub open spec fn good_labels(root: Node) -> bool {
    forall|i: int| 0 <= i < items_of(root).len() ==> good_label((#[trigger] items_of(root)[i]).node)
}

/// The metadata of item `i` reads back.
proof fn lemma_item_meta(root: Node, i: int, p: Params)
    requires
        writable(root, p),
        good_labels(root),
        0 <= i < items_of(root).len(),
    ensures
        ({
            let node = items_of(root)[i].node;
            let nid = nid_of(items_of(root), i, p.block_size as int);
            let r = meta_of(image_of(root, p), Seq::empty(), nid);
            let m = r->Ok_0;
            &&& r is Ok
            &&& m.kind == node_kind(node)
            &&& m.mode == node.mode % 0x1000
            &&& m.uid == node.uid
            &&& m.gid == node.gid
            &&& m.mtime == signed_time(p.timestamp as int)
            &&& m.selinux == crate::fs::text_view(node.selinux)
            &&& m.capabilities == node.capabilities
        }),
{
    assert(good_label(items_of(root)[i].node));
    metadata_reads_back(root, i, p);
}

/// The content of item `i` reads back.
proof fn lemma_item_content(root: Node, i: int, p: Params)
    requires
        writable(root, p),
        0 <= i < items_of(root).len(),
        items_of(root)[i].node.kind !is Dir,
    ensures
        file_of(image_of(root, p), nid_of(items_of(root), i, p.block_size as int)) == Ok::<
            Seq<u8>,
            Error,
        >(
            match items_of(root)[i].node.kind {
                NodeKind::File { data } => data@,
                NodeKind::Symlink(t) => t@,
                NodeKind::Dir(_) => Seq::empty(),
            },
        ),
{
    lemma_writable(root, p);
    lemma_ready(root, p.block_size as int);
    lemma_inode(root, i, p);
    lemma_data(root, i, p);
    reveal(content);
}

/// The listing of directory `i` names its children, and where they are.
proof fn lemma_item_children(root: Node, i: int, p: Params, k: int)
    requires
        writable(root, p),
        good_names(root),
        0 <= i < items_of(root).len(),
        items_of(root)[i].node.kind is Dir,
        0 <= k < items_of(root)[i].node.kind->Dir_0@.len(),
    ensures
        ({
            let items = items_of(root);
            let bs = p.block_size as int;
            let node = items[i].node;
            let list = dir_of(image_of(root, p), nid_of(items, i, bs));
            let x = items[i].first + k;
            &&& list is Ok
            &&& list->Ok_0.len() == node.kind->Dir_0@.len()
            &&& 0 <= x < items.len()
            &&& items[x].node == kid(node, k)
            &&& list->Ok_0[k].0 == kid(node, k).name@
            &&& list->Ok_0[k].1 == nid_of(items, x, bs)
        }),
{
    let items = items_of(root);
    let bs = p.block_size as int;
    let node = items[i].node;
    lemma_kids(node);
    lemma_dir(root, i, p);
    lemma_items(root);
    assert(rooted(items, i));
    lemma_item_kids(items, i);
    let x = items[i].first + k;
    assert(items[x].node == kid(node, k));
    lemma_nid_fits(root, x, p);
    assert(children_seen(items, i, bs)[k] == child_seen(items, i, bs, k));
}

proof fn lemma_reads_as(root: Node, i: int, p: Params, node: Node)
    requires
        writable(root, p),
        good_names(root),
        good_labels(root),
        0 <= i < items_of(root).len(),
        items_of(root)[i].node == node,
    ensures
        reads_as(
            image_of(root, p),
            nid_of(items_of(root), i, p.block_size as int),
            node,
            p.timestamp as int,
        ),
    decreases node,
{
    let items = items_of(root);
    let bs = p.block_size as int;
    let img = image_of(root, p);
    let nid = nid_of(items, i, bs);
    lemma_item_meta(root, i, p);
    match node.kind {
        NodeKind::Dir(ch) => {
            lemma_dir(root, i, p);
            lemma_kids(node);
            lemma_listing_len(root, i, p);
            assert forall|k: int|
                0 <= k < ch@.len() && 0 <= #[trigger] kids_of(node)[k] < ch@.len() implies ({
                let entry = dir_of(img, nid)->Ok_0[k];
                let child = ch@[kids_of(node)[k]];
                &&& entry.0 == child.name@
                &&& reads_as(img, entry.1 as int, child, p.timestamp as int)
            }) by {
                lemma_item_children(root, i, p, k);
                lemma_reads_as(root, items[i].first + k, p, ch@[kids_of(node)[k]]);
            }
        },
        _ => {
            lemma_item_content(root, i, p);
        },
    }
}

/// The listing of directory `i` has as many entries as it has children.
proof fn lemma_listing_len(root: Node, i: int, p: Params)
    requires
        writable(root, p),
        good_names(root),
        0 <= i < items_of(root).len(),
        items_of(root)[i].node.kind is Dir,
    ensures
        dir_of(
            image_of(root, p),
            nid_of(items_of(root), i, p.block_size as int),
        )->Ok_0.len() == items_of(root)[i].node.kind->Dir_0@.len(),
{
    lemma_kids(items_of(root)[i].node);
    lemma_dir(root, i, p);
}

/// Reading an image gives back the tree that it was written from: names,
/// permissions, owners, labels, capabilities, contents and link targets. It
/// holds of every tree that can be written whose names and labels have no
/// NUL and whose labels fit in an xattr.
pub proof fn erofs_round_trip(root: Node, p: Params)
    requires
        writable(root, p),
        good_names(root),
        good_labels(root),
    ensures
        open_fault(image_of(root, p)) is None,
        prefixes_of(image_of(root, p)) == Ok::<Seq<(u8, Seq<u8>)>, Error>(Seq::empty()),
        reads_as(
            image_of(root, p),
            le16(image_of(root, p), 1038),
            root,
            p.timestamp as int,
        ),
{
    lemma_writable(root, p);
    lemma_opens(root, p);
    crate::fs::mkerofs::read_back::lemma_sb(root, p);
    lemma_reads_as(root, 0, p, root);
}

} // verus!
