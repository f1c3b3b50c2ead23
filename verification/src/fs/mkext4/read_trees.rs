//! The extent trees of a written image, as the reader follows them.
use vstd::prelude::*;
use crate::bytes::{bytes16, bytes32, ceil_div, le16, le32, lemma_bytes16, lemma_bytes32};
use crate::error::Error;
use crate::fs::ext4::{block_at, block_size, blocks_count, data_of, extents_from, extents_in,
    extents_of, leaf_in, ExtentView, InodeView};
use crate::fs::mkext4::extents::{chunk_end, data_ok, index_bytes, leaf_bytes, leaves, lemma_chunk,
    lemma_leaves, lemma_node_len, lemma_packed, lemma_shrinks, lemma_stored, lemma_tree, level_ok,
    node_bytes, pack, packed, per_block, split_runs, store, tree, Level, Run, MAX_EXTENT_LEN};
use crate::fs::mkext4::inode::mapped;
use crate::fs::mkext4::layout::{nth_block, supported, Groups};
use crate::fs::mkext4::read_extents::{all_seen, good_run, lemma_block, lemma_bytes_from,
    lemma_last_block, lemma_shows_prefix, lemma_sorted, lemma_split_all, lemma_stored_maps, maps,
    run_end, seen, short, shows};

verus! {

broadcast use crate::bytes::group_byte_lens;

/// Entry `x` of a node.
pub open spec fn entry(v: Seq<u8>, x: int) -> Seq<u8> {
    v.subrange(12 * x, 12 * x + 12)
}

/// The block that an index entry points to.
pub open spec fn child_of(e: Seq<u8>) -> int {
    le32(e, 4) + 0x1_0000_0000 * le16(e, 8)
}

/// The reader finds the extents `xs` under an entry of a node of depth
/// `depth`.
#[verifier::opaque]
pub open spec fn entry_reads(img: Seq<u8>, e: Seq<u8>, depth: int, xs: Seq<ExtentView>) -> bool {
    if depth == 0 {
        xs == seq![leaf_in(e, 0)]
    } else {
        &&& block_at(img, child_of(e)) is Ok
        &&& forall|lv: int|
            1 <= lv && lv + depth <= 9 ==> #[trigger] extents_in(
                img,
                block_at(img, child_of(e))->Ok_0,
                lv,
            ) == Ok::<Seq<ExtentView>, Error>(xs)
    }
}

/// The lists `a..b` one after the other.
pub open spec fn flat(e: Seq<Seq<ExtentView>>, a: int, b: int) -> Seq<ExtentView>
    decreases b - a,
{
    if a >= b {
        Seq::empty()
    } else {
        e[a] + flat(e, a + 1, b)
    }
}

proof fn lemma_flat_split(e: Seq<Seq<ExtentView>>, a: int, b: int, c: int)
    requires
        a <= b <= c,
    ensures
        flat(e, a, c) == flat(e, a, b) + flat(e, b, c),
    decreases b - a,
{
    if a < b {
        lemma_flat_split(e, a + 1, b, c);
        assert(e[a] + (flat(e, a + 1, b) + flat(e, b, c)) =~= e[a] + flat(e, a + 1, b) + flat(
            e,
            b,
            c,
        ));
    } else {
        assert(flat(e, a, c) =~= Seq::<ExtentView>::empty() + flat(e, b, c));
    }
}

proof fn lemma_flat_part(e: Seq<Seq<ExtentView>>, from: int, to: int, a: int)
    requires
        0 <= from <= to <= e.len(),
        0 <= a <= to - from,
    ensures
        flat(e.subrange(from, to), a, to - from) == flat(e, from + a, to),
    decreases to - from - a,
{
    if a < to - from {
        lemma_flat_part(e, from, to, a + 1);
    }
}

/// The reader finds the lists `e` under the entries of a level.
#[verifier::opaque]
pub open spec fn level_reads(
    img: Seq<u8>,
    v: Level,
    depth: int,
    e: Seq<Seq<ExtentView>>,
) -> bool {
    &&& level_ok(v)
    &&& e.len() == v.firsts.len()
    &&& forall|x: int|
        0 <= x < e.len() ==> entry_reads(img, #[trigger] entry(v.bytes, x), depth, e[x])
}

/// A node reads as its entries.
proof fn lemma_from(
    img: Seq<u8>,
    node: Seq<u8>,
    bytes: Seq<u8>,
    e: Seq<Seq<ExtentView>>,
    depth: int,
    lv: int,
    k: int,
)
    requires
        0 <= depth <= 8,
        0 <= lv,
        lv + depth <= 8,
        e.len() <= 0xFFFF,
        bytes.len() == 12 * e.len(),
        node.len() >= 12 + bytes.len(),
        node.subrange(12, 12 + bytes.len() as int) == bytes,
        le16(node, 2) == e.len(),
        le16(node, 6) == depth,
        forall|x: int| 0 <= x < e.len() ==> entry_reads(img, #[trigger] entry(bytes, x), depth, e[x]),
        0 <= k <= e.len(),
    ensures
        extents_from(img, node, lv, k) == Ok::<Seq<ExtentView>, Error>(flat(e, k, e.len() as int)),
    decreases e.len() - k,
{
    let n = e.len() as int;
    if k < n {
        lemma_from(img, node, bytes, e, depth, lv, k + 1);
        let x = entry(bytes, k);
        let at = 12 + 12 * k;
        assert(entry_reads(img, x, depth, e[k]));
        assert forall|t: int| 0 <= t < 12 implies #[trigger] x[t] == node[at + t] by {
            assert(node.subrange(12, 12 + bytes.len() as int)[12 * k + t] == node[at + t]);
        }
        assert(x[0] == node[at]);
        reveal(entry_reads);
        if depth == 0 {
            assert(leaf_in(node, at) == leaf_in(x, 0));
        } else {
            let child = le32(node, at + 4) + 0x1_0000_0000 * le16(node, at + 8);
            assert(child == child_of(x));
            let b = block_at(img, child)->Ok_0;
            assert(extents_in(img, b, lv + 1) == Ok::<Seq<ExtentView>, Error>(e[k]));
        }
    }
}

pub proof fn lemma_node_reads(
    img: Seq<u8>,
    bytes: Seq<u8>,
    e: Seq<Seq<ExtentView>>,
    max: int,
    depth: int,
    total: int,
    lv: int,
)
    requires
        0 <= depth <= 8,
        0 <= lv,
        lv + depth <= 8,
        e.len() <= 0xFFFF,
        bytes.len() == 12 * e.len(),
        12 + bytes.len() <= total,
        forall|x: int| 0 <= x < e.len() ==> entry_reads(img, #[trigger] entry(bytes, x), depth, e[x]),
    ensures
        extents_in(img, node_bytes(bytes, max, depth, total), lv) == Ok::<Seq<ExtentView>, Error>(
            flat(e, 0, e.len() as int),
        ),
{
    let node = node_bytes(bytes, max, depth, total);
    let n = e.len() as int;
    lemma_node_len(bytes, max, depth, total);
    lemma_bytes16(0xF30A);
    lemma_bytes16(n);
    lemma_bytes16(depth);
    assert(bytes.len() as int / 12 == n);
    assert(le16(node, 0) == le16(bytes16(0xF30A), 0));
    assert(le16(node, 2) == le16(bytes16(n), 0));
    assert(le16(node, 6) == le16(bytes16(depth), 0));
    assert(node.subrange(12, 12 + bytes.len() as int) =~= bytes);
    lemma_from(img, node, bytes, e, depth, lv, 0);
}

/// Extents that 12 bytes can hold.
pub open spec fn encodable(runs: Seq<Run>) -> bool {
    forall|k: int|
        0 <= k < runs.len() ==> 0 <= (#[trigger] runs[k]).lg <= u32::MAX && 0 < runs[k].len
            <= MAX_EXTENT_LEN && 0 <= runs[k].ph <= u32::MAX
}

proof fn lemma_leaf(r: Run)
    requires
        0 <= r.lg <= u32::MAX,
        0 < r.len <= MAX_EXTENT_LEN,
        0 <= r.ph <= u32::MAX,
    ensures
        leaf_in(leaf_bytes(r), 0) == seen(r),
{
    let b = leaf_bytes(r);
    lemma_bytes32(r.lg);
    lemma_bytes16(r.len);
    lemma_bytes16(0);
    lemma_bytes32(r.ph);
    assert(r.ph / 0x1_0000_0000 == 0);
    assert(r.ph % 0x1_0000_0000 == r.ph);
    assert(r.lg % 0x1_0000_0000 == r.lg);
    assert(le32(b, 0) == le32(bytes32(r.lg), 0));
    assert(le16(b, 4) == le16(bytes16(r.len), 0));
    assert(le16(b, 6) == le16(bytes16(0), 0));
    assert(le32(b, 8) == le32(bytes32(r.ph), 0));
}

/// The lists under the leaves.
pub open spec fn leaf_lists(runs: Seq<Run>, n: int) -> Seq<Seq<ExtentView>> {
    Seq::new(n as nat, |k: int| seq![seen(runs[k])])
}

proof fn lemma_leaf_level(img: Seq<u8>, runs: Seq<Run>, n: int)
    requires
        encodable(runs),
        0 <= n <= runs.len(),
    ensures
        level_reads(img, leaves(runs, n), 0, leaf_lists(runs, n)),
    decreases n,
{
    lemma_leaves(runs, n);
    let v = leaves(runs, n);
    let e = leaf_lists(runs, n);
    reveal(level_reads);
    if n > 0 {
        lemma_leaf_level(img, runs, n - 1);
        lemma_leaves(runs, n - 1);
        let u = leaves(runs, n - 1);
        let b = leaf_bytes(runs[n - 1]);
        assert forall|x: int| 0 <= x < e.len() implies entry_reads(
            img,
            #[trigger] entry(v.bytes, x),
            0,
            e[x],
        ) by {
            if x < n - 1 {
                assert(entry(v.bytes, x) =~= entry(u.bytes, x));
                assert(entry_reads(img, entry(u.bytes, x), 0, leaf_lists(runs, n - 1)[x]));
            } else {
                assert(entry(v.bytes, x) =~= b);
                lemma_leaf(runs[n - 1]);
                reveal(entry_reads);
            }
        }
    }
}

proof fn lemma_flat_leaves(runs: Seq<Run>, n: int, a: int)
    requires
        0 <= a <= n <= runs.len(),
    ensures
        flat(leaf_lists(runs, n), a, n) == all_seen(runs).subrange(a, n),
    decreases n - a,
{
    if a < n {
        lemma_flat_leaves(runs, n, a + 1);
        assert(flat(leaf_lists(runs, n), a, n) =~= all_seen(runs).subrange(a, n));
    } else {
        assert(all_seen(runs).subrange(a, n) =~= Seq::<ExtentView>::empty());
    }
}

/// The lists under the first `c` entries of the level above.
pub open spec fn upper_lists(e: Seq<Seq<ExtentView>>, c: int, bs: int) -> Seq<Seq<ExtentView>> {
    Seq::new(
        c as nat,
        |k: int| flat(e, k * per_block(bs), chunk_end(k, e.len() as int, bs)),
    )
}

/// A chunk that was stored reads as its entries.
proof fn lemma_chunk_reads(
    img: Seq<u8>,
    l: Groups,
    d: Seq<u8>,
    v: Level,
    depth: int,
    e: Seq<Seq<ExtentView>>,
    c: int,
    e12: Seq<u8>,
)
    requires
        supported(l.bs),
        level_reads(img, v, depth, e),
        0 <= depth < 8,
        data_ok(l, d),
        0 <= c < ceil_div(v.firsts.len() as int, per_block(l.bs)),
        ({
            let from = c * per_block(l.bs);
            let to = chunk_end(c, v.firsts.len() as int, l.bs);
            shows(
                img,
                l,
                d + node_bytes(
                    v.bytes.subrange(12 * from, 12 * to),
                    per_block(l.bs),
                    depth,
                    l.bs,
                ),
            )
        }),
        e12 == index_bytes(v.firsts[c * per_block(l.bs)], nth_block(l, d.len() as int / l.bs)),
    ensures
        entry_reads(
            img,
            e12,
            depth + 1,
            flat(e, c * per_block(l.bs), chunk_end(c, e.len() as int, l.bs)),
        ),
{
    reveal(level_reads);
    let n = v.firsts.len() as int;
    let from = c * per_block(l.bs);
    let to = chunk_end(c, n, l.bs);
    lemma_chunk(c, n, l.bs);
    let sub = v.bytes.subrange(12 * from, 12 * to);
    let part = e.subrange(from, to);
    let node = node_bytes(sub, per_block(l.bs), depth, l.bs);
    lemma_node_len(sub, per_block(l.bs), depth, l.bs);
    lemma_last_block(l, d, node);
    let k = d.len() as int / l.bs;
    assert(0 <= k) by (nonlinear_arith)
        requires
            k == d.len() as int / l.bs,
            0 < l.bs,
    ;
    lemma_block(img, l, d + node, k);
    let b = nth_block(l, k);
    assert(b <= u32::MAX) by {
        reveal(shows);
    }
    lemma_index(v.firsts[from], b);
    assert forall|x: int| 0 <= x < part.len() implies entry_reads(
        img,
        #[trigger] entry(sub, x),
        depth,
        part[x],
    ) by {
        assert(entry(sub, x) =~= entry(v.bytes, from + x));
        assert(entry_reads(img, entry(v.bytes, from + x), depth, e[from + x]));
    }
    lemma_flat_part(e, from, to, 0);
    let xs = flat(e, from, to);
    assert forall|lv: int| 1 <= lv && lv + (depth + 1) <= 9 implies #[trigger] extents_in(
        img,
        node,
        lv,
    ) == Ok::<Seq<ExtentView>, Error>(xs) by {
        lemma_node_reads(img, sub, part, per_block(l.bs), depth, l.bs, lv);
    }
    reveal(entry_reads);
    assert(block_at(img, child_of(e12)) == Ok::<Seq<u8>, Error>(node));
}

proof fn lemma_index(first: int, child: int)
    requires
        0 <= child <= u32::MAX,
    ensures
        child_of(index_bytes(first, child)) == child,
        index_bytes(first, child).len() == 12,
{
    let b = index_bytes(first, child);
    lemma_bytes32(child);
    lemma_bytes16(0);
    assert(child / 0x1_0000_0000 == 0);
    assert(child % 0x1_0000_0000 == child);
    assert(le32(b, 4) == le32(bytes32(child), 0));
    assert(le16(b, 8) == le16(bytes16(0), 0));
}

/// A level that was stored reads as before.
proof fn lemma_packed_reads(
    img: Seq<u8>,
    l: Groups,
    data: Seq<u8>,
    v: Level,
    depth: int,
    e: Seq<Seq<ExtentView>>,
    c: int,
)
    requires
        supported(l.bs),
        level_reads(img, v, depth, e),
        0 <= depth < 8,
        data_ok(l, data),
        0 <= c <= ceil_div(v.firsts.len() as int, per_block(l.bs)),
        packed(l, data, v, depth, c) is Some,
        shows(img, l, packed(l, data, v, depth, c)->Some_0.data),
    ensures
        level_reads(
            img,
            packed(l, data, v, depth, c)->Some_0.level,
            depth + 1,
            upper_lists(e, c, l.bs),
        ),
    decreases c,
{
    assert(level_ok(v) && e.len() == v.firsts.len()) by {
        reveal(level_reads);
    }
    let up = upper_lists(e, c, l.bs);
    if c <= 0 {
        reveal(level_reads);
    } else {
        let q = packed(l, data, v, depth, c - 1)->Some_0;
        let p = packed(l, data, v, depth, c)->Some_0;
        lemma_packed(l, data, v, depth, c - 1);
        lemma_packed(l, data, v, depth, c);
        assert(p.data.take(q.data.len() as int) =~= q.data);
        lemma_shows_prefix(img, l, q.data, p.data);
        lemma_packed_reads(img, l, data, v, depth, e, c - 1);
        let from = (c - 1) * per_block(l.bs);
        let b = index_bytes(v.firsts[from], nth_block(l, q.data.len() as int / l.bs));
        lemma_chunk_reads(img, l, q.data, v, depth, e, c - 1, b);
        reveal(level_reads);
        assert forall|x: int| 0 <= x < up.len() implies entry_reads(
            img,
            #[trigger] entry(p.level.bytes, x),
            depth + 1,
            up[x],
        ) by {
            if x < c - 1 {
                assert(entry(p.level.bytes, x) =~= entry(q.level.bytes, x));
                assert(entry_reads(
                    img,
                    entry(q.level.bytes, x),
                    depth + 1,
                    upper_lists(e, c - 1, l.bs)[x],
                ));
            } else {
                assert(entry(p.level.bytes, x) =~= b);
            }
        }
    }
}

proof fn lemma_flat_upper(e: Seq<Seq<ExtentView>>, c: int, m: int, bs: int)
    requires
        24 <= bs,
        m == ceil_div(e.len() as int, per_block(bs)),
        0 <= c <= m,
    ensures
        flat(upper_lists(e, m, bs), 0, c) == flat(
            e,
            0,
            if c < m {
                c * per_block(bs)
            } else {
                e.len() as int
            },
        ),
    decreases c,
{
    let u = upper_lists(e, m, bs);
    let n = e.len() as int;
    let per = per_block(bs);
    if c <= 0 {
        assert(0 * per == 0) by (nonlinear_arith);
        if m == 0 {
            assert(n <= 0) by (nonlinear_arith)
                requires
                    (n + per - 1) / per == 0,
                    0 < per,
            ;
        }
    } else {
        lemma_flat_upper(e, c - 1, m, bs);
        lemma_flat_split(u, 0, c - 1, c);
        lemma_chunk(c - 1, n, bs);
        let from = (c - 1) * per;
        let to = chunk_end(c - 1, n, bs);
        assert(flat(u, c, c) =~= Seq::<ExtentView>::empty());
        assert(flat(u, c - 1, c) =~= u[c - 1]);
        lemma_flat_split(e, 0, from, to);
    }
}

/// The most entries of a level below which `k` levels are still allowed.
pub open spec fn limit(k: int) -> int
    decreases k,
{
    if k <= 0 {
        4
    } else {
        84 * limit(k - 1)
    }
}

proof fn lemma_limit(n: int, k: int, bs: int)
    requires
        supported(bs),
        0 < k,
        0 <= n <= limit(k),
    ensures
        ceil_div(n, per_block(bs)) <= limit(k - 1),
{
    let m = per_block(bs);
    let q = limit(k - 1);
    assert((n + m - 1) / m <= q) by (nonlinear_arith)
        requires
            n <= 84 * q,
            84 <= m,
            0 <= n,
    ;
}

/// The top of an extent tree reads as its leaves.
pub proof fn lemma_tree_reads(
    img: Seq<u8>,
    l: Groups,
    data: Seq<u8>,
    v: Level,
    depth: int,
    e: Seq<Seq<ExtentView>>,
) -> (top: Seq<Seq<ExtentView>>)
    requires
        supported(l.bs),
        level_reads(img, v, depth, e),
        0 <= depth <= 8,
        v.firsts.len() <= limit(8 - depth),
        data_ok(l, data),
        tree(l, data, v, depth) is Some,
        shows(img, l, tree(l, data, v, depth)->Some_0.data),
    ensures
        ({
            let t = tree(l, data, v, depth)->Some_0;
            &&& 0 <= t.depth <= 8
            &&& t.level.firsts.len() <= 4
            &&& level_reads(img, t.level, t.depth, top)
            &&& flat(top, 0, top.len() as int) == flat(e, 0, e.len() as int)
        }),
    decreases v.firsts.len(),
{
    assert(level_ok(v) && e.len() == v.firsts.len()) by {
        reveal(level_reads);
    }
    if v.firsts.len() <= 4 {
        e
    } else {
        let n = v.firsts.len() as int;
        let m = ceil_div(n, per_block(l.bs));
        lemma_shrinks(n, l.bs);
        lemma_packed(l, data, v, depth, m);
        let p = pack(l, data, v, depth)->Some_0;
        let t = tree(l, data, v, depth)->Some_0;
        lemma_tree(l, p.data, p.level, depth + 1);
        lemma_shows_prefix(img, l, p.data, t.data);
        lemma_limit(n, 8 - depth, l.bs);
        lemma_packed_reads(img, l, data, v, depth, e, m);
        lemma_flat_upper(e, m, m, l.bs);
        lemma_tree_reads(img, l, p.data, p.level, depth + 1, upper_lists(e, m, l.bs))
    }
}

/// There are no more runs than blocks.
proof fn lemma_few_runs(
    img: Seq<u8>,
    l: Groups,
    content: Seq<u8>,
    runs: Seq<Run>,
    n: int,
    k: int,
)
    requires
        maps(img, l, content, runs, n),
        0 <= k <= runs.len(),
    ensures
        k <= run_end(runs, k),
    decreases k,
{
    if k > 0 {
        lemma_few_runs(img, l, content, runs, n, k - 1);
        reveal(maps);
        reveal(good_run);
        assert(run_end(runs, k - 1) <= crate::fs::mkext4::read_extents::gap_end(runs, k - 1, n));
        assert(good_run(img, l, content, runs[k - 1]));
    }
}

/// Runs of a content of at most 2^32 blocks can be encoded.
proof fn lemma_encodable(img: Seq<u8>, l: Groups, content: Seq<u8>, runs: Seq<Run>, n: int)
    requires
        maps(img, l, content, runs, n),
        short(runs),
        ceil_div(content.len() as int, l.bs) <= 0x1_0000_0000,
        l.blocks <= u32::MAX,
    ensures
        encodable(runs),
{
    reveal(maps);
    reveal(good_run);
    assert forall|k: int| 0 <= k < runs.len() implies 0 <= (#[trigger] runs[k]).lg <= u32::MAX && 0
        < runs[k].len <= MAX_EXTENT_LEN && 0 <= runs[k].ph <= u32::MAX by {
        assert(good_run(img, l, content, runs[k]));
    }
}

/// Content that was stored reads back, through the bytes in the inode.
pub proof fn lemma_mapped_reads(
    img: Seq<u8>,
    l: Groups,
    data: Seq<u8>,
    content: Seq<u8>,
    sparse: bool,
    inode: InodeView,
    path: Seq<int>,
)
    requires
        supported(l.bs),
        data_ok(l, data),
        mapped(l, data, content, sparse) is Ok,
        shows(img, l, mapped(l, data, content, sparse)->Ok_0.data),
        ceil_div(content.len() as int, l.bs) <= 0x1_0000_0000,
        inode.flags == 0x80000,
        inode.block == mapped(l, data, content, sparse)->Ok_0.block,
        inode.size == content.len(),
    ensures
        data_of(img, inode, path) == Ok::<Seq<u8>, Error>(content),
{
    let pl = mapped(l, data, content, sparse)->Ok_0;
    let n = ceil_div(content.len() as int, l.bs);
    assert(0 <= n) by (nonlinear_arith)
        requires
            n == (content.len() + l.bs - 1) / l.bs,
            0 < l.bs,
    ;
    let s = store(l, data, content, sparse)->Some_0;
    lemma_stored(l, data, content, n, sparse);
    let runs = split_runs(s.runs, s.runs.len() as int);
    let k = runs.len() as int;
    let v = leaves(runs, k);
    lemma_leaves(runs, k);
    lemma_tree(l, s.data, v, 0);
    let t = tree(l, s.data, v, 0)->Some_0;
    lemma_shows_prefix(img, l, s.data, t.data);
    lemma_stored_maps(img, l, data, content, n, sparse);
    lemma_split_all(img, l, content, s.runs, n);
    assert(block_size(img) == l.bs && blocks_count(img) == l.blocks && l.blocks <= u32::MAX) by {
        reveal(shows);
    }
    lemma_encodable(img, l, content, runs, n);
    lemma_few_runs(img, l, content, runs, n, k);
    assert(k <= n) by {
        reveal(maps);
        assert(run_end(runs, k) <= crate::fs::mkext4::read_extents::gap_end(runs, k, n));
    }
    assert(limit(8) >= 0x1_0000_0000) by {
        reveal_with_fuel(limit, 9);
    }
    lemma_leaf_level(img, runs, k);
    let top = lemma_tree_reads(img, l, s.data, v, 0, leaf_lists(runs, k));
    assert(level_ok(t.level) && top.len() == t.level.firsts.len()) by {
        reveal(level_reads);
    }
    assert forall|x: int| 0 <= x < top.len() implies entry_reads(
        img,
        #[trigger] entry(t.level.bytes, x),
        t.depth,
        top[x],
    ) by {
        reveal(level_reads);
    }
    lemma_node_reads(img, t.level.bytes, top, 4, t.depth, 60, 0);
    lemma_flat_leaves(runs, k, 0);
    assert(all_seen(runs).subrange(0, k) =~= all_seen(runs));
    lemma_sorted(img, l, content, runs, n, k);
    assert(all_seen(runs).take(k) =~= all_seen(runs));
    lemma_bytes_from(img, l, content, runs, 0);
    assert(0 * l.bs == 0) by (nonlinear_arith);
    assert(content.skip(0) =~= content);
    let flags: u32 = inode.flags;
    assert(flags & 0x800 == 0 && flags & 0x1000_0000 == 0 && flags & 0x80000 != 0) by (bit_vector)
        requires
            flags == 0x80000,
    ;
    reveal(data_of);
    reveal(extents_of);
}

} // verus!
