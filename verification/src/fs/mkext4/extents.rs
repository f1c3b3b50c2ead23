//! Content in blocks, and the extent trees that map it.
//!
//! Content is stored in the free blocks of the image in the order in which
//! they are handed out, so `data`, the blocks stored so far, only grows: its
//! block `k` stands in the image at block `nth_block(k)`.
use vstd::prelude::*;
use crate::bytes::{bytes16, bytes32, ceil_div, div_up, push16, push32, push_bytes, push_zeros,
    start16, start32, zero_seq};
use crate::error::Error;
use crate::fs::mkext4::layout::{capacity, lemma_bounds, nth_block, well_formed, Groups, Layout};

verus! {

broadcast use crate::bytes::group_byte_lens;

pub const MAX_EXTENT_LEN: u64 = 32768;

/// A run of blocks: `len` logical blocks from `lg` on, stored from block `ph`
/// on.
pub struct Run {
    pub lg: int,
    pub ph: int,
    pub len: int,
}

/// A block joins the run that it continues, or starts a new one.
pub open spec fn with_block(runs: Seq<Run>, lg: int, ph: int) -> Seq<Run> {
    let r = runs.last();
    if runs.len() > 0 && r.lg + r.len == lg && r.ph + r.len == ph {
        runs.update(runs.len() - 1, Run { len: r.len + 1, ..r })
    } else {
        runs.push(Run { lg, ph, len: 1 })
    }
}

/// Block `k` of some content; the last one may be short.
pub open spec fn block_in(content: Seq<u8>, k: int, bs: int) -> Seq<u8> {
    content.subrange(
        k * bs,
        if (k + 1) * bs < content.len() {
            (k + 1) * bs
        } else {
            content.len() as int
        },
    )
}

pub open spec fn all_zero(b: Seq<u8>) -> bool {
    forall|i: int| 0 <= i < b.len() ==> #[trigger] b[i] == 0
}

/// A block, filled up with zeros.
pub open spec fn padded(b: Seq<u8>, bs: int) -> Seq<u8> {
    b + zero_seq(bs - b.len())
}

/// Blocks stored so far, and the runs of the content that is being stored.
pub struct Stored {
    pub data: Seq<u8>,
    pub runs: Seq<Run>,
}

/// Stores the first `n` blocks of some content. With `sparse`, all-zero
/// blocks are left as holes. Nothing where the image is full.
pub open spec fn stored(
    l: Groups,
    data: Seq<u8>,
    content: Seq<u8>,
    n: int,
    sparse: bool,
) -> Option<Stored>
    decreases n,
{
    if n <= 0 {
        Some(Stored { data, runs: Seq::empty() })
    } else {
        match stored(l, data, content, n - 1, sparse) {
            None => None,
            Some(s) => {
                let b = block_in(content, n - 1, l.bs);
                let k = s.data.len() as int / l.bs;
                if sparse && all_zero(b) {
                    Some(s)
                } else if k >= capacity(l) {
                    None
                } else {
                    Some(
                        Stored {
                            data: s.data + padded(b, l.bs),
                            runs: with_block(s.runs, n - 1, nth_block(l, k)),
                        },
                    )
                }
            },
        }
    }
}

/// Stores all of some content.
pub open spec fn store(l: Groups, data: Seq<u8>, content: Seq<u8>, sparse: bool) -> Option<Stored> {
    stored(l, data, content, ceil_div(content.len() as int, l.bs), sparse)
}

/// A run in pieces that an extent can hold.
pub open spec fn split_run(r: Run) -> Seq<Run>
    decreases r.len,
{
    if r.len <= MAX_EXTENT_LEN {
        if r.len <= 0 {
            Seq::empty()
        } else {
            seq![r]
        }
    } else {
        seq![Run { len: MAX_EXTENT_LEN as int, ..r }] + split_run(
            Run {
                lg: r.lg + MAX_EXTENT_LEN,
                ph: r.ph + MAX_EXTENT_LEN,
                len: r.len - MAX_EXTENT_LEN,
            },
        )
    }
}

/// The first `n` runs in pieces that an extent can hold.
pub open spec fn split_runs(runs: Seq<Run>, n: int) -> Seq<Run>
    decreases n,
{
    if n <= 0 {
        Seq::empty()
    } else {
        split_runs(runs, n - 1) + split_run(runs[n - 1])
    }
}

/// An extent.
pub open spec fn leaf_bytes(r: Run) -> Seq<u8> {
    bytes32(r.lg % 0x1_0000_0000) + bytes16(r.len) + bytes16(r.ph / 0x1_0000_0000) + bytes32(
        r.ph % 0x1_0000_0000,
    )
}

/// A pointer to a node of the extent tree.
pub open spec fn index_bytes(first: int, child: int) -> Seq<u8> {
    bytes32(first % 0x1_0000_0000) + bytes32(child % 0x1_0000_0000) + bytes16(child / 0x1_0000_0000) + bytes16(0)
}

/// One level of an extent tree: the first logical block of each entry, and
/// the entries, 12 bytes each.
pub struct Level {
    pub firsts: Seq<int>,
    pub bytes: Seq<u8>,
}

/// The lowest level: the first `n` extents.
pub open spec fn leaves(runs: Seq<Run>, n: int) -> Level
    decreases n,
{
    if n <= 0 {
        Level { firsts: Seq::empty(), bytes: Seq::empty() }
    } else {
        let v = leaves(runs, n - 1);
        Level { firsts: v.firsts.push(runs[n - 1].lg), bytes: v.bytes + leaf_bytes(runs[n - 1]) }
    }
}

/// A node of the extent tree that takes `total` bytes.
pub open spec fn node_bytes(bytes: Seq<u8>, max: int, depth: int, total: int) -> Seq<u8> {
    bytes16(0xF30A) + bytes16(bytes.len() as int / 12) + bytes16(max) + bytes16(depth) + bytes32(0)
        + bytes + zero_seq(total - 12 - bytes.len())
}

/// Entries in a block of the extent tree.
pub open spec fn per_block(bs: int) -> int {
    (bs - 12) / 12
}

/// Where chunk `c` of a level of `n` entries ends.
pub open spec fn chunk_end(c: int, n: int, bs: int) -> int {
    if (c + 1) * per_block(bs) < n {
        (c + 1) * per_block(bs)
    } else {
        n
    }
}

/// Blocks stored so far, and the level above those just stored.
pub struct Packed {
    pub data: Seq<u8>,
    pub level: Level,
}

/// Stores the first `c` chunks of a level in blocks of their own.
pub open spec fn packed(l: Groups, data: Seq<u8>, v: Level, depth: int, c: int) -> Option<Packed>
    decreases c,
{
    if c <= 0 {
        Some(Packed { data, level: Level { firsts: Seq::empty(), bytes: Seq::empty() } })
    } else {
        match packed(l, data, v, depth, c - 1) {
            None => None,
            Some(p) => {
                let k = p.data.len() as int / l.bs;
                let from = (c - 1) * per_block(l.bs);
                let to = chunk_end(c - 1, v.firsts.len() as int, l.bs);
                if k >= capacity(l) {
                    None
                } else {
                    Some(
                        Packed {
                            data: p.data + node_bytes(
                                v.bytes.subrange(12 * from, 12 * to),
                                per_block(l.bs),
                                depth,
                                l.bs,
                            ),
                            level: Level {
                                firsts: p.level.firsts.push(v.firsts[from]),
                                bytes: p.level.bytes + index_bytes(
                                    v.firsts[from],
                                    nth_block(l, k),
                                ),
                            },
                        },
                    )
                }
            },
        }
    }
}

/// Stores a whole level in blocks.
pub open spec fn pack(l: Groups, data: Seq<u8>, v: Level, depth: int) -> Option<Packed> {
    packed(l, data, v, depth, ceil_div(v.firsts.len() as int, per_block(l.bs)))
}

/// Blocks stored so far, and the top of an extent tree.
pub struct Tree {
    pub data: Seq<u8>,
    pub level: Level,
    pub depth: int,
}

/// Builds an extent tree: levels are stored in blocks until at most 4 entries
/// are left, which fit in the inode.
pub open spec fn tree(l: Groups, data: Seq<u8>, v: Level, depth: int) -> Option<Tree>
    decreases v.firsts.len(),
{
    if v.firsts.len() <= 4 {
        Some(Tree { data, level: v, depth })
    } else {
        match pack(l, data, v, depth) {
            None => None,
            Some(p) => if p.level.firsts.len() < v.firsts.len() {
                tree(l, p.data, p.level, depth + 1)
            } else {
                None
            },
        }
    }
}

/// The extent tree of some runs.
pub open spec fn extent_tree(l: Groups, data: Seq<u8>, runs: Seq<Run>) -> Option<Tree> {
    let s = split_runs(runs, runs.len() as int);
    tree(l, data, leaves(s, s.len() as int), 0)
}

/// The 60 bytes of the inode that hold the top of an extent tree.
pub open spec fn top_bytes(t: Tree) -> Seq<u8> {
    node_bytes(t.level.bytes, 4, t.depth, 60)
}

/// Blocks stored so far with the extent tree of some runs, and the bytes of
/// the inode that hold its top.
pub open spec fn with_tree(l: Groups, data: Seq<u8>, runs: Seq<Run>) -> Option<
    (Seq<u8>, Seq<u8>),
> {
    match extent_tree(l, data, runs) {
        None => None,
        Some(t) => Some((t.data, top_bytes(t))),
    }
}

/// Whole blocks are stored, and not more of them than there is room for.
pub open spec fn data_ok(l: Groups, data: Seq<u8>) -> bool {
    &&& data.len() as int % l.bs == 0
    &&& data.len() as int / l.bs <= capacity(l)
}

pub proof fn lemma_add_block(data: Seq<u8>, b: Seq<u8>, bs: int)
    requires
        0 < bs,
        data.len() as int % bs == 0,
        b.len() == bs,
    ensures
        (data + b).len() as int % bs == 0,
        (data + b).len() as int / bs == data.len() as int / bs + 1,
{
    let q = data.len() as int / bs;
    assert(data.len() == q * bs) by (nonlinear_arith)
        requires
            data.len() as int % bs == 0,
            q == data.len() as int / bs,
            0 < bs,
    ;
    assert((q + 1) * bs == q * bs + bs) by (nonlinear_arith);
    vstd::arithmetic::div_mod::lemma_fundamental_div_mod_converse(
        (data + b).len() as int,
        bs,
        q + 1,
        0,
    );
}

pub proof fn lemma_block_in(content: Seq<u8>, k: int, bs: int)
    requires
        0 < bs,
        0 <= k < ceil_div(content.len() as int, bs),
    ensures
        0 <= k * bs < content.len(),
        0 < block_in(content, k, bs).len() <= bs,
        (k + 1) * bs == k * bs + bs,
        (k + 1) * bs <= content.len() ==> block_in(content, k, bs).len() == bs,
{
    let n = content.len() as int;
    assert(0 <= k * bs < n) by (nonlinear_arith)
        requires
            k < (n + bs - 1) / bs,
            0 <= k,
            0 < bs,
    ;
    assert((k + 1) * bs == k * bs + bs) by (nonlinear_arith);
}

/// Storing keeps whole blocks.
pub proof fn lemma_stored(l: Groups, data: Seq<u8>, content: Seq<u8>, n: int, sparse: bool)
    requires
        0 < l.bs,
        data_ok(l, data),
        0 <= n <= ceil_div(content.len() as int, l.bs),
        stored(l, data, content, n, sparse) is Some,
    ensures
        ({
            let s = stored(l, data, content, n, sparse)->Some_0;
            &&& data_ok(l, s.data)
            &&& data.len() <= s.data.len()
            &&& s.data.take(data.len() as int) == data
        }),
    decreases n,
{
    if n > 0 {
        lemma_stored(l, data, content, n - 1, sparse);
        let s = stored(l, data, content, n - 1, sparse)->Some_0;
        let b = block_in(content, n - 1, l.bs);
        lemma_block_in(content, n - 1, l.bs);
        let t = stored(l, data, content, n, sparse)->Some_0;
        if !(sparse && all_zero(b)) {
            lemma_add_block(s.data, padded(b, l.bs), l.bs);
            assert(t.data.take(data.len() as int) =~= s.data.take(data.len() as int));
        }
    } else {
        assert(data.take(data.len() as int) =~= data);
    }
}

pub open spec fn level_ok(v: Level) -> bool {
    v.bytes.len() == 12 * v.firsts.len()
}

pub proof fn lemma_leaves(runs: Seq<Run>, n: int)
    requires
        0 <= n,
    ensures
        level_ok(leaves(runs, n)),
        leaves(runs, n).firsts.len() == n,
    decreases n,
{
    if n > 0 {
        lemma_leaves(runs, n - 1);
    }
}

pub proof fn lemma_chunk(c: int, n: int, bs: int)
    requires
        24 <= bs,
        0 <= c < ceil_div(n, per_block(bs)),
    ensures
        0 <= c * per_block(bs) < chunk_end(c, n, bs) <= n,
        chunk_end(c, n, bs) - c * per_block(bs) <= per_block(bs),
        12 + 12 * per_block(bs) <= bs,
        c + 1 < ceil_div(n, per_block(bs)) ==> chunk_end(c, n, bs) == (c + 1) * per_block(bs),
        c + 1 == ceil_div(n, per_block(bs)) ==> chunk_end(c, n, bs) == n,
{
    let m = per_block(bs);
    assert(0 <= c * m < n) by (nonlinear_arith)
        requires
            c < (n + m - 1) / m,
            0 <= c,
            0 < m,
    ;
    assert((c + 1) * m == c * m + m) by (nonlinear_arith);
    if c + 1 < ceil_div(n, m) {
        assert((c + 1) * m < n) by (nonlinear_arith)
            requires
                c + 1 < (n + m - 1) / m,
                0 <= c,
                0 < m,
        ;
    } else {
        assert((c + 1) * m >= n) by (nonlinear_arith)
            requires
                c + 1 >= (n + m - 1) / m,
                0 <= c,
                0 < m,
        ;
    }
}

pub proof fn lemma_node_len(bytes: Seq<u8>, max: int, depth: int, total: int)
    requires
        12 + bytes.len() <= total,
    ensures
        node_bytes(bytes, max, depth, total).len() == total,
{
}

/// Storing a level keeps whole blocks.
pub proof fn lemma_packed(l: Groups, data: Seq<u8>, v: Level, depth: int, c: int)
    requires
        24 <= l.bs,
        data_ok(l, data),
        level_ok(v),
        0 <= c <= ceil_div(v.firsts.len() as int, per_block(l.bs)),
        packed(l, data, v, depth, c) is Some,
    ensures
        ({
            let p = packed(l, data, v, depth, c)->Some_0;
            &&& data_ok(l, p.data)
            &&& data.len() <= p.data.len()
            &&& p.data.take(data.len() as int) == data
            &&& level_ok(p.level)
            &&& p.level.firsts.len() == c
            &&& p.data.len() as int / l.bs == data.len() as int / l.bs + c
        }),
    decreases c,
{
    if c > 0 {
        lemma_packed(l, data, v, depth, c - 1);
        let q = packed(l, data, v, depth, c - 1)->Some_0;
        let p = packed(l, data, v, depth, c)->Some_0;
        let n = v.firsts.len() as int;
        lemma_chunk(c - 1, n, l.bs);
        let from = (c - 1) * per_block(l.bs);
        let to = chunk_end(c - 1, n, l.bs);
        let sub = v.bytes.subrange(12 * from, 12 * to);
        lemma_node_len(sub, per_block(l.bs), depth, l.bs);
        lemma_add_block(q.data, node_bytes(sub, per_block(l.bs), depth, l.bs), l.bs);
        assert(p.data.take(data.len() as int) =~= q.data.take(data.len() as int));
    } else {
        assert(data.take(data.len() as int) =~= data);
    }
}

/// A level above is shorter.
pub proof fn lemma_shrinks(n: int, bs: int)
    requires
        4 < n,
        36 <= bs,
    ensures
        0 < ceil_div(n, per_block(bs)) < n,
{
    let m = per_block(bs);
    assert(0 < (n + m - 1) / m < n) by (nonlinear_arith)
        requires
            4 < n,
            2 <= m,
    ;
}

/// Building a tree keeps whole blocks.
pub proof fn lemma_tree(l: Groups, data: Seq<u8>, v: Level, depth: int)
    requires
        36 <= l.bs,
        data_ok(l, data),
        level_ok(v),
        0 <= depth,
        tree(l, data, v, depth) is Some,
    ensures
        ({
            let t = tree(l, data, v, depth)->Some_0;
            &&& data_ok(l, t.data)
            &&& data.len() <= t.data.len()
            &&& t.data.take(data.len() as int) == data
            &&& level_ok(t.level)
            &&& t.level.firsts.len() <= 4
            &&& depth <= t.depth
        }),
    decreases v.firsts.len(),
{
    if v.firsts.len() > 4 {
        let n = v.firsts.len() as int;
        lemma_shrinks(n, l.bs);
        lemma_packed(l, data, v, depth, ceil_div(n, per_block(l.bs)));
        let p = pack(l, data, v, depth)->Some_0;
        lemma_tree(l, p.data, p.level, depth + 1);
        let t = tree(l, data, v, depth)->Some_0;
        assert(t.data.take(data.len() as int) =~= p.data.take(data.len() as int));
    } else {
        assert(data.take(data.len() as int) =~= data);
    }
}

/// A run of blocks: `len` logical blocks from `lg` on, stored from block `ph`
/// on.
#[derive(Debug, Clone, Copy)]
pub struct Extent {
    pub lg: u64,
    pub ph: u64,
    pub len: u64,
}

pub open spec fn run_of(e: Extent) -> Run {
    Run { lg: e.lg as int, ph: e.ph as int, len: e.len as int }
}

pub open spec fn runs_view(v: Seq<Extent>) -> Seq<Run> {
    Seq::new(v.len(), |i: int| run_of(v[i]))
}

/// What runs of at most `lim` logical blocks keep.
pub open spec fn bounded(v: Seq<Extent>, lim: int) -> bool {
    forall|i: int|
        0 <= i < v.len() ==> 0 < (#[trigger] v[i]).len && v[i].lg + v[i].len <= lim && v[i].ph
            + v[i].len <= u32::MAX + 1
}

fn add_block(runs: &mut Vec<Extent>, lg: u64, ph: u64)
    requires
        bounded(old(runs)@, lg as int),
        ph <= u32::MAX,
        lg < u64::MAX,
    ensures
        runs_view(final(runs)@) == with_block(runs_view(old(runs)@), lg as int, ph as int),
        bounded(final(runs)@, lg + 1),
{
    let n: usize = runs.len();
    if n > 0 {
        let r: Extent = runs[n - 1];
        if r.lg + r.len == lg && r.ph + r.len == ph {
            runs.set(n - 1, Extent { lg: r.lg, ph: r.ph, len: r.len + 1 });
            assert(runs_view(runs@) =~= with_block(runs_view(old(runs)@), lg as int, ph as int));
            return;
        }
    }
    runs.push(Extent { lg, ph, len: 1 });
    assert(runs_view(runs@) =~= with_block(runs_view(old(runs)@), lg as int, ph as int));
}

/// Whether some bytes are all zero.
pub fn is_zero(b: &[u8]) -> (r: bool)
    ensures
        r == all_zero(b@),
{
    let n: usize = b.len();
    let mut i: usize = 0;
    while i < n
        invariant
            n == b@.len(),
            i <= n,
            forall|k: int| 0 <= k < i ==> #[trigger] b@[k] == 0,
        decreases n - i,
    {
        if b[i] != 0 {
            return false;
        }
        i += 1;
    }
    true
}

/// The image has a layout, room for `cap` blocks and holds `data`.
pub open spec fn filled(l: &Layout, cap: u64, data: Seq<u8>) -> bool {
    &&& well_formed(l@)
    &&& cap == capacity(l@)
    &&& cap <= 0x2_0000_0000
    &&& data_ok(l@, data)
}

/// The number of blocks handed out, or that the image is full.
pub fn next_block(l: &Layout, cap: u64, data: &Vec<u8>) -> (r: Result<u64, Error>)
    requires
        filled(l, cap, data@),
    ensures
        match r {
            Ok(b) => data@.len() as int / l@.bs < capacity(l@) && b == nth_block(
                l@,
                data@.len() as int / l@.bs,
            ) && b < l.blocks <= u32::MAX,
            Err(e) => e == Error::StorageFull && data@.len() as int / l@.bs >= capacity(l@),
        },
{
    proof {
        lemma_bounds(l@);
    }
    let k: u64 = data.len() as u64 / l.bs;
    if k >= cap {
        return Err(Error::StorageFull);
    }
    Ok(l.nth_block(k))
}

/// Stores block `k` of some content.
fn store_block(
    l: &Layout,
    cap: u64,
    data: &mut Vec<u8>,
    runs: &mut Vec<Extent>,
    content: &[u8],
    k: u64,
    sparse: bool,
    Ghost(before): Ghost<Seq<u8>>,
) -> (r: Result<(), Error>)
    requires
        filled(l, cap, old(data)@),
        k < ceil_div(content@.len() as int, l@.bs),
        bounded(old(runs)@, k as int),
        stored(l@, before, content@, k as int, sparse) == Some(
            Stored { data: old(data)@, runs: runs_view(old(runs)@) },
        ),
    ensures
        match r {
            Ok(_) => filled(l, cap, final(data)@) && bounded(final(runs)@, k + 1) && stored(
                l@,
                before,
                content@,
                k + 1,
                sparse,
            ) == Some(Stored { data: final(data)@, runs: runs_view(final(runs)@) }),
            Err(e) => e == Error::StorageFull && stored(l@, before, content@, k + 1, sparse) is None,
        },
{
    let n: usize = content.len();
    proof {
        lemma_bounds(l@);
        lemma_block_in(content@, k as int, l@.bs);
    }
    let bs: usize = l.bs as usize;
    let at: usize = (k * l.bs) as usize;
    let to: usize = if n - at > bs {
        at + bs
    } else {
        n
    };
    let b: &[u8] = vstd::slice::slice_subrange(content, at, to);
    assert(b@ == block_in(content@, k as int, l@.bs));
    if sparse && is_zero(b) {
        return Ok(());
    }
    let ph: u64 = match next_block(l, cap, data) {
        Ok(v) => v,
        Err(e) => {
            return Err(e);
        },
    };
    let ghost was = data@;
    push_bytes(data, b);
    push_zeros(data, bs - b.len());
    proof {
        let p = padded(b@, l@.bs);
        assert(was + b@ + zero_seq(l@.bs - b@.len()) =~= was + p);
        lemma_add_block(was, p, l@.bs);
    }
    add_block(runs, k, ph);
    Ok(())
}

/// Stores some content in blocks of its own. With `sparse`, all-zero blocks
/// are left as holes.
pub fn store_content(l: &Layout, cap: u64, data: &mut Vec<u8>, content: &[u8], sparse: bool) -> (r:
    Result<Vec<Extent>, Error>)
    requires
        filled(l, cap, old(data)@),
    ensures
        match r {
            Ok(v) => filled(l, cap, final(data)@) && bounded(
                v@,
                ceil_div(content@.len() as int, l@.bs),
            ) && store(l@, old(data)@, content@, sparse) == Some(
                Stored { data: final(data)@, runs: runs_view(v@) },
            ),
            Err(e) => e == Error::StorageFull && store(l@, old(data)@, content@, sparse) is None,
        },
{
    proof {
        lemma_bounds(l@);
    }
    let n: u64 = div_up(content.len() as u64, l.bs);
    let mut runs: Vec<Extent> = Vec::new();
    let mut k: u64 = 0;
    assert(runs_view(runs@) =~= Seq::<Run>::empty());
    while k < n
        invariant
            n == ceil_div(content@.len() as int, l@.bs),
            k <= n,
            filled(l, cap, data@),
            bounded(runs@, k as int),
            stored(l@, old(data)@, content@, k as int, sparse) == Some(
                Stored { data: data@, runs: runs_view(runs@) },
            ),
        decreases n - k,
    {
        let ghost before = old(data)@;
        match store_block(l, cap, data, &mut runs, content, k, sparse, Ghost(before)) {
            Ok(_) => {},
            Err(e) => {
                proof {
                    lemma_full(l@, before, content@, k + 1, n as int, sparse);
                }
                return Err(e);
            },
        }
        k += 1;
    }
    Ok(runs)
}

/// Once the image is full it stays so.
proof fn lemma_full(l: Groups, data: Seq<u8>, content: Seq<u8>, n: int, m: int, sparse: bool)
    requires
        n <= m,
        stored(l, data, content, n, sparse) is None,
    ensures
        stored(l, data, content, m, sparse) is None,
    decreases m - n,
{
    if n < m {
        lemma_full(l, data, content, n + 1, m, sparse);
    }
}

/// What extents keep that an extent tree can hold.
pub open spec fn small(v: Seq<Extent>) -> bool {
    forall|i: int|
        0 <= i < v.len() ==> (#[trigger] v[i]).len <= MAX_EXTENT_LEN && v[i].ph <= u32::MAX
}

/// Appends a run in pieces that an extent can hold.
fn push_split(v: &mut Vec<Extent>, e: Extent)
    requires
        e.lg + e.len <= u64::MAX,
        e.ph + e.len <= u32::MAX + 1,
        small(old(v)@),
    ensures
        runs_view(final(v)@) == runs_view(old(v)@) + split_run(run_of(e)),
        small(final(v)@),
{
    let mut lg: u64 = e.lg;
    let mut ph: u64 = e.ph;
    let mut len: u64 = e.len;
    while len > MAX_EXTENT_LEN
        invariant
            lg + len <= u64::MAX,
            ph + len <= u32::MAX + 1,
            small(v@),
            runs_view(v@) + split_run(Run { lg: lg as int, ph: ph as int, len: len as int })
                == runs_view(old(v)@) + split_run(run_of(e)),
        decreases len,
    {
        let ghost was = v@;
        let x: Extent = Extent { lg, ph, len: MAX_EXTENT_LEN };
        v.push(x);
        proof {
            let rest = split_run(
                Run {
                    lg: lg + MAX_EXTENT_LEN,
                    ph: ph + MAX_EXTENT_LEN,
                    len: len - MAX_EXTENT_LEN,
                },
            );
            assert(runs_view(v@) + rest =~= runs_view(was) + (seq![run_of(x)] + rest));
        }
        lg = lg + MAX_EXTENT_LEN;
        ph = ph + MAX_EXTENT_LEN;
        len = len - MAX_EXTENT_LEN;
    }
    let ghost was = v@;
    if len > 0 {
        let x: Extent = Extent { lg, ph, len };
        v.push(x);
        assert(runs_view(v@) =~= runs_view(was) + seq![run_of(x)]);
    } else {
        assert(runs_view(v@) =~= runs_view(was) + Seq::<Run>::empty());
    }
}

/// Runs in pieces that an extent can hold.
fn split(runs: &Vec<Extent>) -> (r: Vec<Extent>)
    requires
        bounded(runs@, u64::MAX as int),
    ensures
        runs_view(r@) == split_runs(runs_view(runs@), runs@.len() as int),
        small(r@),
{
    let mut v: Vec<Extent> = Vec::new();
    let n: usize = runs.len();
    let mut i: usize = 0;
    assert(runs_view(v@) =~= Seq::<Run>::empty());
    while i < n
        invariant
            n == runs@.len(),
            i <= n,
            bounded(runs@, u64::MAX as int),
            small(v@),
            runs_view(v@) == split_runs(runs_view(runs@), i as int),
        decreases n - i,
    {
        push_split(&mut v, runs[i]);
        i += 1;
    }
    v
}

/// One level of an extent tree.
pub struct Entries {
    pub firsts: Vec<u64>,
    pub bytes: Vec<u8>,
}

pub open spec fn firsts_view(v: Seq<u64>) -> Seq<int> {
    Seq::new(v.len(), |i: int| v[i] as int)
}

impl View for Entries {
    type V = Level;

    open spec fn view(&self) -> Level {
        Level { firsts: firsts_view(self.firsts@), bytes: self.bytes@ }
    }
}

proof fn lemma_firsts(v: Seq<u64>, x: u64)
    ensures
        firsts_view(v.push(x)) == firsts_view(v).push(x as int),
{
    assert(firsts_view(v.push(x)) =~= firsts_view(v).push(x as int));
}

fn no_entries() -> (r: Entries)
    ensures
        r@ == (Level { firsts: Seq::empty(), bytes: Seq::empty() }),
{
    let r = Entries { firsts: Vec::new(), bytes: Vec::new() };
    assert(firsts_view(r.firsts@) =~= Seq::<int>::empty());
    assert(r.bytes@ =~= Seq::<u8>::empty());
    r
}

fn leaf(e: Extent) -> (r: Vec<u8>)
    requires
        e.len <= MAX_EXTENT_LEN,
        e.ph <= u32::MAX,
    ensures
        r@ == leaf_bytes(run_of(e)),
{
    let mut b: Vec<u8> = start32((e.lg % 0x1_0000_0000) as u32);
    push16(&mut b, e.len as u16);
    push16(&mut b, (e.ph / 0x1_0000_0000) as u16);
    push32(&mut b, (e.ph % 0x1_0000_0000) as u32);
    b
}

fn index(first: u64, child: u64) -> (r: Vec<u8>)
    requires
        child <= u32::MAX,
    ensures
        r@ == index_bytes(first as int, child as int),
{
    let mut b: Vec<u8> = start32((first % 0x1_0000_0000) as u32);
    push32(&mut b, (child % 0x1_0000_0000) as u32);
    push16(&mut b, (child / 0x1_0000_0000) as u16);
    push16(&mut b, 0);
    b
}

fn leaf_level(runs: &Vec<Extent>) -> (r: Entries)
    requires
        small(runs@),
    ensures
        r@ == leaves(runs_view(runs@), runs@.len() as int),
{
    let mut v: Entries = no_entries();
    let n: usize = runs.len();
    let mut i: usize = 0;
    while i < n
        invariant
            n == runs@.len(),
            i <= n,
            small(runs@),
            v@ == leaves(runs_view(runs@), i as int),
        decreases n - i,
    {
        let b: Vec<u8> = leaf(runs[i]);
        proof {
            lemma_firsts(v.firsts@, runs[i as int].lg);
        }
        v.firsts.push(runs[i].lg);
        push_bytes(&mut v.bytes, &b);
        i += 1;
    }
    v
}

/// A node of the extent tree that takes `total` bytes.
fn node(bytes: &[u8], max: u16, depth: u16, total: usize) -> (r: Vec<u8>)
    requires
        12 + bytes@.len() <= total <= 4096,
    ensures
        r@ == node_bytes(bytes@, max as int, depth as int, total as int),
{
    let mut b: Vec<u8> = start16(0xF30A);
    push16(&mut b, (bytes.len() / 12) as u16);
    push16(&mut b, max);
    push16(&mut b, depth);
    push32(&mut b, 0);
    push_bytes(&mut b, bytes);
    push_zeros(&mut b, total - 12 - bytes.len());
    b
}

/// Stores chunk `c` of a level.
fn pack_chunk(
    l: &Layout,
    cap: u64,
    data: &mut Vec<u8>,
    v: &Entries,
    depth: u16,
    up: &mut Entries,
    c: usize,
    Ghost(before): Ghost<Seq<u8>>,
) -> (r: Result<(), Error>)
    requires
        filled(l, cap, old(data)@),
        level_ok(v@),
        c < ceil_div(v@.firsts.len() as int, per_block(l@.bs)),
        packed(l@, before, v@, depth as int, c as int) == Some(
            Packed { data: old(data)@, level: old(up)@ },
        ),
    ensures
        match r {
            Ok(_) => filled(l, cap, final(data)@) && packed(l@, before, v@, depth as int, c + 1)
                == Some(Packed { data: final(data)@, level: final(up)@ }),
            Err(e) => e == Error::StorageFull && packed(l@, before, v@, depth as int, c + 1) is None,
        },
{
    let n: usize = v.firsts.len();
    proof {
        lemma_bounds(l@);
        lemma_chunk(c as int, n as int, l@.bs);
    }
    let bs: usize = l.bs as usize;
    let per: usize = (bs - 12) / 12;
    let from: usize = c * per;
    let to: usize = if n - from > per {
        from + per
    } else {
        n
    };
    proof {
        let m = per as int;
        assert((c + 1) * m == c * m + m) by (nonlinear_arith);
        assert(to == chunk_end(c as int, n as int, l@.bs));
        assert(v.bytes.len() == 12 * n);
    }
    let block: u64 = match next_block(l, cap, data) {
        Ok(b) => b,
        Err(e) => {
            return Err(e);
        },
    };
    let sub: &[u8] = vstd::slice::slice_subrange(v.bytes.as_slice(), 12 * from, 12 * to);
    let b: Vec<u8> = node(sub, per as u16, depth, bs);
    let ghost was = data@;
    push_bytes(data, &b);
    proof {
        lemma_node_len(sub@, per as int, depth as int, bs as int);
        lemma_add_block(was, b@, l@.bs);
        lemma_firsts(up.firsts@, v.firsts@[from as int]);
    }
    let e: Vec<u8> = index(v.firsts[from], block);
    up.firsts.push(v.firsts[from]);
    push_bytes(&mut up.bytes, &e);
    Ok(())
}

proof fn lemma_pack_full(l: Groups, data: Seq<u8>, v: Level, depth: int, c: int, d: int)
    requires
        c <= d,
        packed(l, data, v, depth, c) is None,
    ensures
        packed(l, data, v, depth, d) is None,
    decreases d - c,
{
    if c < d {
        lemma_pack_full(l, data, v, depth, c + 1, d);
    }
}

/// Stores a level in blocks, and gives the level above.
fn pack_level(l: &Layout, cap: u64, data: &mut Vec<u8>, v: &Entries, depth: u16) -> (r: Result<
    Entries,
    Error,
>)
    requires
        filled(l, cap, old(data)@),
        level_ok(v@),
    ensures
        match r {
            Ok(up) => filled(l, cap, final(data)@) && pack(l@, old(data)@, v@, depth as int) == Some(
                Packed { data: final(data)@, level: up@ },
            ),
            Err(e) => e == Error::StorageFull && pack(l@, old(data)@, v@, depth as int) is None,
        },
{
    proof {
        lemma_bounds(l@);
    }
    let n: u64 = div_up(v.firsts.len() as u64, (l.bs - 12) / 12);
    let mut up: Entries = no_entries();
    let mut c: usize = 0;
    while (c as u64) < n
        invariant
            filled(l, cap, data@),
            level_ok(v@),
            n == ceil_div(v@.firsts.len() as int, per_block(l@.bs)),
            n <= v.firsts.len(),
            c <= n,
            packed(l@, old(data)@, v@, depth as int, c as int) == Some(
                Packed { data: data@, level: up@ },
            ),
        decreases n - c,
    {
        let ghost before = old(data)@;
        match pack_chunk(l, cap, data, v, depth, &mut up, c, Ghost(before)) {
            Ok(_) => {},
            Err(e) => {
                proof {
                    lemma_pack_full(l@, before, v@, depth as int, c + 1, n as int);
                }
                return Err(e);
            },
        }
        c += 1;
    }
    Ok(up)
}

/// A level above has at most half the entries.
proof fn lemma_halves(n: int, bs: int)
    requires
        4 < n,
        36 <= bs,
    ensures
        2 * ceil_div(n, per_block(bs)) <= n + 1,
{
    let m = per_block(bs);
    assert(2 * ((n + m - 1) / m) <= n + 1) by (nonlinear_arith)
        requires
            4 < n,
            2 <= m,
    ;
}

/// Builds the extent tree of some runs. Gives the 60 bytes that stand in the
/// inode.
pub fn build_tree(l: &Layout, cap: u64, data: &mut Vec<u8>, runs: &Vec<Extent>) -> (r: Result<
    Vec<u8>,
    Error,
>)
    requires
        filled(l, cap, old(data)@),
        bounded(runs@, u64::MAX as int),
    ensures
        match r {
            Ok(top) => filled(l, cap, final(data)@) && with_tree(
                l@,
                old(data)@,
                runs_view(runs@),
            ) == Some((final(data)@, top@)),
            Err(e) => e == Error::StorageFull && with_tree(
                l@,
                old(data)@,
                runs_view(runs@),
            ) is None,
        },
{
    let pieces: Vec<Extent> = split(runs);
    let mut level: Entries = leaf_level(&pieces);
    proof {
        lemma_bounds(l@);
        lemma_leaves(runs_view(pieces@), pieces@.len() as int);
        vstd::arithmetic::power2::lemma2_to64();
        assert(level.firsts.len() <= usize::MAX);
    }
    let ghost all = extent_tree(l@, old(data)@, runs_view(runs@));
    let mut depth: u16 = 0;
    let ghost mut lim: int = 0x1_0000_0000_0000_0000;
    while level.firsts.len() > 4
        invariant
            filled(l, cap, data@),
            level_ok(level@),
            36 <= l@.bs <= 4096,
            all == extent_tree(l@, old(data)@, runs_view(runs@)),
            all == tree(l@, data@, level@, depth as int),
            depth <= 64,
            level@.firsts.len() <= lim + 1,
            lim * vstd::arithmetic::power2::pow2(depth as nat) <= 0x1_0000_0000_0000_0000,
        decreases level.firsts.len(),
    {
        let ghost was = data@;
        let ghost n = level@.firsts.len() as int;
        proof {
            lemma_shrinks(n, l@.bs);
            lemma_halves(n, l@.bs);
        }
        match pack_level(l, cap, data, &level, depth) {
            Ok(up) => {
                proof {
                    lemma_packed(
                        l@,
                        was,
                        level@,
                        depth as int,
                        ceil_div(n, per_block(l@.bs)),
                    );
                    lemma_depth(lim, depth as int, n);
                }
                level = up;
                proof {
                    lim = lim / 2;
                }
            },
            Err(e) => {
                return Err(e);
            },
        }
        depth = depth + 1;
    }
    Ok(node(&level.bytes, 4, depth, 60))
}

/// Halving what is left keeps the depth small.
proof fn lemma_depth(lim: int, depth: int, n: int)
    requires
        0 <= depth <= 64,
        4 < n <= lim + 1,
        lim * vstd::arithmetic::power2::pow2(depth as nat) <= 0x1_0000_0000_0000_0000,
    ensures
        depth < 64,
        (lim / 2) * vstd::arithmetic::power2::pow2((depth + 1) as nat) <= 0x1_0000_0000_0000_0000,
{
    let p = vstd::arithmetic::power2::pow2(depth as nat) as int;
    let q = vstd::arithmetic::power2::pow2((depth + 1) as nat) as int;
    vstd::arithmetic::power2::lemma_pow2_unfold((depth + 1) as nat);
    assert(q == 2 * p);
    vstd::arithmetic::power2::lemma_pow2_pos(depth as nat);
    assert((lim / 2) * q <= lim * p) by (nonlinear_arith)
        requires
            q == 2 * p,
            0 < p,
    ;
    if depth >= 64 {
        vstd::arithmetic::power2::lemma2_to64();
        assert(lim * p >= 4 * p) by (nonlinear_arith)
            requires
                lim >= 4,
                0 < p,
        ;
    }
}

} // verus!
