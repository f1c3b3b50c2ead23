//! How blocks are handed out to content, how many extents it takes, and how
//! many blocks their tree.
use vstd::prelude::*;
use crate::bytes::{ceil_div, div_up};
use crate::fs::mkext4::extents::{all_zero, block_in, data_ok, is_zero, leaves, lemma_add_block,
    lemma_block_in, lemma_leaves, lemma_packed, lemma_shrinks, lemma_stored, level_ok, pack, padded,
    per_block, split_run, split_runs, store, stored, tree, with_block, with_tree, Level, Run,
    MAX_EXTENT_LEN};
use crate::fs::mkext4::layout::{capacity, group_len, group_start, home, lemma_group, lemma_home,
    lemma_room_mono, nth_block, overhead, room, room_before, well_formed, Groups};

verus! {

/// The extents of the content before some block, and the length of the one
/// that the block can continue: 0 where there is none.
pub struct Pieces {
    pub count: int,
    pub len: int,
}

/// The extents for the first `n` blocks of a file whose blocks follow each
/// other in the image. All-zero blocks are holes.
pub open spec fn pieces(content: Seq<u8>, n: int, bs: int) -> Pieces
    decreases n,
{
    if n <= 0 {
        Pieces { count: 0, len: 0 }
    } else {
        let p = pieces(content, n - 1, bs);
        if all_zero(block_in(content, n - 1, bs)) {
            Pieces { len: 0, ..p }
        } else if 0 < p.len < MAX_EXTENT_LEN {
            Pieces { len: p.len + 1, ..p }
        } else {
            Pieces { count: p.count + 1, len: 1 }
        }
    }
}

/// The extents of a file whose blocks follow each other in the image.
pub open spec fn file_pieces(content: Seq<u8>, bs: int) -> int {
    pieces(content, ceil_div(content.len() as int, bs), bs).count
}

/// Blocks of an extent tree over `n` extents: none where they fit in the
/// inode.
pub open spec fn tree_size(n: int, bs: int) -> int
    decreases n,
{
    if n <= 4 || bs < 36 {
        0
    } else {
        proof {
            lemma_shrinks(n, bs);
        }
        ceil_div(n, per_block(bs)) + tree_size(ceil_div(n, per_block(bs)), bs)
    }
}

/// An extent tree over `n` entries takes `tree_size(n)` blocks of the image.
pub proof fn tree_takes(l: Groups, data: Seq<u8>, v: Level, depth: int)
    requires
        36 <= l.bs,
        data_ok(l, data),
        level_ok(v),
        tree(l, data, v, depth) is Some,
    ensures
        tree(l, data, v, depth)->Some_0.data.len() as int / l.bs == data.len() as int / l.bs
            + tree_size(v.firsts.len() as int, l.bs),
    decreases v.firsts.len(),
{
    let n = v.firsts.len() as int;
    if n > 4 {
        lemma_shrinks(n, l.bs);
        lemma_packed(l, data, v, depth, ceil_div(n, per_block(l.bs)));
        let p = pack(l, data, v, depth)->Some_0;
        tree_takes(l, p.data, p.level, depth + 1);
    }
}

/// Blocks that storing the first `n` blocks of some content takes.
pub open spec fn blocks_taken(content: Seq<u8>, n: int, bs: int, sparse: bool) -> int
    decreases n,
{
    if n <= 0 {
        0
    } else {
        blocks_taken(content, n - 1, bs, sparse) + (if sparse && all_zero(
            block_in(content, n - 1, bs),
        ) {
            0int
        } else {
            1
        })
    }
}

/// Storing content fails exactly when the image has fewer free blocks than
/// the content takes, and takes no others.
pub proof fn storing_fails_when_full(
    l: Groups,
    data: Seq<u8>,
    content: Seq<u8>,
    n: int,
    sparse: bool,
)
    requires
        0 < l.bs,
        data_ok(l, data),
        0 <= n <= ceil_div(content.len() as int, l.bs),
    ensures
        ({
            let k = data.len() as int / l.bs + blocks_taken(content, n, l.bs, sparse);
            match stored(l, data, content, n, sparse) {
                Some(s) => s.data.len() as int / l.bs == k <= capacity(l),
                None => k > capacity(l),
            }
        }),
        0 <= blocks_taken(content, n, l.bs, sparse) <= n,
    decreases n,
{
    if n > 0 {
        storing_fails_when_full(l, data, content, n - 1, sparse);
        if let Some(s) = stored(l, data, content, n - 1, sparse) {
            let b = block_in(content, n - 1, l.bs);
            lemma_block_in(content, n - 1, l.bs);
            lemma_stored(l, data, content, n - 1, sparse);
            lemma_add_block(s.data, padded(b, l.bs), l.bs);
        }
    }
}

/// The runs of stored content are as long as they can be: none continues the
/// one before it.
pub proof fn runs_are_maximal(l: Groups, data: Seq<u8>, content: Seq<u8>, n: int, sparse: bool)
    requires
        stored(l, data, content, n, sparse) is Some,
    ensures
        ({
            let runs = stored(l, data, content, n, sparse)->Some_0.runs;
            forall|i: int|
                0 <= i < runs.len() - 1 ==> {
                    let r = #[trigger] runs[i];
                    r.lg + r.len != runs[i + 1].lg || r.ph + r.len != runs[i + 1].ph
                }
        }),
    decreases n,
{
    if n > 0 {
        runs_are_maximal(l, data, content, n - 1, sparse);
        let was = stored(l, data, content, n - 1, sparse)->Some_0.runs;
        let runs = stored(l, data, content, n, sparse)->Some_0.runs;
        assert forall|i: int| 0 <= i < runs.len() - 1 implies ({
            let r = #[trigger] runs[i];
            r.lg + r.len != runs[i + 1].lg || r.ph + r.len != runs[i + 1].ph
        }) by {
            assert(was[i].lg == runs[i].lg && was[i].ph == runs[i].ph && was[i].len == runs[i].len);
        }
    }
}

/// A block follows the one that was handed out before it, unless that one was
/// the last of its group.
pub proof fn groups_are_filled(l: Groups, k: int)
    requires
        well_formed(l),
        0 <= k,
        k + 1 < capacity(l),
    ensures
        ({
            let g = home(l, k);
            if nth_block(l, k) + 1 < group_start(l, g) + group_len(l, g) {
                nth_block(l, k + 1) == nth_block(l, k) + 1
            } else {
                nth_block(l, k + 1) == group_start(l, g + 1) + overhead(l, g + 1)
            }
        }),
{
    lemma_home(l, k);
    lemma_home(l, k + 1);
    let g = home(l, k);
    let h = home(l, k + 1);
    lemma_group(l, g);
    lemma_group(l, h);
    if h < g {
        lemma_room_mono(l, h + 1, g);
    } else if h > g + 1 {
        lemma_room_mono(l, g + 2, h);
        lemma_group(l, g + 1);
        assert(room_before(l, g + 2) == room_before(l, g + 1) + room(l, g + 1));
    }
}

/// The blocks that are handed out as numbers `from..from + n` follow each
/// other.
pub open spec fn consecutive(l: Groups, from: int, n: int) -> bool {
    forall|j: int| 0 <= j < n ==> #[trigger] nth_block(l, from + j) == nth_block(l, from) + j
}

proof fn lemma_split_len(r: Run)
    ensures
        split_run(r).len() == (if r.len <= 0 {
            0
        } else {
            ceil_div(r.len, MAX_EXTENT_LEN as int)
        }),
    decreases r.len,
{
    if r.len > MAX_EXTENT_LEN {
        lemma_split_len(
            Run {
                lg: r.lg + MAX_EXTENT_LEN,
                ph: r.ph + MAX_EXTENT_LEN,
                len: r.len - MAX_EXTENT_LEN,
            },
        );
    }
}

proof fn lemma_split_same(a: Seq<Run>, b: Seq<Run>, n: int)
    requires
        forall|i: int| 0 <= i < n ==> #[trigger] a[i] == b[i],
    ensures
        split_runs(a, n) == split_runs(b, n),
    decreases n,
{
    if n > 0 {
        lemma_split_same(a, b, n - 1);
        assert(a[n - 1] == b[n - 1]);
    }
}

/// A block that follows the one before it continues the last run.
proof fn lemma_joined(runs: Seq<Run>, p: Pieces, lg: int, ph: int)
    requires
        runs.len() > 0,
        runs.last().lg + runs.last().len == lg,
        runs.last().ph + runs.last().len == ph,
        0 < p.len <= MAX_EXTENT_LEN,
        p.len <= runs.last().len,
        (runs.last().len - p.len) % MAX_EXTENT_LEN as int == 0,
        split_runs(runs, runs.len() as int).len() == p.count,
    ensures
        ({
            let more = with_block(runs, lg, ph);
            &&& more.len() == runs.len()
            &&& more.last().len == runs.last().len + 1
            &&& more.last().lg == runs.last().lg
            &&& more.last().ph == runs.last().ph
            &&& split_runs(more, more.len() as int).len() == (if p.len < MAX_EXTENT_LEN {
                p.count
            } else {
                p.count + 1
            })
        }),
{
    let more = with_block(runs, lg, ph);
    let n = runs.len() as int;
    lemma_split_same(runs, more, n - 1);
    lemma_split_len(runs.last());
    lemma_split_len(more.last());
}

/// The runs of a file whose blocks follow each other are the extents that
/// are counted.
proof fn lemma_counted(l: Groups, data: Seq<u8>, content: Seq<u8>, n: int)
    requires
        0 < l.bs,
        data_ok(l, data),
        0 <= n <= ceil_div(content.len() as int, l.bs),
        stored(l, data, content, n, true) is Some,
        consecutive(l, data.len() as int / l.bs, blocks_taken(content, n, l.bs, true)),
    ensures
        ({
            let runs = stored(l, data, content, n, true)->Some_0.runs;
            let p = pieces(content, n, l.bs);
            let from = data.len() as int / l.bs;
            let r = runs.last();
            &&& split_runs(runs, runs.len() as int).len() == p.count
            &&& 0 <= p.len <= MAX_EXTENT_LEN
            &&& p.len > 0 ==> {
                &&& runs.len() > 0
                &&& r.lg + r.len == n
                &&& r.ph + r.len == nth_block(l, from) + blocks_taken(content, n, l.bs, true)
                &&& p.len <= r.len
                &&& (r.len - p.len) % MAX_EXTENT_LEN as int == 0
            }
            &&& p.len == 0 && runs.len() > 0 ==> r.lg + r.len < n
        }),
    decreases n,
{
    if n > 0 {
        let from = data.len() as int / l.bs;
        let taken = blocks_taken(content, n - 1, l.bs, true);
        storing_fails_when_full(l, data, content, n - 1, true);
        lemma_counted(l, data, content, n - 1);
        let s = stored(l, data, content, n - 1, true)->Some_0;
        let p = pieces(content, n - 1, l.bs);
        if !all_zero(block_in(content, n - 1, l.bs)) {
            let ph = nth_block(l, from + taken);
            assert(ph == nth_block(l, from) + taken);
            let more = with_block(s.runs, n - 1, ph);
            if p.len > 0 {
                lemma_joined(s.runs, p, n - 1, ph);
            } else {
                let m = s.runs.len() as int;
                lemma_split_same(s.runs, more, m);
                lemma_split_len(more[m]);
            }
        }
    }
}

/// A file whose blocks follow each other in the image takes the blocks that
/// are counted for it, but for its holes: those of its content that are not
/// all zero, and those of its extent tree.
pub proof fn counted_blocks_are_taken(l: Groups, data: Seq<u8>, content: Seq<u8>)
    requires
        36 <= l.bs,
        data_ok(l, data),
        store(l, data, content, true) is Some,
        consecutive(
            l,
            data.len() as int / l.bs,
            blocks_taken(content, ceil_div(content.len() as int, l.bs), l.bs, true),
        ),
        ({
            let s = store(l, data, content, true)->Some_0;
            with_tree(l, s.data, s.runs) is Some
        }),
    ensures
        ({
            let s = store(l, data, content, true)->Some_0;
            let t = with_tree(l, s.data, s.runs)->Some_0;
            let n = ceil_div(content.len() as int, l.bs);
            &&& t.0.len() as int / l.bs == data.len() as int / l.bs + blocks_taken(
                content,
                n,
                l.bs,
                true,
            ) + tree_size(file_pieces(content, l.bs), l.bs)
            &&& blocks_taken(content, n, l.bs, true) <= n
        }),
{
    let k = content.len() as int;
    let n = ceil_div(k, l.bs);
    assert(0 <= (k + l.bs - 1) / l.bs) by (nonlinear_arith)
        requires
            0 <= k,
            0 < l.bs,
    ;
    let s = store(l, data, content, true)->Some_0;
    storing_fails_when_full(l, data, content, n, true);
    lemma_stored(l, data, content, n, true);
    lemma_counted(l, data, content, n);
    let split = split_runs(s.runs, s.runs.len() as int);
    lemma_leaves(split, split.len() as int);
    tree_takes(l, s.data, leaves(split, split.len() as int), 0);
}

proof fn lemma_tree_size(n: int, bs: int)
    requires
        0 <= n,
        60 <= bs,
    ensures
        0 <= tree_size(n, bs) <= n,
    decreases n,
{
    if n > 4 {
        let m = per_block(bs);
        let c = ceil_div(n, m);
        lemma_shrinks(n, bs);
        assert(2 * c <= n) by (nonlinear_arith)
            requires
                c == (n + m - 1) / m,
                4 < n,
                4 <= m,
        ;
        lemma_tree_size(c, bs);
    }
}

proof fn lemma_pieces(content: Seq<u8>, n: int, bs: int)
    requires
        0 <= n,
    ensures
        0 <= pieces(content, n, bs).count <= n,
        0 <= pieces(content, n, bs).len <= MAX_EXTENT_LEN,
    decreases n,
{
    if n > 0 {
        lemma_pieces(content, n - 1, bs);
    }
}

/// The blocks of some extents' tree are not more than the extents.
pub proof fn lemma_extra(content: Seq<u8>, bs: int)
    requires
        60 <= bs,
    ensures
        0 <= tree_size(file_pieces(content, bs), bs) <= ceil_div(content.len() as int, bs),
        forall|n: int| 0 <= n ==> 0 <= #[trigger] tree_size(n, bs) <= n,
{
    let k = content.len() as int;
    assert(0 <= (k + bs - 1) / bs) by (nonlinear_arith)
        requires
            0 <= k,
            0 < bs,
    ;
    lemma_pieces(content, ceil_div(k, bs), bs);
    assert forall|n: int| 0 <= n implies 0 <= #[trigger] tree_size(n, bs) <= n by {
        lemma_tree_size(n, bs);
    }
}

/// The extents of a file whose blocks follow each other in the image.
pub fn count_pieces(content: &[u8], bs: u64) -> (r: u64)
    requires
        60 <= bs <= 65536,
    ensures
        r == file_pieces(content@, bs as int),
        r <= ceil_div(content@.len() as int, bs as int),
{
    let size: usize = content.len();
    let n: u64 = div_up(size as u64, bs);
    let mut count: u64 = 0;
    let mut len: u64 = 0;
    let mut k: u64 = 0;
    while k < n
        invariant
            60 <= bs <= 65536,
            size == content@.len(),
            n == ceil_div(size as int, bs as int),
            k <= n,
            count == pieces(content@, k as int, bs as int).count,
            len == pieces(content@, k as int, bs as int).len,
            count <= k,
            len <= MAX_EXTENT_LEN,
        decreases n - k,
    {
        proof {
            lemma_block_in(content@, k as int, bs as int);
        }
        let at: usize = (k * bs) as usize;
        let to: usize = if size - at > bs as usize {
            at + bs as usize
        } else {
            size
        };
        let b: &[u8] = vstd::slice::slice_subrange(content, at, to);
        assert(b@ == block_in(content@, k as int, bs as int));
        if is_zero(b) {
            len = 0;
        } else if 0 < len && len < MAX_EXTENT_LEN {
            len = len + 1;
        } else {
            count = count + 1;
            len = 1;
        }
        k += 1;
    }
    count
}

/// Blocks of an extent tree over `n` extents.
pub fn count_tree(n: u64, bs: u64) -> (r: u64)
    requires
        60 <= bs <= 65536,
    ensures
        r == tree_size(n as int, bs as int),
        r <= n,
{
    proof {
        lemma_tree_size(n as int, bs as int);
    }
    let mut left: u64 = n;
    let mut r: u64 = 0;
    while left > 4
        invariant
            60 <= bs <= 65536,
            r + tree_size(left as int, bs as int) == tree_size(n as int, bs as int),
            tree_size(n as int, bs as int) <= n,
        decreases left,
    {
        proof {
            lemma_shrinks(left as int, bs as int);
            lemma_tree_size(left as int, bs as int);
            lemma_tree_size(ceil_div(left as int, per_block(bs as int)), bs as int);
        }
        left = div_up(left, (bs - 12) / 12);
        r = r + left;
    }
    r
}

} // verus!
