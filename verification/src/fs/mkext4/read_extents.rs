//! What the reader finds under the extent trees of a written image.
use vstd::prelude::*;
use crate::bytes::{ceil_div, zero_seq};
use crate::error::Error;
use crate::fs::ext4::{block_at, block_size, blocks_count, by_logical, bytes_from, extent_bytes,
    extent_place, smaller, ExtentView};
use crate::fs::mkext4::extents::{all_zero, block_in, data_ok, lemma_block_in, lemma_stored, padded,
    split_run, split_runs, stored, Run, MAX_EXTENT_LEN};
use crate::fs::mkext4::layout::{nth_block, supported, Groups};
use crate::fs::read_range;

verus! {

broadcast use crate::bytes::group_byte_lens;

/// Block `k` of the blocks that were handed out.
pub open spec fn data_block(l: Groups, d: Seq<u8>, k: int) -> Seq<u8> {
    d.subrange(k * l.bs, k * l.bs + l.bs)
}

/// An image in which the blocks `d` stand where they were handed out.
#[verifier::opaque]
pub open spec fn shows(img: Seq<u8>, l: Groups, d: Seq<u8>) -> bool {
    &&& supported(l.bs)
    &&& block_size(img) == l.bs
    &&& blocks_count(img) == l.blocks
    &&& l.blocks <= u32::MAX
    &&& forall|k: int|
        0 <= k < d.len() as int / l.bs ==> 0 <= #[trigger] nth_block(l, k) < l.blocks && (nth_block(
            l,
            k,
        ) + 1) * l.bs <= img.len() && img.subrange(
            nth_block(l, k) * l.bs,
            nth_block(l, k) * l.bs + l.bs,
        ) == data_block(l, d, k)
}

/// The blocks of a shorter content stand there too.
pub proof fn lemma_shows_prefix(img: Seq<u8>, l: Groups, d: Seq<u8>, e: Seq<u8>)
    requires
        shows(img, l, e),
        d.len() <= e.len(),
        e.take(d.len() as int) == d,
        d.len() as int % l.bs == 0,
    ensures
        shows(img, l, d),
{
    reveal(shows);
    let bs = l.bs;
    let n = d.len() as int / bs;
    let m = e.len() as int / bs;
    assert(n <= m && n * bs == d.len()) by (nonlinear_arith)
        requires
            n == d.len() as int / bs,
            m == e.len() as int / bs,
            d.len() <= e.len(),
            d.len() as int % bs == 0,
            0 < bs,
    ;
    assert forall|k: int| 0 <= k < n implies #[trigger] data_block(l, d, k) == data_block(
        l,
        e,
        k,
    ) by {
        assert(k * bs + bs <= n * bs) by (nonlinear_arith)
            requires
                k + 1 <= n,
                0 < bs,
        ;
        assert(0 <= k * bs) by (nonlinear_arith)
            requires
                0 <= k,
                0 < bs,
        ;
        assert forall|x: int| 0 <= x < bs implies #[trigger] data_block(l, d, k)[x] == data_block(
            l,
            e,
            k,
        )[x] by {
            assert(e.take(d.len() as int)[k * bs + x] == e[k * bs + x]);
        }
        assert(data_block(l, d, k) =~= data_block(l, e, k));
    }
    assert forall|k: int| 0 <= k < n implies 0 <= #[trigger] nth_block(l, k) < l.blocks && (
    nth_block(l, k) + 1) * l.bs <= img.len() && img.subrange(
        nth_block(l, k) * l.bs,
        nth_block(l, k) * l.bs + l.bs,
    ) == data_block(l, d, k) by {
        assert(data_block(l, d, k) == data_block(l, e, k));
    }
}

/// A block that was handed out, as the reader sees it.
pub proof fn lemma_block(img: Seq<u8>, l: Groups, d: Seq<u8>, k: int)
    requires
        shows(img, l, d),
        0 <= k < d.len() as int / l.bs,
    ensures
        0 <= nth_block(l, k) < l.blocks,
        block_at(img, nth_block(l, k)) == Ok::<Seq<u8>, Error>(data_block(l, d, k)),
{
    reveal(shows);
    let b = nth_block(l, k);
    let bs = l.bs;
    assert((b + 1) * bs == b * bs + bs) by (nonlinear_arith);
}

/// Block `k` of a content that was just extended by the block `b`.
pub proof fn lemma_last_block(l: Groups, d: Seq<u8>, b: Seq<u8>)
    requires
        0 < l.bs,
        d.len() as int % l.bs == 0,
        b.len() == l.bs,
    ensures
        data_block(l, d + b, d.len() as int / l.bs) == b,
        (d + b).len() as int / l.bs == d.len() as int / l.bs + 1,
{
    crate::fs::mkext4::extents::lemma_add_block(d, b, l.bs);
    let k = d.len() as int / l.bs;
    let bs = l.bs;
    assert(k * bs == d.len()) by (nonlinear_arith)
        requires
            k == d.len() as int / bs,
            d.len() as int % bs == 0,
            0 < bs,
    ;
    assert(data_block(l, d + b, k) =~= b);
}

/// A run whose blocks hold the content that it stands for.
#[verifier::opaque]
pub open spec fn good_run(img: Seq<u8>, l: Groups, content: Seq<u8>, r: Run) -> bool {
    &&& 0 < r.len
    &&& 0 <= r.lg
    &&& 0 <= r.ph
    &&& r.ph + r.len <= l.blocks
    &&& (r.ph + r.len) * l.bs <= img.len()
    &&& r.lg + r.len <= ceil_div(content.len() as int, l.bs)
    &&& forall|t: int|
        0 <= t < r.len ==> img.subrange((r.ph + t) * l.bs, (r.ph + t) * l.bs + l.bs) == padded(
            #[trigger] block_in(content, r.lg + t, l.bs),
            l.bs,
        )
}

/// Where the first `k` runs end.
pub open spec fn run_end(runs: Seq<Run>, k: int) -> int {
    if k <= 0 {
        0
    } else {
        runs[k - 1].lg + runs[k - 1].len
    }
}

/// Where the blocks before run `k` end, of the first `n` blocks.
pub open spec fn gap_end(runs: Seq<Run>, k: int, n: int) -> int {
    if k < runs.len() {
        runs[k].lg
    } else {
        n
    }
}

/// Runs that hold the first `n` blocks of a content; blocks between them are
/// zero.
#[verifier::opaque]
pub open spec fn maps(img: Seq<u8>, l: Groups, content: Seq<u8>, runs: Seq<Run>, n: int) -> bool {
    &&& forall|k: int| 0 <= k < runs.len() ==> good_run(img, l, content, #[trigger] runs[k])
    &&& forall|k: int|
        0 <= k <= runs.len() ==> #[trigger] run_end(runs, k) <= gap_end(runs, k, n)
    &&& forall|k: int, b: int|
        0 <= k <= runs.len() && run_end(runs, k) <= b < #[trigger] gap_end(runs, k, n) ==> all_zero(
            #[trigger] block_in(content, b, l.bs),
        )
}

proof fn lemma_maps_extend(
    img: Seq<u8>,
    l: Groups,
    content: Seq<u8>,
    runs: Seq<Run>,
    n: int,
    m: int,
)
    requires
        maps(img, l, content, runs, n),
        n <= m,
        forall|b: int| n <= b < m ==> all_zero(#[trigger] block_in(content, b, l.bs)),
    ensures
        maps(img, l, content, runs, m),
{
    reveal(maps);
    assert forall|k: int| 0 <= k <= runs.len() implies #[trigger] run_end(runs, k) <= gap_end(
        runs,
        k,
        m,
    ) by {
        assert(run_end(runs, k) <= gap_end(runs, k, n));
    }
    assert forall|k: int, b: int|
        0 <= k <= runs.len() && run_end(runs, k) <= b < #[trigger] gap_end(runs, k, m) implies all_zero(
        #[trigger] block_in(content, b, l.bs),
    ) by {
        let e = gap_end(runs, k, n);
        if b < e {
            assert(all_zero(block_in(content, b, l.bs)));
        }
    }
}

proof fn lemma_maps_push(
    img: Seq<u8>,
    l: Groups,
    content: Seq<u8>,
    runs: Seq<Run>,
    r: Run,
)
    requires
        maps(img, l, content, runs, r.lg),
        good_run(img, l, content, r),
    ensures
        maps(img, l, content, runs.push(r), r.lg + r.len),
{
    reveal(maps);
    let next = runs.push(r);
    let n = r.lg;
    let m = r.lg + r.len;
    assert forall|k: int| 0 <= k <= next.len() implies #[trigger] run_end(next, k) <= gap_end(
        next,
        k,
        m,
    ) by {
        if k <= runs.len() {
            assert(run_end(runs, k) <= gap_end(runs, k, n));
        }
    }
    assert forall|k: int, b: int|
        0 <= k <= next.len() && run_end(next, k) <= b < #[trigger] gap_end(next, k, m) implies all_zero(
        #[trigger] block_in(content, b, l.bs),
    ) by {
        if k <= runs.len() {
            assert(run_end(runs, k) <= b < gap_end(runs, k, n));
        }
    }
}

proof fn lemma_maps_join(
    img: Seq<u8>,
    l: Groups,
    content: Seq<u8>,
    runs: Seq<Run>,
    n: int,
)
    requires
        maps(img, l, content, runs, n),
        runs.len() > 0,
        runs.last().lg + runs.last().len == n,
        good_run(img, l, content, Run { len: runs.last().len + 1, ..runs.last() }),
    ensures
        maps(
            img,
            l,
            content,
            runs.update(
                runs.len() - 1,
                Run { len: runs.last().len + 1, ..runs.last() },
            ),
            n + 1,
        ),
{
    reveal(maps);
    let last = runs.len() - 1;
    let next = runs.update(last, Run { len: runs.last().len + 1, ..runs.last() });
    let m = n + 1;
    assert forall|k: int| 0 <= k <= next.len() implies #[trigger] run_end(next, k) <= gap_end(
        next,
        k,
        m,
    ) by {
        if k < next.len() {
            assert(run_end(runs, k) <= gap_end(runs, k, n));
        }
    }
    assert forall|k: int, b: int|
        0 <= k <= next.len() && run_end(next, k) <= b < #[trigger] gap_end(next, k, m) implies all_zero(
        #[trigger] block_in(content, b, l.bs),
    ) by {
        if k < next.len() {
            assert(run_end(runs, k) <= b < gap_end(runs, k, n));
        }
    }
}

/// A run of one block.
proof fn lemma_one_block(
    img: Seq<u8>,
    l: Groups,
    content: Seq<u8>,
    d: Seq<u8>,
    b: int,
)
    requires
        shows(img, l, d + padded(block_in(content, b, l.bs), l.bs)),
        data_ok(l, d),
        0 <= b < ceil_div(content.len() as int, l.bs),
    ensures
        good_run(
            img,
            l,
            content,
            Run { lg: b, ph: nth_block(l, d.len() as int / l.bs), len: 1 },
        ),
{
    reveal(shows);
    reveal(good_run);
    let p = padded(block_in(content, b, l.bs), l.bs);
    lemma_block_in(content, b, l.bs);
    lemma_last_block(l, d, p);
    let k = d.len() as int / l.bs;
    assert(0 <= k) by (nonlinear_arith)
        requires
            k == d.len() as int / l.bs,
            0 < l.bs,
    ;
    let r = Run { lg: b, ph: nth_block(l, k), len: 1 };
    assert(data_block(l, d + p, k) == p);
    assert forall|t: int| 0 <= t < r.len implies img.subrange(
        (r.ph + t) * l.bs,
        (r.ph + t) * l.bs + l.bs,
    ) == padded(#[trigger] block_in(content, r.lg + t, l.bs), l.bs) by {
        assert(t == 0);
    }
}

proof fn lemma_longer_run(img: Seq<u8>, l: Groups, content: Seq<u8>, r: Run)
    requires
        good_run(img, l, content, r),
        good_run(img, l, content, Run { lg: r.lg + r.len, ph: r.ph + r.len, len: 1 }),
    ensures
        good_run(img, l, content, Run { len: r.len + 1, ..r }),
{
    reveal(good_run);
    let one = Run { lg: r.lg + r.len, ph: r.ph + r.len, len: 1 };
    let x = Run { len: r.len + 1, ..r };
    assert forall|t: int| 0 <= t < x.len implies img.subrange(
        (x.ph + t) * l.bs,
        (x.ph + t) * l.bs + l.bs,
    ) == padded(#[trigger] block_in(content, x.lg + t, l.bs), l.bs) by {
        if t == r.len {
            assert(block_in(content, one.lg + 0, l.bs) == block_in(content, x.lg + t, l.bs));
        } else {
            assert(block_in(content, r.lg + t, l.bs) == block_in(content, x.lg + t, l.bs));
        }
    }
}

/// The runs of a stored content hold it.
pub proof fn lemma_stored_maps(
    img: Seq<u8>,
    l: Groups,
    data: Seq<u8>,
    content: Seq<u8>,
    n: int,
    sparse: bool,
)
    requires
        data_ok(l, data),
        0 <= n <= ceil_div(content.len() as int, l.bs),
        stored(l, data, content, n, sparse) is Some,
        shows(img, l, stored(l, data, content, n, sparse)->Some_0.data),
    ensures
        maps(img, l, content, stored(l, data, content, n, sparse)->Some_0.runs, n),
    decreases n,
{
    assert(supported(l.bs)) by {
        reveal(shows);
    }
    if n <= 0 {
        reveal(maps);
    } else {
        let s = stored(l, data, content, n - 1, sparse)->Some_0;
        let t = stored(l, data, content, n, sparse)->Some_0;
        let b = block_in(content, n - 1, l.bs);
        lemma_stored(l, data, content, n - 1, sparse);
        if sparse && all_zero(b) {
            lemma_stored_maps(img, l, data, content, n - 1, sparse);
            lemma_maps_extend(img, l, content, s.runs, n - 1, n);
        } else {
            assert(t.data.take(s.data.len() as int) =~= s.data);
            lemma_shows_prefix(img, l, s.data, t.data);
            lemma_stored_maps(img, l, data, content, n - 1, sparse);
            lemma_one_block(img, l, content, s.data, n - 1);
            let ph = nth_block(l, s.data.len() as int / l.bs);
            let r = s.runs.last();
            if s.runs.len() > 0 && r.lg + r.len == n - 1 && r.ph + r.len == ph {
                assert(good_run(img, l, content, r)) by {
                    reveal(maps);
                }
                lemma_longer_run(img, l, content, r);
                lemma_maps_join(img, l, content, s.runs, n - 1);
            } else {
                lemma_maps_push(img, l, content, s.runs, Run { lg: n - 1, ph, len: 1 });
            }
        }
    }
}

/// A part of a good run.
proof fn lemma_part_run(img: Seq<u8>, l: Groups, content: Seq<u8>, r: Run, from: int, len: int)
    requires
        good_run(img, l, content, r),
        0 < l.bs,
        0 <= from,
        0 < len,
        from + len <= r.len,
    ensures
        good_run(img, l, content, Run { lg: r.lg + from, ph: r.ph + from, len }),
{
    reveal(good_run);
    let x = Run { lg: r.lg + from, ph: r.ph + from, len };
    assert((x.ph + x.len) * l.bs <= (r.ph + r.len) * l.bs) by (nonlinear_arith)
        requires
            x.ph + x.len <= r.ph + r.len,
            0 < l.bs,
    ;
    assert forall|t: int| 0 <= t < x.len implies img.subrange(
        (x.ph + t) * l.bs,
        (x.ph + t) * l.bs + l.bs,
    ) == padded(#[trigger] block_in(content, x.lg + t, l.bs), l.bs) by {
        assert(block_in(content, r.lg + (from + t), l.bs) == block_in(content, x.lg + t, l.bs));
        assert(r.ph + (from + t) == x.ph + t);
    }
}

/// Runs that an extent can hold.
pub open spec fn short(runs: Seq<Run>) -> bool {
    forall|k: int| 0 <= k < runs.len() ==> (#[trigger] runs[k]).len <= MAX_EXTENT_LEN
}

proof fn lemma_split_run(img: Seq<u8>, l: Groups, content: Seq<u8>, s: Seq<Run>, r: Run)
    requires
        0 < l.bs,
        maps(img, l, content, s, r.lg),
        good_run(img, l, content, r),
        short(s),
    ensures
        maps(img, l, content, s + split_run(r), r.lg + r.len),
        short(s + split_run(r)),
    decreases r.len,
{
    assert(0 < r.len) by {
        reveal(good_run);
    }
    if r.len <= MAX_EXTENT_LEN {
        lemma_maps_push(img, l, content, s, r);
        assert(s + split_run(r) =~= s.push(r));
    } else {
        let m = MAX_EXTENT_LEN as int;
        let p = Run { len: m, ..r };
        let rest = Run { lg: r.lg + m, ph: r.ph + m, len: r.len - m };
        lemma_part_run(img, l, content, r, 0, m);
        lemma_part_run(img, l, content, r, m, r.len - m);
        lemma_maps_push(img, l, content, s, p);
        lemma_split_run(img, l, content, s.push(p), rest);
        assert(s + split_run(r) =~= s.push(p) + split_run(rest));
    }
}

/// Runs in pieces hold the same content.
pub proof fn lemma_split_maps(
    img: Seq<u8>,
    l: Groups,
    content: Seq<u8>,
    runs: Seq<Run>,
    n: int,
    i: int,
)
    requires
        0 < l.bs,
        maps(img, l, content, runs, n),
        0 <= i <= runs.len(),
    ensures
        maps(img, l, content, split_runs(runs, i), run_end(runs, i)),
        short(split_runs(runs, i)),
    decreases i,
{
    if i <= 0 {
        reveal(maps);
    } else {
        lemma_split_maps(img, l, content, runs, n, i - 1);
        let s = split_runs(runs, i - 1);
        let r = runs[i - 1];
        assert(run_end(runs, i - 1) <= gap_end(runs, i - 1, n) && good_run(img, l, content, r)) by {
            reveal(maps);
        }
        assert forall|b: int| run_end(runs, i - 1) <= b < r.lg implies all_zero(
            #[trigger] block_in(content, b, l.bs),
        ) by {
            reveal(maps);
            assert(run_end(runs, i - 1) <= b < gap_end(runs, i - 1, n));
        }
        lemma_maps_extend(img, l, content, s, run_end(runs, i - 1), r.lg);
        lemma_split_run(img, l, content, s, r);
    }
}

/// All runs in pieces.
pub proof fn lemma_split_all(
    img: Seq<u8>,
    l: Groups,
    content: Seq<u8>,
    runs: Seq<Run>,
    n: int,
)
    requires
        0 < l.bs,
        maps(img, l, content, runs, n),
    ensures
        maps(img, l, content, split_runs(runs, runs.len() as int), n),
        short(split_runs(runs, runs.len() as int)),
{
    let k = runs.len() as int;
    lemma_split_maps(img, l, content, runs, n, k);
    assert(run_end(runs, k) <= gap_end(runs, k, n)) by {
        reveal(maps);
    }
    assert forall|b: int| run_end(runs, k) <= b < n implies all_zero(
        #[trigger] block_in(content, b, l.bs),
    ) by {
        reveal(maps);
        assert(run_end(runs, k) <= b < gap_end(runs, k, n));
    }
    lemma_maps_extend(img, l, content, split_runs(runs, k), run_end(runs, k), n);
}

/// An extent as it is read.
pub open spec fn seen(r: Run) -> ExtentView {
    ExtentView { logical: r.lg, physical: r.ph, len: r.len, uninit: false }
}

pub open spec fn all_seen(runs: Seq<Run>) -> Seq<ExtentView> {
    Seq::new(runs.len(), |k: int| seen(runs[k]))
}

/// Byte `x` of a content, in its block.
proof fn lemma_byte(content: Seq<u8>, x: int, bs: int)
    requires
        0 < bs,
        0 <= x < content.len(),
    ensures
        0 <= x / bs < ceil_div(content.len() as int, bs),
        0 <= x % bs < block_in(content, x / bs, bs).len(),
        block_in(content, x / bs, bs)[x % bs] == content[x],
        x == (x / bs) * bs + x % bs,
{
    let q = x / bs;
    let r = x % bs;
    let n = content.len() as int;
    assert(x == q * bs + r && 0 <= r < bs && 0 <= q) by (nonlinear_arith)
        requires
            q == x / bs,
            r == x % bs,
            0 <= x,
            0 < bs,
    ;
    assert(q < (n + bs - 1) / bs) by (nonlinear_arith)
        requires
            q * bs <= x,
            x < n,
            0 < bs,
    ;
    lemma_block_in(content, q, bs);
}

/// A hole reads as the zeros that it stands for.
proof fn lemma_hole(content: Seq<u8>, from: int, to: int, bs: int)
    requires
        0 < bs,
        0 <= from <= to,
        forall|b: int| from <= b < to ==> all_zero(#[trigger] block_in(content, b, bs)),
    ensures
        ({
            let size = content.len() as int;
            let a = smaller(from * bs, size);
            let b = smaller(to * bs, size);
            0 <= a <= b <= size && content.subrange(a, b) == zero_seq(b - a)
        }),
{
    let size = content.len() as int;
    let a = smaller(from * bs, size);
    let b = smaller(to * bs, size);
    assert(0 <= from * bs <= to * bs) by (nonlinear_arith)
        requires
            0 <= from <= to,
            0 < bs,
    ;
    let s = content.subrange(a, b);
    assert forall|k: int| 0 <= k < b - a implies #[trigger] s[k] == 0u8 by {
        let x = a + k;
        lemma_byte(content, x, bs);
        let q = x / bs;
        assert(from <= q < to) by (nonlinear_arith)
            requires
                q == x / bs,
                from * bs <= x < to * bs,
                0 < bs,
        ;
        assert(all_zero(block_in(content, q, bs)));
    }
    assert(s =~= zero_seq(b - a));
}

/// A run reads as the content that it holds.
proof fn lemma_run_bytes(img: Seq<u8>, l: Groups, content: Seq<u8>, r: Run)
    requires
        0 < l.bs,
        good_run(img, l, content, r),
    ensures
        ({
            let size = content.len() as int;
            let a = smaller(r.lg * l.bs, size);
            let b = smaller((r.lg + r.len) * l.bs, size);
            &&& 0 <= a < b <= size
            &&& read_range(img, r.ph * l.bs, b - a) == Ok::<Seq<u8>, Error>(content.subrange(a, b))
        }),
{
    reveal(good_run);
    let size = content.len() as int;
    let bs = l.bs;
    let a = smaller(r.lg * bs, size);
    let b = smaller((r.lg + r.len) * bs, size);
    lemma_block_in(content, r.lg, bs);
    assert((r.lg + r.len) * bs == r.lg * bs + r.len * bs) by (nonlinear_arith);
    assert((r.ph + r.len) * bs == r.ph * bs + r.len * bs) by (nonlinear_arith);
    assert(r.len * bs >= bs) by (nonlinear_arith)
        requires
            0 < r.len,
            0 < bs,
    ;
    assert(0 <= r.ph * bs) by (nonlinear_arith)
        requires
            0 <= r.ph,
            0 < bs,
    ;
    let at = r.ph * bs;
    let s = img.subrange(at, at + (b - a));
    assert forall|k: int| 0 <= k < b - a implies #[trigger] s[k] == content[a + k] by {
        let x = a + k;
        lemma_byte(content, x, bs);
        let q = x / bs;
        let t = q - r.lg;
        assert(0 <= t < r.len) by (nonlinear_arith)
            requires
                t == x / bs - r.lg,
                r.lg * bs <= x < (r.lg + r.len) * bs,
                0 < bs,
        ;
        let blk = block_in(content, r.lg + t, bs);
        let y = x % bs;
        assert(img.subrange((r.ph + t) * bs, (r.ph + t) * bs + bs) == padded(blk, bs));
        assert((r.ph + t) * bs + y == at + k) by (nonlinear_arith)
            requires
                x == (r.lg + t) * bs + y,
                x == r.lg * bs + k,
                at == r.ph * bs,
        ;
        assert(0 <= (r.ph + t) * bs && (r.ph + t) * bs + bs <= (r.ph + r.len) * bs)
            by (nonlinear_arith)
            requires
                0 <= r.ph,
                0 <= t,
                t + 1 <= r.len,
                0 < bs,
        ;
        assert(img.subrange((r.ph + t) * bs, (r.ph + t) * bs + bs)[y] == img[(r.ph + t) * bs + y]);
        assert(padded(blk, bs)[y] == blk[y]);
    }
    assert(s =~= content.subrange(a, b));
}

/// The extents of a content, read from number `k` on.
pub proof fn lemma_bytes_from(
    img: Seq<u8>,
    l: Groups,
    content: Seq<u8>,
    runs: Seq<Run>,
    k: int,
)
    requires
        0 < l.bs,
        block_size(img) == l.bs,
        blocks_count(img) == l.blocks,
        maps(img, l, content, runs, ceil_div(content.len() as int, l.bs)),
        0 <= k <= runs.len(),
    ensures
        ({
            let size = content.len() as int;
            let pos = smaller(run_end(runs, k) * l.bs, size);
            &&& 0 <= pos <= size
            &&& bytes_from(img, all_seen(runs), k, pos, size) == Ok::<Seq<u8>, Error>(
                content.skip(pos),
            )
        }),
    decreases runs.len() - k,
{
    let size = content.len() as int;
    let bs = l.bs;
    let n = ceil_div(size, bs);
    let e = run_end(runs, k);
    let pos = smaller(e * bs, size);
    let to = gap_end(runs, k, n);
    assert(0 <= e <= to) by {
        reveal(maps);
        reveal(good_run);
        if k > 0 {
            assert(good_run(img, l, content, runs[k - 1]));
        }
    }
    assert forall|b: int| e <= b < to implies all_zero(#[trigger] block_in(content, b, bs)) by {
        reveal(maps);
        assert(run_end(runs, k) <= b < gap_end(runs, k, n));
    }
    lemma_hole(content, e, to, bs);
    if k >= runs.len() {
        assert(n * bs >= size) by (nonlinear_arith)
            requires
                n == (size + bs - 1) / bs,
                0 < bs,
        ;
        assert(content.subrange(pos, size) =~= content.skip(pos));
    } else {
        let r = runs[k];
        assert(good_run(img, l, content, r)) by {
            reveal(maps);
        }
        assert(r.ph + r.len <= l.blocks) by {
            reveal(good_run);
        }
        lemma_run_bytes(img, l, content, r);
        lemma_bytes_from(img, l, content, runs, k + 1);
        let start = smaller(r.lg * bs, size);
        let end = smaller((r.lg + r.len) * bs, size);
        let here = extent_bytes(img, all_seen(runs)[k], pos, size);
        assert(all_seen(runs)[k] == seen(r));
        assert(zero_seq(start - pos) + content.subrange(start, end) =~= content.subrange(pos, end));
        assert(here == Ok::<Seq<u8>, Error>(content.subrange(pos, end)));
        assert(content.subrange(pos, end) + content.skip(end) =~= content.skip(pos));
    }
}

/// Extents in order stay so.
pub proof fn lemma_sorted(
    img: Seq<u8>,
    l: Groups,
    content: Seq<u8>,
    runs: Seq<Run>,
    n: int,
    k: int,
)
    requires
        maps(img, l, content, runs, n),
        0 <= k <= runs.len(),
    ensures
        by_logical(all_seen(runs), k) == all_seen(runs).take(k),
    decreases k,
{
    let x = all_seen(runs);
    if k > 0 {
        lemma_sorted(img, l, content, runs, n, k - 1);
        let s = x.take(k - 1);
        if k > 1 {
            assert(s[k - 2] == seen(runs[k - 2]));
            assert(runs[k - 2].lg <= runs[k - 1].lg) by {
                reveal(maps);
                reveal(good_run);
                assert(run_end(runs, k - 1) <= gap_end(runs, k - 1, n));
                assert(good_run(img, l, content, runs[k - 2]));
            }
        }
        assert(extent_place(s, s.len() as int, x[k - 1].logical) == s.len());
        assert(s.insert(s.len() as int, x[k - 1]) =~= x.take(k));
    } else {
        assert(x.take(0) =~= Seq::<ExtentView>::empty());
    }
}

} // verus!
