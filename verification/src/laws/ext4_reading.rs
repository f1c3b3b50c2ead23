//! What is read of an ext4 image: the content of files block by block, and the
//! names of its features.
use vstd::prelude::*;
use crate::error::Error;
use crate::fs::ext4::{block_at, block_size, by_logical, bytes_from, extent_bytes, extent_place,
    extents_from, extents_in, leaf_in, mapped, mapped_from, pointer_depth, pointers_from, smaller,
    with_block, ExtentView, MapView};
use crate::bytes::{le16, le32};

verus! {

/// The extent has the byte at `q` of a file.
pub open spec fn has_byte(e: ExtentView, bs: int, q: int) -> bool {
    e.logical * bs <= q < (e.logical + e.len) * bs
}

proof fn lemma_content(
    image: Seq<u8>,
    x: Seq<ExtentView>,
    k: int,
    pos: int,
    size: int,
)
    requires
        0 <= k <= x.len(),
        0 <= pos <= size,
        block_size(image) > 0,
        forall|j: int| 0 <= j < x.len() ==> (#[trigger] x[j]).len >= 0 && x[j].logical >= 0
            && x[j].physical >= 0,
        bytes_from(image, x, k, pos, size) is Ok,
    ensures
        ({
            let d = bytes_from(image, x, k, pos, size)->Ok_0;
            let bs = block_size(image);
            &&& d.len() == size - pos
            &&& forall|j: int| k <= j < x.len()
                ==> smaller((#[trigger] x[j]).logical * bs, size) >= pos
            &&& forall|j: int, q: int|
                k <= j < x.len() && pos <= q < size && #[trigger] has_byte(x[j], bs, q)
                    ==> d[q - pos]
                    == if x[j].uninit {
                    0
                } else {
                    image[x[j].physical * bs + (q - x[j].logical * bs)]
                }
            &&& forall|q: int|
                pos <= q < size && (forall|j: int|
                    k <= j < x.len() ==> !#[trigger] has_byte(x[j], bs, q))
                        ==> #[trigger] d[q - pos]
                    == 0
        }),
    decreases x.len() - k,
{
    let bs = block_size(image);
    let d = bytes_from(image, x, k, pos, size)->Ok_0;
    if k < x.len() {
        let e = x[k];
        let b = extent_bytes(image, e, pos, size)->Ok_0;
        assert((e.logical + e.len) * bs >= e.logical * bs) by (nonlinear_arith)
            requires
                e.len >= 0,
                bs > 0,
        ;
        assert(e.logical * bs >= 0 && e.physical * bs >= 0) by (nonlinear_arith)
            requires
                e.logical >= 0,
                e.physical >= 0,
                bs > 0,
        ;
        let start = smaller(e.logical * bs, size);
        let end = smaller((e.logical + e.len) * bs, size);
        lemma_content(image, x, k + 1, end, size);
        let rest = bytes_from(image, x, k + 1, end, size)->Ok_0;
        assert(b.len() == end - pos);
        assert(d == b + rest);
        assert forall|j: int| k <= j < x.len() implies smaller((#[trigger] x[j]).logical * bs, size)
            >= pos by {
            if j > k {
                assert(smaller(x[j].logical * bs, size) >= end);
            }
        }
        assert forall|j: int, q: int|
            k <= j < x.len() && pos <= q < size
                && #[trigger] has_byte(x[j], bs, q) implies d[q - pos]
            == if x[j].uninit {
            0
        } else {
            image[x[j].physical * bs + (q - x[j].logical * bs)]
        } by {
            if j == k {
                assert(start <= q < end);
                assert(d[q - pos] == b[q - pos]);
            } else {
                assert(smaller(x[j].logical * bs, size) >= end);
                assert(q >= end);
                assert(d[q - pos] == rest[q - end]);
            }
        }
        assert forall|q: int|
            pos <= q < size && (forall|j: int|
                k <= j < x.len() ==> !#[trigger] has_byte(x[j], bs,
                    q)) implies #[trigger] d[q - pos]
            == 0 by {
            if q < end {
                assert(!has_byte(x[k], bs, q));
                assert(d[q - pos] == b[q - pos]);
            } else {
                assert(d[q - pos] == rest[q - end]);
            }
        }
    }
}

/// The content of a file has its size. A byte that an extent has is the byte of
/// the image that the extent says, or zero where the extent is not written; a
/// byte that no extent has is zero.
pub proof fn files_are_made_of_extents(image: Seq<u8>, x: Seq<ExtentView>, size: int, q: int)
    requires
        0 <= q < size,
        block_size(image) > 0,
        forall|j: int| 0 <= j < x.len() ==> (#[trigger] x[j]).len >= 0 && x[j].logical >= 0
            && x[j].physical >= 0,
        bytes_from(image, x, 0, 0, size) is Ok,
    ensures
        ({
            let d = bytes_from(image, x, 0, 0, size)->Ok_0;
            let bs = block_size(image);
            &&& d.len() == size
            &&& forall|j: int|
                0 <= j < x.len() && has_byte(#[trigger] x[j], bs, q) ==> d[q] == if x[j].uninit {
                    0
                } else {
                    image[x[j].physical * bs + (q - x[j].logical * bs)]
                }
            &&& (forall|j: int| 0 <= j < x.len() ==> !has_byte(#[trigger] x[j], bs, q)) ==> d[q]
                == 0
        }),
{
    lemma_content(image, x, 0, 0, size);
    let d = bytes_from(image, x, 0, 0, size)->Ok_0;
    let bs = block_size(image);
    assert forall|j: int| 0 <= j < x.len() && has_byte(#[trigger] x[j], bs, q) implies d[q]
        == if x[j].uninit {
        0
    } else {
        image[x[j].physical * bs + (q - x[j].logical * bs)]
    } by {
        assert(d[q - 0] == d[q]);
    }
    if forall|j: int| 0 <= j < x.len() ==> !has_byte(#[trigger] x[j], bs, q) {
        assert(d[q - 0] == d[q]);
    }
}

proof fn lemma_place(s: Seq<ExtentView>, n: int, logical: int)
    requires
        0 <= n <= s.len(),
        forall|j: int, k: int|
            0 <= j < k < s.len() ==> (#[trigger] s[j]).logical <= (#[trigger] s[k]).logical,
    ensures
        0 <= extent_place(s, n, logical) <= n,
        forall|k: int| 0 <= k < extent_place(s, n, logical)
            ==> (#[trigger] s[k]).logical <= logical,
        forall|k: int| extent_place(s, n, logical) <= k < n ==> (#[trigger] s[k]).logical > logical,
    decreases n,
{
    if n > 0 {
        if s[n - 1].logical > logical {
            lemma_place(s, n - 1, logical);
        }
    }
}

/// Extents are put in the order of their logical blocks; none is lost and none
/// is added.
pub proof fn extents_are_sorted(x: Seq<ExtentView>, n: int, e: ExtentView)
    requires
        0 <= n <= x.len(),
    ensures
        by_logical(x, n).len() == n,
        forall|j: int, k: int|
            0 <= j < k < n ==> (#[trigger] by_logical(x, n)[j]).logical <= (
            #[trigger] by_logical(x, n)[k]).logical,
        by_logical(x, n).contains(e) == x.take(n).contains(e),
    decreases n,
{
    if n > 0 {
        extents_are_sorted(x, n - 1, e);
        let s = by_logical(x, n - 1);
        let v = x[n - 1];
        lemma_place(s, s.len() as int, v.logical);
        let at = extent_place(s, s.len() as int, v.logical);
        let t = by_logical(x, n);
        assert(t == s.insert(at, v));
        assert(t[at] == v);
        assert forall|j: int, k: int| 0 <= j < k < n implies (#[trigger] t[j]).logical <= (
        #[trigger] t[k]).logical by {
            let a = if j < at {
                s[j]
            } else if j == at {
                v
            } else {
                s[j - 1]
            };
            let b = if k < at {
                s[k]
            } else if k == at {
                v
            } else {
                s[k - 1]
            };
            assert(t[j] == a && t[k] == b);
        }
        if s.contains(e) {
            let k = choose|k: int| 0 <= k < s.len() && s[k] == e;
            if k < at {
                assert(t[k] == e);
            } else {
                assert(t[k + 1] == e);
            }
        }
        if t.contains(e) && e != v {
            let k = choose|k: int| 0 <= k < t.len() && t[k] == e;
            if k < at {
                assert(s[k] == e);
            } else {
                assert(s[k - 1] == e);
            }
        }
        let a = x.take(n);
        let b = x.take(n - 1);
        if a.contains(e) && e != v {
            let k = choose|k: int| 0 <= k < a.len() && a[k] == e;
            assert(b[k] == e);
        }
        if b.contains(e) {
            let k = choose|k: int| 0 <= k < b.len() && b[k] == e;
            assert(a[k] == e);
        }
        assert(a[n - 1] == v);
    }
}

proof fn lemma_leaves(image: Seq<u8>, node: Seq<u8>, level: int, n: int)
    requires
        0 <= n <= le16(node, 2),
        0 <= level <= 8,
        le16(node, 6) == 0,
        le16(node, 2) < 0x1_0000,
    ensures
        extents_from(image, node, level, n) == Ok::<Seq<ExtentView>, Error>(
            Seq::new((le16(node, 2) - n) as nat, |i: int| leaf_in(node, 12 + 12 * (n + i))),
        ),
    decreases le16(node, 2) - n,
{
    let want = Seq::new((le16(node, 2) - n) as nat, |i: int| leaf_in(node, 12 + 12 * (n + i)));
    if n < le16(node, 2) {
        lemma_leaves(image, node, level, n + 1);
        let rest = extents_from(image, node, level, n + 1)->Ok_0;
        assert(seq![leaf_in(node, 12 + 12 * n)] + rest =~= want);
    } else {
        assert(want =~= Seq::<ExtentView>::empty());
    }
}

/// A leaf of the extent tree has an extent for each of its entries; one with a
/// length over 32768 is not written. A node without the magic number is
/// refused, and so is one with more entries than fit.
pub proof fn leaves_have_extents(image: Seq<u8>, node: Seq<u8>, level: int, i: int)
    requires
        0 <= level <= 8,
        node.len() >= 12,
        0 <= le16(node, 2) < 0x1_0000,
    ensures
        le16(node, 0) != 0xF30A ==> extents_in(image, node, level) == Err::<Seq<ExtentView>, Error>(
            Error::BadExtentTree,
        ),
        le16(node, 0) == 0xF30A && 12 + 12 * le16(node, 2) > node.len() ==> extents_in(
            image,
            node,
            level,
        ) == Err::<Seq<ExtentView>, Error>(Error::ExtentNodeOverflows),
        le16(node, 0) == 0xF30A && 12 + 12 * le16(node, 2) <= node.len() && le16(node, 6) == 0 ==> {
            let r = extents_in(image, node, level);
            &&& r is Ok && r->Ok_0.len() == le16(node, 2)
            &&& 0 <= i < le16(node, 2) ==> {
                let e = r->Ok_0[i];
                let at = 12 + 12 * i;
                let n = le16(node, at + 4);
                &&& e.logical == le32(node, at)
                &&& e.physical == le32(node, at + 8) + 0x1_0000_0000 * le16(node, at + 6)
                &&& e.len == (if n <= 32768 {
                    n
                } else {
                    n - 32768
                }) && e.uninit == (n > 32768)
            }
        },
{
    if le16(node, 6) == 0 {
        lemma_leaves(image, node, level, 0);
    }
}

/// The extents below every child of a node are among those of the node.
pub proof fn nodes_have_their_children(
    image: Seq<u8>,
    node: Seq<u8>,
    level: int,
    n: int,
    i: int,
    e: ExtentView,
)
    requires
        0 <= level <= 8,
        le16(node, 6) != 0,
        0 <= n <= i < le16(node, 2),
        extents_from(image, node, level, n) is Ok,
    ensures
        ({
            let at = 12 + 12 * i;
            let child = block_at(
                image,
                le32(node, at + 4) + 0x1_0000_0000 * le16(node, at + 8),
            );
            &&& child is Ok
            &&& extents_in(image, child->Ok_0, level + 1) is Ok
            &&& extents_in(image, child->Ok_0, level + 1)->Ok_0.contains(e) ==> extents_from(
                image,
                node,
                level,
                n,
            )->Ok_0.contains(e)
        }),
    decreases i - n,
{
    let at = 12 + 12 * n;
    let b = block_at(image, le32(node, at + 4) + 0x1_0000_0000 * le16(node, at + 8))->Ok_0;
    let here = extents_in(image, b, level + 1)->Ok_0;
    let rest = extents_from(image, node, level, n + 1)->Ok_0;
    let all = extents_from(image, node, level, n)->Ok_0;
    assert(all == here + rest);
    if i == n {
        if here.contains(e) {
            let k = choose|k: int| 0 <= k < here.len() && here[k] == e;
            assert(all[k] == e);
        }
    } else {
        nodes_have_their_children(image, node, level, n + 1, i, e);
        if rest.contains(e) {
            let k = choose|k: int| 0 <= k < rest.len() && rest[k] == e;
            assert(all[here.len() + k] == e);
        }
    }
}

/// Blocks under a pointer of depth `depth`, with `per` pointers in a block.
pub open spec fn reach(per: int, depth: int) -> int
    decreases depth,
{
    if depth <= 0 {
        1
    } else {
        per * reach(per, depth - 1)
    }
}

/// The block that a pointer of a block map leads to for its block `off`; zero
/// where there is a hole.
pub open spec fn pointed(image: Seq<u8>, ptr: int, depth: int, off: int) -> int
    decreases depth,
{
    if ptr == 0 || depth <= 0 {
        ptr
    } else {
        let s = reach(block_size(image) / 4, depth - 1);
        match block_at(image, ptr) {
            Ok(b) => pointed(image, le32(b, 4 * (off / s)), depth - 1, off % s),
            Err(_) => 0,
        }
    }
}

/// The extents lead from block `logical` of a file to block `p` of the image.
pub open spec fn leads(out: Seq<ExtentView>, logical: int, p: int) -> bool {
    exists|k: int|
        0 <= k < out.len() && (#[trigger] out[k]).logical <= logical < out[k].logical + out[k].len
            && p
            == out[k].physical + (logical - out[k].logical)
}

/// The extents lead from block `logical` to `p`, and to no other block; where
/// `p` is zero they lead to none.
pub open spec fn leads_to(out: Seq<ExtentView>, logical: int, p: int) -> bool {
    forall|x: int| #[trigger] leads(out, logical, x) == (p != 0 && x == p)
}

spec fn is_front(out: Seq<ExtentView>, logical: int) -> bool {
    forall|k: int|
        0 <= k < out.len() ==> (#[trigger] out[k]).logical + out[k].len <= logical && out[k].len > 0
            && !out[k].uninit
}

/// The state after a step keeps what was before, and has the blocks up to where
/// it is.
spec fn follows(st: MapView, next: MapView) -> bool {
    &&& next.logical >= st.logical
    &&& is_front(next.out, next.logical)
    &&& forall|l: int, x: int|
        l < st.logical ==> #[trigger] leads(next.out, l, x) == leads(st.out, l, x)
}

proof fn lemma_no_lead(out: Seq<ExtentView>, logical: int, l: int, x: int)
    requires
        is_front(out, logical),
        l >= logical,
    ensures
        !leads(out, l, x),
{
    if leads(out, l, x) {
        let k = choose|k: int|
            0 <= k < out.len() && (#[trigger] out[k]).logical <= l < out[k].logical + out[k].len
                && x
                == out[k].physical + (l - out[k].logical);
        assert(out[k].logical + out[k].len <= logical);
    }
}

proof fn lemma_with_block(st: MapView, ptr: int)
    requires
        is_front(st.out, st.logical),
        ptr != 0,
    ensures
        follows(st, with_block(st, ptr)),
        with_block(st, ptr).logical == st.logical + 1,
        leads_to(with_block(st, ptr).out, st.logical, ptr),
{
    let next = with_block(st, ptr);
    let n = st.out.len() as int;
    let e = st.out.last();
    let joins = n > 0 && !e.uninit && e.logical + e.len == st.logical && e.physical + e.len == ptr;
    assert forall|k: int| 0 <= k < next.out.len() implies (#[trigger] next.out[k]).logical
        + next.out[k].len <= next.logical && next.out[k].len > 0 && !next.out[k].uninit by {
        if k < n - 1 || (k < n && !joins) {
            assert(next.out[k] == st.out[k]);
        } else if joins {
            assert(st.out[n - 1] == e);
        }
    }
    assert forall|l: int, x: int| l < st.logical implies #[trigger] leads(next.out, l, x) == leads(
        st.out,
        l,
        x,
    ) by {
        if leads(st.out, l, x) {
            let k = choose|k: int|
                0 <= k < st.out.len() && (#[trigger] st.out[k]).logical <= l < st.out[k].logical
                    + st.out[k].len && x == st.out[k].physical + (l - st.out[k].logical);
            assert(next.out[k].logical <= l < next.out[k].logical + next.out[k].len);
        }
        if leads(next.out, l, x) {
            let k = choose|k: int|
                0 <= k < next.out.len() && (#[trigger] next.out[k]).logical <= l
                    < next.out[k].logical + next.out[k].len && x == next.out[k].physical + (l
                    - next.out[k].logical);
            assert(k < n);
            assert(st.out[k].logical <= l < st.out[k].logical + st.out[k].len);
        }
    }
    assert forall|x: int| #[trigger] leads(next.out, st.logical, x) == (ptr != 0 && x == ptr) by {
        let last = next.out.len() - 1;
        let z = next.out[last];
        assert(z.logical <= st.logical < z.logical + z.len && ptr == z.physical + (st.logical
            - z.logical));
        if leads(next.out, st.logical, x) {
            let k = choose|k: int|
                0 <= k < next.out.len() && (#[trigger] next.out[k]).logical <= st.logical
                    < next.out[k].logical + next.out[k].len && x == next.out[k].physical + (
                st.logical - next.out[k].logical);
            if k != last {
                assert(next.out[k] == st.out[k]);
                assert(st.out[k].logical + st.out[k].len <= st.logical);
            }
        }
    }
}

proof fn lemma_reach(per: int, depth: int)
    requires
        per > 0,
    ensures
        reach(per, depth) > 0,
        crate::fs::ext4::span(per, depth) == reach(per, depth),
    decreases depth,
{
    if depth > 0 {
        lemma_reach(per, depth - 1);
        let r = reach(per, depth - 1);
        assert(per * r > 0) by (nonlinear_arith)
            requires
                per > 0,
                r > 0,
        ;
    }
}

proof fn lemma_mapped(image: Seq<u8>, ptr: int, depth: int, st: MapView, nblocks: int)
    requires
        4 <= block_size(image) <= 65536,
        is_front(st.out, st.logical),
        depth >= 0,
        st.logical < nblocks,
        mapped(image, ptr, depth, st, nblocks) is Ok,
    ensures
        ({
            let next = mapped(image, ptr, depth, st, nblocks)->Ok_0;
            let s = reach(block_size(image) / 4, depth);
            &&& follows(st, next)
            &&& next.logical == st.logical + s || (nblocks <= next.logical <= st.logical + s)
            &&& forall|l: int|
                st.logical <= l < next.logical && l < nblocks ==> #[trigger] leads_to(
                    next.out,
                    l,
                    pointed(image, ptr, depth, l - st.logical),
                )
        }),
    decreases depth, 0x2_0000int,
{
    let per = block_size(image) / 4;
    let next = mapped(image, ptr, depth, st, nblocks)->Ok_0;
    lemma_reach(per, depth);
    if ptr == 0 {
        assert forall|l: int| st.logical <= l < next.logical
            && l < nblocks implies #[trigger] leads_to(
            next.out,
            l,
            pointed(image, ptr, depth, l - st.logical),
        ) by {
            assert forall|x: int| !(#[trigger] leads(next.out, l, x)) by {
                lemma_no_lead(st.out, st.logical, l, x);
            }
        }
    } else if depth == 0 {
        lemma_with_block(st, ptr);
        assert(pointed(image, ptr, 0, 0) == ptr);
        assert forall|l: int| st.logical <= l < next.logical
            && l < nblocks implies #[trigger] leads_to(
            next.out,
            l,
            pointed(image, ptr, depth, l - st.logical),
        ) by {
            assert(l == st.logical);
        }
    } else {
        let b = block_at(image, ptr)->Ok_0;
        let s = reach(per, depth - 1);
        lemma_reach(per, depth - 1);
        assert(0 * s == 0);
        lemma_mapped_from(image, b, depth, 0, st, nblocks, st.logical);
        assert(next == mapped_from(image, b, depth, 0, st, nblocks)->Ok_0);
        assert(reach(per, depth) == per * s);
        assert forall|l: int| st.logical <= l < next.logical
            && l < nblocks implies #[trigger] leads_to(
            next.out,
            l,
            pointed(image, ptr, depth, l - st.logical),
        ) by {
            let o = l - st.logical;
            assert(pointed(image, ptr, depth, o) == pointed(
                image,
                le32(b, 4 * (o / s)),
                depth - 1,
                o % s,
            ));
            assert(leads_to(
                next.out,
                l,
                pointed(image, le32(b, 4 * ((l - st.logical) / s)), depth - 1,
                    (l - st.logical) % s),
            ));
        }
    }
}

#[verifier::rlimit(40)]
proof fn lemma_mapped_from(
    image: Seq<u8>,
    b: Seq<u8>,
    depth: int,
    i: int,
    st: MapView,
    nblocks: int,
    base: int,
)
    requires
        4 <= block_size(image) <= 65536,
        is_front(st.out, st.logical),
        depth > 0,
        0 <= i <= block_size(image) / 4,
        st.logical == base + i * reach(block_size(image) / 4, depth - 1) || st.logical >= nblocks,
        st.logical <= base + i * reach(block_size(image) / 4, depth - 1),
        mapped_from(image, b, depth, i, st, nblocks) is Ok,
    ensures
        ({
            let next = mapped_from(image, b, depth, i, st, nblocks)->Ok_0;
            let per = block_size(image) / 4;
            let s = reach(per, depth - 1);
            &&& follows(st, next)
            &&& next.logical == base + per * s || (nblocks <= next.logical <= base + per * s)
            &&& forall|l: int|
                st.logical <= l < next.logical && l < nblocks ==> #[trigger] leads_to(
                    next.out,
                    l,
                    pointed(image, le32(b, 4 * ((l - base) / s)), depth - 1, (l - base) % s),
                )
        }),
    decreases depth, block_size(image) / 4 - i,
{
    let per = block_size(image) / 4;
    let s = reach(per, depth - 1);
    lemma_reach(per, depth - 1);
    assert(i * s <= per * s) by (nonlinear_arith)
        requires
            0 <= i <= per,
            s > 0,
    ;
    if i < per && st.logical < nblocks {
        let ptr = le32(b, 4 * i);
        lemma_mapped(image, ptr, depth - 1, st, nblocks);
        let mid = mapped(image, ptr, depth - 1, st, nblocks)->Ok_0;
        assert((i + 1) * s == i * s + s) by (nonlinear_arith);
        lemma_mapped_from(image, b, depth, i + 1, mid, nblocks, base);
        let next = mapped_from(image, b, depth, i, st, nblocks)->Ok_0;
        assert(next == mapped_from(image, b, depth, i + 1, mid, nblocks)->Ok_0);
        assert forall|l: int| st.logical <= l < next.logical
            && l < nblocks implies #[trigger] leads_to(
            next.out,
            l,
            pointed(image, le32(b, 4 * ((l - base) / s)), depth - 1, (l - base) % s),
        ) by {
            if l < mid.logical {
                let o = l - base;
                assert(o / s == i && o % s == o - i * s) by (nonlinear_arith)
                    requires
                        i * s <= o < i * s + s,
                        s > 0,
                ;
                let p = pointed(image, ptr, depth - 1, l - st.logical);
                assert(leads_to(mid.out, l, p));
                assert forall|x: int| #[trigger] leads(next.out, l, x) == (p != 0 && x == p) by {
                    assert(leads(next.out, l, x) == leads(mid.out, l, x));
                }
            }
        }
        assert forall|l: int, x: int| l < st.logical implies #[trigger] leads(next.out, l, x)
            == leads(st.out, l, x) by {
            assert(leads(next.out, l, x) == leads(mid.out, l, x));
        }
    }
}

/// The block of a file with a block map that is its block `l`: the first twelve
/// pointers are direct, and the next three lead through one, two and three
/// indirect blocks.
pub open spec fn block_of(image: Seq<u8>, block: Seq<u8>, l: int) -> int {
    let per = block_size(image) / 4;
    let a = reach(per, 1);
    let b = reach(per, 2);
    if l < 12 {
        le32(block, 4 * l)
    } else if l < 12 + a {
        pointed(image, le32(block, 48), 1, l - 12)
    } else if l < 12 + a + b {
        pointed(image, le32(block, 52), 2, l - 12 - a)
    } else {
        pointed(image, le32(block, 56), 3, l - 12 - a - b)
    }
}

/// The first block under pointer `i` of an inode.
spec fn pointer_start(per: int, i: int) -> int
    decreases i,
{
    if i <= 0 {
        0
    } else {
        pointer_start(per, i - 1) + reach(per, pointer_depth(i - 1))
    }
}

proof fn lemma_starts(per: int)
    requires
        per > 0,
    ensures
        pointer_start(per, 12) == 12,
        pointer_start(per, 13) == 12 + reach(per, 1),
        pointer_start(per, 14) == 12 + reach(per, 1) + reach(per, 2),
        pointer_start(per, 15) == 12 + reach(per, 1) + reach(per, 2) + reach(per, 3),
        forall|i: int| 0 <= i <= 12 ==> #[trigger] pointer_start(per, i) == i,
{
    reveal_with_fuel(pointer_start, 16);
    reveal_with_fuel(reach, 2);
    assert forall|i: int| 0 <= i <= 12 implies #[trigger] pointer_start(per, i) == i by {
    }
}

proof fn lemma_pointers(image: Seq<u8>, block: Seq<u8>, i: int, st: MapView, nblocks: int)
    requires
        4 <= block_size(image) <= 65536,
        is_front(st.out, st.logical),
        0 <= i <= 15,
        st.logical == pointer_start(block_size(image) / 4, i) || st.logical >= nblocks,
        pointers_from(image, block, i, st, nblocks) is Ok,
    ensures
        ({
            let next = pointers_from(image, block, i, st, nblocks)->Ok_0;
            &&& follows(st, next)
            &&& next.logical >= nblocks || next.logical == pointer_start(block_size(image) / 4, 15)
            &&& forall|l: int|
                st.logical <= l < next.logical && l < nblocks ==> #[trigger] leads_to(
                    next.out,
                    l,
                    block_of(image, block, l),
                )
        }),
    decreases 15 - i,
{
    let per = block_size(image) / 4;
    if i < 15 && st.logical < nblocks {
        let ptr = le32(block, 4 * i);
        let depth = pointer_depth(i);
        lemma_mapped(image, ptr, depth, st, nblocks);
        lemma_starts(per);
        lemma_reach(per, 1);
        lemma_reach(per, 2);
        lemma_reach(per, 3);
        reveal_with_fuel(pointer_start, 2);
        let mid = mapped(image, ptr, depth, st, nblocks)->Ok_0;
        lemma_pointers(image, block, i + 1, mid, nblocks);
        let next = pointers_from(image, block, i, st, nblocks)->Ok_0;
        assert forall|l: int| st.logical <= l < next.logical
            && l < nblocks implies #[trigger] leads_to(
            next.out,
            l,
            block_of(image, block, l),
        ) by {
            if l < mid.logical {
                let p = pointed(image, ptr, depth, l - st.logical);
                assert(leads_to(mid.out, l, p));
                assert(block_of(image, block, l) == p);
                assert forall|x: int| #[trigger] leads(next.out, l, x) == (p != 0 && x == p) by {
                    assert(leads(next.out, l, x) == leads(mid.out, l, x));
                }
            }
        }
        assert forall|l: int, x: int| l < st.logical implies #[trigger] leads(next.out, l, x)
            == leads(st.out, l, x) by {
            assert(leads(next.out, l, x) == leads(mid.out, l, x));
        }
    }
}

/// A block map leads from every block of a file to the block of the image that
/// its pointers name, and from a hole to none.
pub proof fn block_maps_lead_to_blocks(image: Seq<u8>, block: Seq<u8>, nblocks: int, l: int)
    requires
        4 <= block_size(image) <= 65536,
        ({
            let none = MapView { logical: 0, out: Seq::empty() };
            pointers_from(image, block, 0, none, nblocks) is Ok
        }),
        0 <= l < nblocks,
        nblocks <= 12 + reach(block_size(image) / 4, 1) + reach(block_size(image) / 4, 2) + reach(
            block_size(image) / 4,
            3,
        ),
    ensures
        ({
            let none = MapView { logical: 0, out: Seq::empty() };
            leads_to(
                pointers_from(image, block, 0, none, nblocks)->Ok_0.out,
                l,
                block_of(image, block, l),
            )
        }),
{
    let none = MapView { logical: 0, out: Seq::empty() };
    lemma_starts(block_size(image) / 4);
    lemma_pointers(image, block, 0, none, nblocks);
}

} // verus!
