//! The directories of a written image, as the reader lists them.
use vstd::prelude::*;
use crate::bytes::{bytes16, bytes32, le16, le32, lemma_bytes16, lemma_bytes32};
use crate::fs::ext4::{dirents_from, is_dot, list_from, smaller};
use crate::fs::mkext4::dirs::{counts_ok, dir_block, dir_block_count, dir_bytes, dir_content,
    dir_counts, empty_block, empty_blocks, lemma_block_len, lemma_content_len, lemma_counts,
    lemma_dir_len, lemma_empty_len, lemma_recs_len, lemma_sum_mono, names_fit, rec_bytes, rec_min,
    recs, recs_len, sum, with_dots, Dirent};

verus! {

broadcast use crate::bytes::group_byte_lens;

/// What the reader lists for the entries `a..b`.
pub open spec fn listed(entries: Seq<Dirent>, a: int, b: int) -> Seq<(Seq<u8>, u32)>
    decreases b - a,
{
    if a >= b {
        Seq::empty()
    } else {
        (if is_dot(entries[a].name) {
            Seq::empty()
        } else {
            seq![(entries[a].name, entries[a].ino as u32)]
        }) + listed(entries, a + 1, b)
    }
}

proof fn lemma_listed_split(entries: Seq<Dirent>, a: int, b: int, c: int)
    requires
        a <= b <= c,
    ensures
        listed(entries, a, c) == listed(entries, a, b) + listed(entries, b, c),
    decreases b - a,
{
    if a < b {
        lemma_listed_split(entries, a + 1, b, c);
        let x = if is_dot(entries[a].name) {
            Seq::empty()
        } else {
            seq![(entries[a].name, entries[a].ino as u32)]
        };
        assert(x + (listed(entries, a + 1, b) + listed(entries, b, c)) =~= x + listed(
            entries,
            a + 1,
            b,
        ) + listed(entries, b, c));
    } else {
        assert(listed(entries, a, c) =~= Seq::<(Seq<u8>, u32)>::empty() + listed(entries, b, c));
    }
}

/// Entries whose numbers fit.
pub open spec fn numbered_well(entries: Seq<Dirent>) -> bool {
    forall|k: int| 0 <= k < entries.len() ==> 0 < (#[trigger] entries[k]).ino <= u32::MAX
}

/// The fields of an entry.
proof fn lemma_rec(e: Dirent, rec: int)
    requires
        0 < e.ino <= u32::MAX,
        e.name.len() <= 255,
        8 + e.name.len() <= rec <= 0xFFFF,
    ensures
        ({
            let b = rec_bytes(e, rec);
            &&& b.len() == rec
            &&& le32(b, 0) == e.ino
            &&& le16(b, 4) == rec
            &&& b[6] == e.name.len()
            &&& b.subrange(8, 8int + e.name.len()) == e.name
        }),
{
    let b = rec_bytes(e, rec);
    lemma_bytes32(e.ino);
    lemma_bytes16(rec);
    assert(le32(b, 0) == le32(bytes32(e.ino), 0));
    assert(le16(b, 4) == le16(bytes16(rec), 0));
    assert(b.subrange(8, 8int + e.name.len()) =~= e.name);
}

/// Entry `k` of those that take what they need.
proof fn lemma_rec_at(entries: Seq<Dirent>, from: int, k: int, n: int)
    requires
        0 <= k < n,
    ensures
        0 <= recs_len(entries, from, k),
        recs_len(entries, from, k + 1) == recs_len(entries, from, k) + rec_min(entries[from + k]),
        recs_len(entries, from, k + 1) <= recs(entries, from, n).len(),
        recs(entries, from, n).subrange(
            recs_len(entries, from, k),
            recs_len(entries, from, k + 1),
        ) == rec_bytes(entries[from + k], rec_min(entries[from + k])),
    decreases n,
{
    lemma_recs_len(entries, from, n);
    lemma_recs_len(entries, from, n - 1);
    lemma_recs_len(entries, from, k);
    let a = recs(entries, from, n - 1);
    let b = recs(entries, from, n);
    let x = recs_len(entries, from, k);
    let y = recs_len(entries, from, k + 1);
    if k < n - 1 {
        lemma_rec_at(entries, from, k, n - 1);
        assert(b.subrange(x, y) =~= a.subrange(x, y));
    } else {
        assert(b.subrange(x, y) =~= rec_bytes(entries[from + k], rec_min(entries[from + k])));
    }
}

/// Bytes of entry `k` of a block.
spec fn rec_in_block(entries: Seq<Dirent>, from: int, count: int, bs: int, k: int) -> int {
    if k < count - 1 {
        rec_min(entries[from + k])
    } else {
        bs - recs_len(entries, from, count - 1)
    }
}

/// Entry `k` of a block.
proof fn lemma_block_rec(entries: Seq<Dirent>, from: int, count: int, bs: int, k: int)
    requires
        0 <= k < count,
        recs_len(entries, from, count) <= bs,
    ensures
        ({
            let i = recs_len(entries, from, k);
            let rec = rec_in_block(entries, from, count, bs, k);
            &&& 0 <= i
            &&& 8 + entries[from + k].name.len() <= rec
            &&& i + rec <= bs
            &&& dir_block(entries, from, count, bs).len() == bs
            &&& dir_block(entries, from, count, bs).subrange(i, i + rec) == rec_bytes(
                entries[from + k],
                rec,
            )
            &&& k < count - 1 ==> i + rec == recs_len(entries, from, k + 1)
            &&& k == count - 1 ==> i + rec == bs
        }),
{
    lemma_block_len(entries, from, count, bs);
    lemma_recs_len(entries, from, count - 1);
    lemma_recs_len(entries, from, k);
    let b = dir_block(entries, from, count, bs);
    let head = recs(entries, from, count - 1);
    let i = recs_len(entries, from, k);
    let rec = rec_in_block(entries, from, count, bs, k);
    if k < count - 1 {
        lemma_rec_at(entries, from, k, count - 1);
        assert(b.subrange(i, i + rec) =~= head.subrange(i, i + rec));
    } else {
        assert(b.subrange(i, i + rec) =~= rec_bytes(entries[from + k], rec));
    }
}

/// A block lists its entries, from number `k` on.
proof fn lemma_block_lists(entries: Seq<Dirent>, from: int, count: int, bs: int, k: int)
    requires
        names_fit(entries),
        numbered_well(entries),
        0 <= from,
        from + count <= entries.len(),
        0 <= k < count,
        recs_len(entries, from, count) <= bs <= 0xFFFF,
    ensures
        dirents_from(
            dir_block(entries, from, count, bs),
            true,
            recs_len(entries, from, k),
        ) == listed(entries, from + k, from + count),
    decreases count - k,
{
    let b = dir_block(entries, from, count, bs);
    let i = recs_len(entries, from, k);
    let rec = rec_in_block(entries, from, count, bs, k);
    lemma_block_rec(entries, from, count, bs, k);
    let e = entries[from + k];
    assert(e.name.len() <= 255 && 0 < e.ino <= u32::MAX);
    lemma_rec(e, rec);
    let r = rec_bytes(e, rec);
    assert forall|t: int| 0 <= t < rec implies #[trigger] r[t] == b[i + t] by {
        assert(b.subrange(i, i + rec)[t] == b[i + t]);
    }
    assert(r[0] == b[i] && r[1] == b[i + 1] && r[2] == b[i + 2] && r[3] == b[i + 3]);
    assert(r[4] == b[i + 4] && r[5] == b[i + 5] && r[6] == b[i + 6]);
    assert(b.subrange(i + 8, i + 8 + e.name.len()) =~= r.subrange(8, 8int + e.name.len()));
    if k < count - 1 {
        lemma_block_lists(entries, from, count, bs, k + 1);
    } else {
        assert(dirents_from(b, true, i + rec) =~= Seq::<(Seq<u8>, u32)>::empty());
        assert(listed(entries, from + k + 1, from + count) =~= Seq::<(Seq<u8>, u32)>::empty());
    }
}

/// An empty block lists nothing.
proof fn lemma_empty_lists(bs: int)
    requires
        8 <= bs <= 0xFFFF,
    ensures
        empty_block(bs).len() == bs,
        dirents_from(empty_block(bs), true, 0) == Seq::<(Seq<u8>, u32)>::empty(),
{
    let b = empty_block(bs);
    lemma_bytes16(bs);
    assert(le16(b, 4) == le16(bytes16(bs), 0));
    assert(b[0] == 0 && b[1] == 0 && b[2] == 0 && b[3] == 0);
    assert(le32(b, 0) == 0);
    assert(dirents_from(b, true, bs) =~= Seq::<(Seq<u8>, u32)>::empty());
    assert(Seq::<(Seq<u8>, u32)>::empty() + Seq::<(Seq<u8>, u32)>::empty() =~= Seq::<
        (Seq<u8>, u32),
    >::empty());
}

/// Block `b` of a directory.
proof fn lemma_dir_block_at(entries: Seq<Dirent>, counts: Seq<int>, b: int, n: int, bs: int)
    requires
        counts_ok(entries, counts, bs),
        0 <= b < n <= counts.len(),
        0 < bs,
    ensures
        0 <= b * bs,
        b * bs + bs <= dir_bytes(entries, counts, n, bs).len(),
        dir_bytes(entries, counts, n, bs).subrange(b * bs, b * bs + bs) == dir_block(
            entries,
            sum(counts, b),
            counts[b],
            bs,
        ),
    decreases n,
{
    lemma_dir_len(entries, counts, n, bs);
    lemma_dir_len(entries, counts, n - 1, bs);
    assert(0 < counts[n - 1]);
    lemma_block_len(entries, sum(counts, n - 1), counts[n - 1], bs);
    assert(0 <= b * bs && b * bs + bs <= n * bs) by (nonlinear_arith)
        requires
            0 <= b,
            b + 1 <= n,
            0 < bs,
    ;
    let x = dir_bytes(entries, counts, n - 1, bs);
    let y = dir_bytes(entries, counts, n, bs);
    if b < n - 1 {
        lemma_dir_block_at(entries, counts, b, n - 1, bs);
        assert(y.subrange(b * bs, b * bs + bs) =~= x.subrange(b * bs, b * bs + bs));
    } else {
        assert(y.subrange(b * bs, b * bs + bs) =~= dir_block(
            entries,
            sum(counts, b),
            counts[b],
            bs,
        ));
    }
}

/// Empty block `b`.
proof fn lemma_empty_block_at(b: int, n: int, bs: int)
    requires
        0 <= b < n,
        8 <= bs,
    ensures
        0 <= b * bs,
        b * bs + bs <= empty_blocks(n, bs).len(),
        empty_blocks(n, bs).subrange(b * bs, b * bs + bs) == empty_block(bs),
    decreases n,
{
    lemma_empty_len(n, bs);
    lemma_empty_len(n - 1, bs);
    assert(0 <= b * bs && b * bs + bs <= n * bs) by (nonlinear_arith)
        requires
            0 <= b,
            b + 1 <= n,
            0 < bs,
    ;
    let x = empty_blocks(n - 1, bs);
    let y = empty_blocks(n, bs);
    if b < n - 1 {
        lemma_empty_block_at(b, n - 1, bs);
        assert(y.subrange(b * bs, b * bs + bs) =~= x.subrange(b * bs, b * bs + bs));
    } else {
        assert(y.subrange(b * bs, b * bs + bs) =~= empty_block(bs));
    }
}

/// The content of a directory lists its entries, from block `b` on.
proof fn lemma_blocks_list(entries: Seq<Dirent>, bs: int, min_bytes: int, b: int)
    requires
        names_fit(entries),
        numbered_well(entries),
        entries.len() > 0,
        264 <= bs <= 0xFFFF,
        0 <= min_bytes,
        0 <= b <= dir_block_count(entries, bs, min_bytes),
    ensures
        ({
            let counts = dir_counts(entries, bs);
            list_from(dir_content(entries, bs, min_bytes), bs, true, b * bs) == (if b < counts.len() {
                listed(entries, sum(counts, b), entries.len() as int)
            } else {
                Seq::empty()
            })
        }),
    decreases dir_block_count(entries, bs, min_bytes) - b,
{
    let counts = dir_counts(entries, bs);
    let n = counts.len() as int;
    let m = dir_block_count(entries, bs, min_bytes);
    let d = dir_content(entries, bs, min_bytes);
    lemma_counts(entries, bs);
    lemma_content_len(entries, bs, min_bytes);
    lemma_dir_len(entries, counts, n, bs);
    lemma_empty_len(m - n, bs);
    let none = Seq::<(Seq<u8>, u32)>::empty();
    if b >= m {
        assert(b * bs == m * bs);
    } else {
        lemma_blocks_list(entries, bs, min_bytes, b + 1);
        assert((b + 1) * bs == b * bs + bs) by (nonlinear_arith);
        assert(0 <= b * bs && b * bs + bs <= m * bs) by (nonlinear_arith)
            requires
                0 <= b,
                b + 1 <= m,
                0 < bs,
        ;
        let blk = d.subrange(b * bs, b * bs + bs);
        assert(smaller(b * bs + bs, d.len() as int) == b * bs + bs);
        if b < n {
            lemma_dir_block_at(entries, counts, b, n, bs);
            assert(blk =~= dir_bytes(entries, counts, n, bs).subrange(b * bs, b * bs + bs));
            assert(0 < counts[b]);
            lemma_sum_mono(counts, b + 1, n);
            lemma_sum_mono(counts, 0, b);
            lemma_block_lists(entries, sum(counts, b), counts[b], bs, 0);
            if b + 1 < n {
                lemma_listed_split(
                    entries,
                    sum(counts, b),
                    sum(counts, b + 1),
                    entries.len() as int,
                );
            } else {
                let x = listed(entries, sum(counts, b), entries.len() as int);
                assert(x + none =~= x);
            }
        } else {
            let q = b - n;
            lemma_empty_block_at(q, m - n, bs);
            assert(q * bs == b * bs - n * bs) by (nonlinear_arith)
                requires
                    q == b - n,
            ;
            assert(blk =~= empty_blocks(m - n, bs).subrange(q * bs, q * bs + bs));
            lemma_empty_lists(bs);
            assert(none + none =~= none);
        }
    }
}

/// The content of a directory lists its entries.
pub proof fn lemma_content_lists(entries: Seq<Dirent>, bs: int, min_bytes: int)
    requires
        names_fit(entries),
        numbered_well(entries),
        entries.len() > 0,
        264 <= bs <= 0xFFFF,
        0 <= min_bytes,
    ensures
        list_from(dir_content(entries, bs, min_bytes), bs, true, 0) == listed(
            entries,
            0,
            entries.len() as int,
        ),
{
    lemma_content_len(entries, bs, min_bytes);
    lemma_blocks_list(entries, bs, min_bytes, 0);
    assert(0 * bs == 0) by (nonlinear_arith);
}

/// Entries that are no dots are all listed.
pub proof fn lemma_all_listed(entries: Seq<Dirent>, a: int, b: int)
    requires
        0 <= a <= b <= entries.len(),
        forall|k: int| a <= k < b ==> !is_dot((#[trigger] entries[k]).name),
    ensures
        listed(entries, a, b) == Seq::new(
            (b - a) as nat,
            |k: int| (entries[a + k].name, entries[a + k].ino as u32),
        ),
    decreases b - a,
{
    let want = Seq::new(
        (b - a) as nat,
        |k: int| (entries[a + k].name, entries[a + k].ino as u32),
    );
    if a < b {
        lemma_all_listed(entries, a + 1, b);
        assert(listed(entries, a, b) =~= want);
    } else {
        assert(listed(entries, a, b) =~= want);
    }
}

/// Reading the blocks of a directory gives its children back, in order and
/// without "." and "..". The directory fills whole blocks and has at least
/// the bytes that were asked for.
pub proof fn directory_reads_back(
    ino: int,
    parent: int,
    children: Seq<Dirent>,
    bs: int,
    min_bytes: int,
)
    requires
        names_fit(children),
        numbered_well(children),
        0 < ino <= u32::MAX,
        0 < parent <= u32::MAX,
        forall|k: int| 0 <= k < children.len() ==> !is_dot((#[trigger] children[k]).name),
        264 <= bs <= 0xFFFF,
        0 <= min_bytes,
    ensures
        ({
            let d = dir_content(with_dots(ino, parent, children), bs, min_bytes);
            &&& list_from(d, bs, true, 0) == Seq::new(
                children.len(),
                |k: int| (children[k].name, children[k].ino as u32),
            )
            &&& d.len() as int % bs == 0
            &&& d.len() >= min_bytes
        }),
{
    let all = with_dots(ino, parent, children);
    let n = all.len() as int;
    assert forall|k: int| 0 <= k < n implies (#[trigger] all[k]).name.len() <= 255 && 0 < all[k].ino
        <= u32::MAX by {
        if k >= 2 {
            assert(all[k] == children[k - 2]);
        }
    }
    lemma_content_lists(all, bs, min_bytes);
    lemma_content_len(all, bs, min_bytes);
    lemma_listed_split(all, 0, 2, n);
    assert(listed(all, 2, 2) =~= Seq::empty());
    assert(is_dot(all[0].name) && is_dot(all[1].name));
    assert(listed(all, 1, 2) =~= Seq::empty());
    assert(listed(all, 0, 2) =~= Seq::empty());
    assert forall|k: int| 2 <= k < n implies !is_dot((#[trigger] all[k]).name) by {
        assert(all[k] == children[k - 2]);
    }
    lemma_all_listed(all, 2, n);
    assert(listed(all, 0, n) =~= Seq::new(
        children.len(),
        |k: int| (children[k].name, children[k].ino as u32),
    ));
}

} // verus!
