//! The directory blocks of an ext4 image.
use vstd::prelude::*;
use crate::bytes::{bytes16, bytes32, ceil_div, push16, push_bytes, push_zeros, zero_seq};

verus! {

broadcast use crate::bytes::group_byte_lens;

/// A directory entry: name, inode, file type.
pub struct Dirent {
    pub name: Seq<u8>,
    pub ino: int,
    pub ftype: u8,
}

/// Bytes that an entry needs.
pub open spec fn rec_min(e: Dirent) -> int {
    (8 + e.name.len() as int + 3) / 4 * 4
}

/// How the first entries of a directory fill blocks: the number of entries
/// in each full block, and the entries and bytes in the last one.
pub struct Filled {
    pub blocks: Seq<int>,
    pub count: int,
    pub used: int,
}

/// Fills blocks of `bs` bytes with the first `n` entries; an entry that does
/// not fit any more starts a new block.
pub open spec fn fill(entries: Seq<Dirent>, n: int, bs: int) -> Filled
    decreases n,
{
    if n <= 0 {
        Filled { blocks: Seq::empty(), count: 0, used: 0 }
    } else {
        let f = fill(entries, n - 1, bs);
        let need = rec_min(entries[n - 1]);
        if f.used + need > bs {
            Filled { blocks: f.blocks.push(f.count), count: 1, used: need }
        } else {
            Filled { blocks: f.blocks, count: f.count + 1, used: f.used + need }
        }
    }
}

/// Entries per block, the last block included.
pub open spec fn dir_counts(entries: Seq<Dirent>, bs: int) -> Seq<int> {
    let f = fill(entries, entries.len() as int, bs);
    f.blocks.push(f.count)
}

/// One entry that takes `rec` bytes.
pub open spec fn rec_bytes(e: Dirent, rec: int) -> Seq<u8> {
    bytes32(e.ino) + bytes16(rec) + seq![e.name.len() as u8, e.ftype] + e.name + zero_seq(
        rec - 8 - e.name.len(),
    )
}

/// The entries `from..from + k`, each as long as it needs to be.
pub open spec fn recs(entries: Seq<Dirent>, from: int, k: int) -> Seq<u8>
    decreases k,
{
    if k <= 0 {
        Seq::empty()
    } else {
        recs(entries, from, k - 1) + rec_bytes(
            entries[from + k - 1],
            rec_min(entries[from + k - 1]),
        )
    }
}

/// A directory block with `count` entries; the last one takes the rest of it.
pub open spec fn dir_block(entries: Seq<Dirent>, from: int, count: int, bs: int) -> Seq<u8> {
    let head = recs(entries, from, count - 1);
    head + rec_bytes(entries[from + count - 1], bs - head.len())
}

/// The number of entries in the first `b` blocks.
pub open spec fn sum(counts: Seq<int>, b: int) -> int
    decreases b,
{
    if b <= 0 {
        0
    } else {
        sum(counts, b - 1) + counts[b - 1]
    }
}

/// The first `b` blocks of a directory.
pub open spec fn dir_bytes(entries: Seq<Dirent>, counts: Seq<int>, b: int, bs: int) -> Seq<u8>
    decreases b,
{
    if b <= 0 {
        Seq::empty()
    } else {
        dir_bytes(entries, counts, b - 1, bs) + dir_block(
            entries,
            sum(counts, b - 1),
            counts[b - 1],
            bs,
        )
    }
}

/// An empty block: one unused entry spanning it.
pub open spec fn empty_block(bs: int) -> Seq<u8> {
    zero_seq(4) + bytes16(bs) + zero_seq(bs - 6)
}

/// `n` empty blocks.
pub open spec fn empty_blocks(n: int, bs: int) -> Seq<u8>
    decreases n,
{
    if n <= 0 {
        Seq::empty()
    } else {
        empty_blocks(n - 1, bs) + empty_block(bs)
    }
}

/// Blocks that a directory takes, at least `min_bytes` of them.
pub open spec fn dir_block_count(entries: Seq<Dirent>, bs: int, min_bytes: int) -> int {
    let n = dir_counts(entries, bs).len() as int;
    if n * bs < min_bytes {
        ceil_div(min_bytes, bs)
    } else {
        n
    }
}

/// "." and ".." before the children.
pub open spec fn with_dots(ino: int, parent: int, children: Seq<Dirent>) -> Seq<Dirent> {
    seq![
        Dirent { name: seq![0x2eu8], ino, ftype: 2 },
        Dirent { name: seq![0x2eu8, 0x2eu8], ino: parent, ftype: 2 },
    ] + children
}

/// The blocks of a directory of at least `min_bytes` bytes.
pub open spec fn dir_content(entries: Seq<Dirent>, bs: int, min_bytes: int) -> Seq<u8> {
    let counts = dir_counts(entries, bs);
    dir_bytes(entries, counts, counts.len() as int, bs) + empty_blocks(
        dir_block_count(entries, bs, min_bytes) - counts.len(),
        bs,
    )
}

/// Names that an entry can hold.
pub open spec fn names_fit(entries: Seq<Dirent>) -> bool {
    forall|k: int| 0 <= k < entries.len() ==> (#[trigger] entries[k]).name.len() <= 255
}

/// Bytes of the entries `from..from + k`.
pub open spec fn recs_len(entries: Seq<Dirent>, from: int, k: int) -> int
    decreases k,
{
    if k <= 0 {
        0
    } else {
        recs_len(entries, from, k - 1) + rec_min(entries[from + k - 1])
    }
}

pub proof fn lemma_recs_len(entries: Seq<Dirent>, from: int, k: int)
    ensures
        recs(entries, from, k).len() == recs_len(entries, from, k),
        0 <= recs_len(entries, from, k),
        k > 0 ==> recs_len(entries, from, k) >= 8 * k,
    decreases k,
{
    if k > 0 {
        lemma_recs_len(entries, from, k - 1);
    }
}

pub proof fn lemma_sum_same(a: Seq<int>, b: Seq<int>, n: int)
    requires
        n <= a.len(),
        n <= b.len(),
        forall|k: int| 0 <= k < n ==> a[k] == b[k],
    ensures
        sum(a, n) == sum(b, n),
    decreases n,
{
    if n > 0 {
        lemma_sum_same(a, b, n - 1);
    }
}

pub proof fn lemma_sum_mono(counts: Seq<int>, b: int, c: int)
    requires
        0 <= b <= c <= counts.len(),
        forall|k: int| 0 <= k < counts.len() ==> 0 <= #[trigger] counts[k],
    ensures
        0 <= sum(counts, b) <= sum(counts, c),
    decreases c,
{
    if b < c {
        lemma_sum_mono(counts, b, c - 1);
    } else if b > 0 {
        lemma_sum_mono(counts, b - 1, c - 1);
    }
}

/// What filling blocks keeps.
pub proof fn lemma_fill(entries: Seq<Dirent>, n: int, bs: int)
    requires
        0 <= n <= entries.len(),
        names_fit(entries),
        264 <= bs,
    ensures
        ({
            let f = fill(entries, n, bs);
            &&& sum(f.blocks, f.blocks.len() as int) == n - f.count
            &&& (n > 0 ==> 0 < f.count <= n)
            &&& (n == 0 ==> f.count == 0)
            &&& f.used == recs_len(entries, n - f.count, f.count)
            &&& f.used <= bs
            &&& forall|b: int|
                0 <= b < f.blocks.len() ==> 0 < #[trigger] f.blocks[b] && recs_len(
                    entries,
                    sum(f.blocks, b),
                    f.blocks[b],
                ) <= bs
        }),
    decreases n,
{
    if n > 0 {
        lemma_fill(entries, n - 1, bs);
        let p = fill(entries, n - 1, bs);
        let f = fill(entries, n, bs);
        assert(entries[n - 1].name.len() <= 255);
        if p.used + rec_min(entries[n - 1]) > bs {
            lemma_sum_same(p.blocks, f.blocks, p.blocks.len() as int);
            reveal_with_fuel(recs_len, 2);
            assert forall|b: int| 0 <= b < f.blocks.len() implies 0 < #[trigger] f.blocks[b]
                && recs_len(entries, sum(f.blocks, b), f.blocks[b]) <= bs by {
                lemma_sum_same(p.blocks, f.blocks, b);
                if b < p.blocks.len() {
                    assert(0 < p.blocks[b]);
                }
            }
        } else {
            assert(n - 1 - p.count == n - f.count);
        }
    }
}

/// `counts` distributes all entries over blocks, none of them empty or
/// overfull.
pub open spec fn counts_ok(entries: Seq<Dirent>, counts: Seq<int>, bs: int) -> bool {
    &&& counts.len() > 0
    &&& sum(counts, counts.len() as int) == entries.len()
    &&& forall|b: int|
        0 <= b < counts.len() ==> 0 < #[trigger] counts[b] && recs_len(
            entries,
            sum(counts, b),
            counts[b],
        ) <= bs
}

pub proof fn lemma_counts(entries: Seq<Dirent>, bs: int)
    requires
        names_fit(entries),
        entries.len() > 0,
        264 <= bs,
    ensures
        counts_ok(entries, dir_counts(entries, bs), bs),
        dir_counts(entries, bs).len() <= entries.len(),
{
    let n = entries.len() as int;
    lemma_fill(entries, n, bs);
    let f = fill(entries, n, bs);
    let counts = dir_counts(entries, bs);
    lemma_sum_same(f.blocks, counts, f.blocks.len() as int);
    assert forall|b: int| 0 <= b < counts.len() implies 0 < #[trigger] counts[b] && recs_len(
        entries,
        sum(counts, b),
        counts[b],
    ) <= bs by {
        lemma_sum_same(f.blocks, counts, b);
        if b < f.blocks.len() {
            assert(0 < f.blocks[b]);
        }
    }
    lemma_sum_count(counts, counts.len() as int);
}

proof fn lemma_sum_count(counts: Seq<int>, n: int)
    requires
        0 <= n <= counts.len(),
        forall|b: int| 0 <= b < counts.len() ==> 0 < #[trigger] counts[b],
    ensures
        n <= sum(counts, n),
    decreases n,
{
    if n > 0 {
        lemma_sum_count(counts, n - 1);
    }
}

/// A directory block takes `bs` bytes.
pub proof fn lemma_block_len(entries: Seq<Dirent>, from: int, count: int, bs: int)
    requires
        0 < count,
        recs_len(entries, from, count) <= bs,
    ensures
        dir_block(entries, from, count, bs).len() == bs,
        recs(entries, from, count - 1).len() + entries[from + count - 1].name.len() + 8 <= bs,
{
    lemma_recs_len(entries, from, count - 1);
}

/// The blocks of a directory take `bs` bytes each.
pub proof fn lemma_dir_len(entries: Seq<Dirent>, counts: Seq<int>, b: int, bs: int)
    requires
        counts_ok(entries, counts, bs),
        0 <= b <= counts.len(),
    ensures
        dir_bytes(entries, counts, b, bs).len() == b * bs,
    decreases b,
{
    if b > 0 {
        lemma_dir_len(entries, counts, b - 1, bs);
        assert(0 < counts[b - 1]);
        lemma_block_len(entries, sum(counts, b - 1), counts[b - 1], bs);
        assert((b - 1) * bs + bs == b * bs) by (nonlinear_arith);
    } else {
        assert(0 * bs == 0) by (nonlinear_arith);
    }
}

pub proof fn lemma_empty_len(n: int, bs: int)
    requires
        0 <= n,
        6 <= bs,
    ensures
        empty_blocks(n, bs).len() == n * bs,
    decreases n,
{
    if n > 0 {
        lemma_empty_len(n - 1, bs);
        assert((n - 1) * bs + bs == n * bs) by (nonlinear_arith);
    } else {
        assert(0 * bs == 0) by (nonlinear_arith);
    }
}

/// A directory takes whole blocks.
pub proof fn lemma_content_len(entries: Seq<Dirent>, bs: int, min_bytes: int)
    requires
        names_fit(entries),
        entries.len() > 0,
        264 <= bs,
        0 <= min_bytes,
    ensures
        dir_content(entries, bs, min_bytes).len() == dir_block_count(entries, bs, min_bytes) * bs,
        0 < dir_counts(entries, bs).len() <= dir_block_count(entries, bs, min_bytes),
        dir_content(entries, bs, min_bytes).len() as int % bs == 0,
        dir_content(entries, bs, min_bytes).len() >= min_bytes,
{
    let counts = dir_counts(entries, bs);
    let n = counts.len() as int;
    let m = dir_block_count(entries, bs, min_bytes);
    lemma_counts(entries, bs);
    lemma_dir_len(entries, counts, n, bs);
    crate::bytes::lemma_round_up(min_bytes, bs);
    if n * bs < min_bytes {
        assert(n <= m) by (nonlinear_arith)
            requires
                m * bs >= min_bytes > n * bs,
                0 < bs,
        ;
    }
    lemma_empty_len(m - n, bs);
    assert(n * bs + (m - n) * bs == m * bs) by (nonlinear_arith);
    vstd::arithmetic::div_mod::lemma_fundamental_div_mod_converse(m * bs, bs, m, 0);
}

/// A directory entry: name, inode, file type.
#[derive(Debug)]
pub struct DirEntry {
    pub name: Vec<u8>,
    pub ino: u32,
    pub ftype: u8,
}

impl View for DirEntry {
    type V = Dirent;

    open spec fn view(&self) -> Dirent {
        Dirent { name: self.name@, ino: self.ino as int, ftype: self.ftype }
    }
}

pub open spec fn dirents_view(v: Seq<DirEntry>) -> Seq<Dirent> {
    v.map_values(|e: DirEntry| e@)
}

/// Splits directory entries into blocks; returns the entries per block.
pub fn dir_layout(entries: &Vec<DirEntry>, bs: u64) -> (r: Vec<usize>)
    requires
        names_fit(dirents_view(entries@)),
        264 <= bs <= u32::MAX,
    ensures
        r@.map_values(|c: usize| c as int) == dir_counts(dirents_view(entries@), bs as int),
{
    let ghost all = dirents_view(entries@);
    let mut blocks: Vec<usize> = Vec::new();
    let mut count: usize = 0;
    let mut used: u64 = 0;
    let mut k: usize = 0;
    while k < entries.len()
        invariant
            k <= entries.len(),
            count <= k,
            used <= bs <= u32::MAX,
            264 <= bs,
            names_fit(all),
            all == dirents_view(entries@),
            fill(all, k as int, bs as int).count == count,
            fill(all, k as int, bs as int).used == used,
            fill(all, k as int, bs as int).blocks =~= blocks@.map_values(|c: usize| c as int),
        decreases entries.len() - k,
    {
        assert(all[k as int].name == entries@[k as int].name@);
        let need: u64 = (8 + entries[k].name.len() as u64 + 3) / 4 * 4;
        if used + need > bs {
            blocks.push(count);
            count = 0;
            used = 0;
        }
        count += 1;
        used += need;
        k += 1;
    }
    blocks.push(count);
    assert(blocks@.map_values(|c: usize| c as int) =~= dir_counts(all, bs as int));
    blocks
}

proof fn lemma_bytes16_wraps(x: int)
    requires
        0 <= x,
    ensures
        bytes16(x % 0x1_0000) == bytes16(x),
{
    reveal(bytes16);
    assert(bytes16(x % 0x1_0000) =~= bytes16(x));
}

/// Appends one entry that takes `rec` bytes.
fn push_rec(out: &mut Vec<u8>, e: &DirEntry, rec: usize)
    requires
        e.name.len() <= 255,
        e.name.len() + 8 <= rec,
    ensures
        final(out)@ == old(out)@ + rec_bytes(e@, rec as int),
{
    proof {
        lemma_bytes16_wraps(rec as int);
    }
    let n: usize = e.name.len();
    let mut b: Vec<u8> = crate::bytes::start32(e.ino);
    push16(&mut b, (rec % 0x1_0000) as u16);
    let pair: Vec<u8> = vec![n as u8, e.ftype];
    assert(pair@ =~= seq![e@.name.len() as u8, e@.ftype]);
    push_bytes(&mut b, &pair);
    push_bytes(&mut b, &e.name);
    push_zeros(&mut b, rec - 8 - n);
    push_bytes(out, &b);
}

/// Appends a directory block with `count` entries.
fn push_block(out: &mut Vec<u8>, entries: &Vec<DirEntry>, from: usize, count: usize, bs: usize)
    requires
        0 < count,
        from + count <= entries.len(),
        names_fit(dirents_view(entries@)),
        recs_len(dirents_view(entries@), from as int, count as int) <= bs,
    ensures
        final(out)@ == old(out)@ + dir_block(
            dirents_view(entries@),
            from as int,
            count as int,
            bs as int,
        ),
{
    let ghost all = dirents_view(entries@);
    proof {
        lemma_block_len(all, from as int, count as int, bs as int);
    }
    let mut b: Vec<u8> = Vec::new();
    assert(b@ =~= recs(all, from as int, 0));
    let mut k: usize = 0;
    while k < count - 1
        invariant
            k <= count - 1,
            0 < count,
            from + count <= entries.len(),
            all == dirents_view(entries@),
            names_fit(all),
            b@ == recs(all, from as int, k as int),
        decreases count - k,
    {
        let e: &DirEntry = &entries[from + k];
        assert(all[from + k] == e@);
        let rec: usize = (8 + e.name.len() + 3) / 4 * 4;
        push_rec(&mut b, e, rec);
        k += 1;
    }
    let e: &DirEntry = &entries[from + k];
    assert(all[from + k] == e@);
    let used: usize = b.len();
    push_rec(&mut b, e, bs - used);
    push_bytes(out, &b);
}

/// Directory blocks: ".", ".." and the children, entries never crossing a
/// block; the last entry of a block takes the rest of it. Empty blocks follow
/// up to `min_bytes`.
pub fn dir_blocks(
    ino: u32,
    parent: u32,
    children: Vec<DirEntry>,
    bs: usize,
    min_bytes: u64,
) -> (r: Vec<u8>)
    requires
        names_fit(dirents_view(children@)),
        264 <= bs <= 65536,
    ensures
        r@ == dir_content(
            with_dots(ino as int, parent as int, dirents_view(children@)),
            bs as int,
            min_bytes as int,
        ),
{
    let ghost kids = dirents_view(children@);
    let entries: Vec<DirEntry> = dots_before(ino, parent, children);
    let ghost all = dirents_view(entries@);
    let counts: Vec<usize> = dir_layout(&entries, bs as u64);
    let ghost cs = counts@.map_values(|c: usize| c as int);
    proof {
        lemma_counts(all, bs as int);
        lemma_content_len(all, bs as int, min_bytes as int);
    }
    let mut out: Vec<u8> = Vec::new();
    assert(out@ =~= dir_bytes(all, cs, 0, bs as int));
    let mut from: usize = 0;
    let mut b: usize = 0;
    while b < counts.len()
        invariant
            b <= counts.len(),
            264 <= bs,
            all == dirents_view(entries@),
            names_fit(all),
            cs == counts@.map_values(|c: usize| c as int),
            counts_ok(all, cs, bs as int),
            from == sum(cs, b as int),
            out@ == dir_bytes(all, cs, b as int, bs as int),
        decreases counts.len() - b,
    {
        let count: usize = counts[b];
        proof {
            assert(cs[b as int] == count);
            lemma_sum_mono(cs, b + 1, cs.len() as int);
        }
        push_block(&mut out, &entries, from, count, bs);
        from = from + count;
        b += 1;
    }
    // extra empty blocks (lost+found)
    let ghost base = out@;
    let ghost n = counts.len() as int;
    proof {
        lemma_dir_len(all, cs, n, bs as int);
        assert(base + empty_blocks(0, bs as int) =~= base);
    }
    let ghost mut k: int = 0;
    while (out.len() as u64) < min_bytes
        invariant
            264 <= bs <= 65536,
            out@ == base + empty_blocks(k, bs as int),
            base.len() == n * bs,
            n >= 0,
            k >= 0,
            k > 0 ==> (n + k - 1) * bs < min_bytes,
        decreases
                (if out.len() < min_bytes {
                    min_bytes - out.len()
                } else {
                    0
                }),
    {
        proof {
            lemma_empty_len(k, bs as int);
            assert(n * bs + k * bs == (n + k) * bs) by (nonlinear_arith);
        }
        let mut empty: Vec<u8> = crate::bytes::zeros(4);
        proof {
            lemma_bytes16_wraps(bs as int);
        }
        push16(&mut empty, (bs % 0x1_0000) as u16);
        push_zeros(&mut empty, bs - 6);
        let ghost prev = out@;
        push_bytes(&mut out, &empty);
        assert(out@ =~= base + (empty_blocks(k, bs as int) + empty_block(bs as int)));
        proof {
            k = k + 1;
        }
    }
    proof {
        lemma_empty_len(k, bs as int);
        assert(n * bs + k * bs == (n + k) * bs) by (nonlinear_arith);
        lemma_enough(n, k, bs as int, min_bytes as int);
    }
    out
}

/// Filling up with empty blocks stops at the right number.
proof fn lemma_enough(n: int, k: int, bs: int, min_bytes: int)
    requires
        0 <= n,
        0 <= k,
        0 < bs,
        (n + k) * bs >= min_bytes,
        k > 0 ==> (n + k - 1) * bs < min_bytes,
    ensures
        k == (if n * bs < min_bytes {
            ceil_div(min_bytes, bs)
        } else {
            n
        }) - n,
{
    if n * bs < min_bytes {
        assert(k > 0) by {
            if k == 0 {
                assert((n + 0) * bs == n * bs);
            }
        }
        assert((min_bytes + bs - 1) / bs == n + k) by (nonlinear_arith)
            requires
                (n + k) * bs >= min_bytes,
                (n + k - 1) * bs < min_bytes,
                0 < bs,
        ;
    } else {
        if k > 0 {
            assert((n + k - 1) * bs >= n * bs) by (nonlinear_arith)
                requires
                    k >= 1,
                    0 < bs,
            ;
        }
    }
}

/// The entries of a directory with "." and "..".
fn dots_before(ino: u32, parent: u32, children: Vec<DirEntry>) -> (r: Vec<DirEntry>)
    requires
        names_fit(dirents_view(children@)),
    ensures
        dirents_view(r@) == with_dots(ino as int, parent as int, dirents_view(children@)),
        names_fit(dirents_view(r@)),
{
    let ghost kids = dirents_view(children@);
    let one: Vec<u8> = vec![0x2eu8];
    let two: Vec<u8> = vec![0x2eu8, 0x2eu8];
    assert(one@ =~= seq![0x2eu8]);
    assert(two@ =~= seq![0x2eu8, 0x2eu8]);
    let mut entries: Vec<DirEntry> = Vec::new();
    entries.push(DirEntry { name: one, ino, ftype: 2 });
    entries.push(DirEntry { name: two, ino: parent, ftype: 2 });
    let ghost head = entries@;
    let mut rest: Vec<DirEntry> = children;
    entries.append(&mut rest);
    assert(entries@ =~= head + children@);
    assert(dirents_view(entries@) =~= with_dots(ino as int, parent as int, kids));
    assert forall|k: int| 0 <= k < entries@.len() implies (#[trigger] dirents_view(
        entries@,
    )[k]).name.len() <= 255 by {
        if k >= 2 {
            assert(dirents_view(entries@)[k] == kids[k - 2]);
        }
    }
    entries
}

} // verus!
