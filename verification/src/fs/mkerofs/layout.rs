//! Where everything goes in an EROFS image: directory blocks, shared xattrs,
//! inode records and data blocks.
use vstd::prelude::*;
use crate::bytes::{align_up, bytes16, bytes64, ceil_div, div_up, push16, push64, push_bytes,
    lemma_round_up, push_zeros, round_up, same_bytes, zero_seq};
use crate::error::Error;
use crate::fs::mkext4::{Node, NodeKind};
use crate::fs::order::{is_before, place};
use crate::fs::tree::{bad_name, fault, items_of, kid, kids_of, lemma_item_kids, lemma_items,
    lemma_items_clean, lemma_kids, numbered, rooted, Item, Numbered};
use crate::fs::xattr::{attrs_of, attrs_view, security_xattrs, Attr, Xattr};

verus! {

broadcast use crate::bytes::group_byte_lens;

/// Where the superblock starts.
pub const SUPERBLOCK_OFFSET: u64 = 1024;

/// End of the superblock: shared xattrs start here in block 0.
pub const SB_END: u64 = 1152;

pub const DIRENT_SIZE: u64 = 12;

pub const XATTR_INDEX_SECURITY: u8 = 6;

pub open spec fn file_type(node: Node) -> u8 {
    match node.kind {
        NodeKind::File { .. } => 1,
        NodeKind::Dir(_) => 2,
        NodeKind::Symlink(_) => 7,
    }
}

/// "."
pub open spec fn dot() -> Seq<u8> {
    seq![0x2eu8]
}

/// ".."
pub open spec fn dotdot() -> Seq<u8> {
    seq![0x2eu8, 0x2eu8]
}

/// A directory entry: name, item number, file type.
pub struct DirEntry {
    pub name: Seq<u8>,
    pub target: int,
    pub ftype: u8,
}

/// The children of item `i` as directory entries, in the order of names.
pub open spec fn child_entries(items: Seq<Numbered>, i: int) -> Seq<DirEntry> {
    let it = items[i];
    Seq::new(
        kids_of(it.node).len(),
        |k: int|
            DirEntry {
                name: kid(it.node, k).name@,
                target: it.first + k,
                ftype: file_type(kid(it.node, k)),
            },
    )
}

pub open spec fn entry_names(entries: Seq<DirEntry>) -> Seq<Seq<u8>> {
    entries.map_values(|e: DirEntry| e.name)
}

/// All entries of directory `i`: its children, with "." and ".." sorted in.
pub open spec fn dir_entries(items: Seq<Numbered>, i: int) -> Seq<DirEntry> {
    let c = child_entries(items, i);
    let n = c.len() as int;
    let p = place(entry_names(c), n, dot());
    let q = place(entry_names(c), n, dotdot());
    c.take(p).push(DirEntry { name: dot(), target: i, ftype: 2 }) + c.subrange(p, q).push(
        DirEntry { name: dotdot(), target: items[i].parent, ftype: 2 },
    ) + c.skip(q)
}

/// How the first entries of a directory fill blocks: the number of entries
/// in each full block, and the entries and bytes in the last one.
pub struct Filled {
    pub blocks: Seq<int>,
    pub count: int,
    pub used: int,
}

/// Fills blocks of `bs` bytes with the first `n` entries; an entry that does
/// not fit any more starts a new block.
pub open spec fn fill(entries: Seq<DirEntry>, n: int, bs: int) -> Filled
    decreases n,
{
    if n <= 0 {
        Filled { blocks: Seq::empty(), count: 0, used: 0 }
    } else {
        let f = fill(entries, n - 1, bs);
        let need = DIRENT_SIZE + entries[n - 1].name.len();
        if f.used + need > bs {
            Filled { blocks: f.blocks.push(f.count), count: 1, used: need }
        } else {
            Filled { blocks: f.blocks, count: f.count + 1, used: f.used + need }
        }
    }
}

/// Entries per block, the last block included.
pub open spec fn dir_counts(entries: Seq<DirEntry>, bs: int) -> Seq<int> {
    let f = fill(entries, entries.len() as int, bs);
    f.blocks.push(f.count)
}

/// Bytes of a directory; the last block is not padded.
pub open spec fn dir_size(entries: Seq<DirEntry>, bs: int) -> int {
    let f = fill(entries, entries.len() as int, bs);
    f.blocks.len() * bs + f.used
}

/// The bytes of the names `from..from + k`.
pub open spec fn name_bytes(entries: Seq<DirEntry>, from: int, k: int) -> Seq<u8>
    decreases k,
{
    if k <= 0 {
        Seq::empty()
    } else {
        name_bytes(entries, from, k - 1) + entries[from + k - 1].name
    }
}

/// The fixed part of entry `k` of a block that holds `count` entries from
/// `from` on: nid, offset of the name in the block, file type, a zero byte.
pub open spec fn dirent(
    entries: Seq<DirEntry>,
    nids: Seq<int>,
    from: int,
    count: int,
    k: int,
) -> Seq<u8> {
    bytes64(nids[entries[from + k].target]) + bytes16(
        DIRENT_SIZE * count + name_bytes(entries, from, k).len(),
    ) + seq![entries[from + k].ftype, 0u8]
}

/// The fixed parts of the first `k` entries of a block.
pub open spec fn dirents(
    entries: Seq<DirEntry>,
    nids: Seq<int>,
    from: int,
    count: int,
    k: int,
) -> Seq<u8>
    decreases k,
{
    if k <= 0 {
        Seq::empty()
    } else {
        dirents(entries, nids, from, count, k - 1) + dirent(entries, nids, from, count, k - 1)
    }
}

/// A directory block: the fixed parts, then the names.
pub open spec fn dir_block(
    entries: Seq<DirEntry>,
    nids: Seq<int>,
    from: int,
    count: int,
) -> Seq<u8> {
    dirents(entries, nids, from, count, count) + name_bytes(entries, from, count)
}

/// The number of entries in the first `b` blocks.
pub open spec fn sum(counts: Seq<int>, b: int) -> int
    decreases b,
{
    if b <= 0 {
        0
    } else {
        sum(counts, b - 1) + counts[b - 1]
    }
}

/// The first `b` blocks of a directory, each but the last padded with zeros.
pub open spec fn dir_bytes(
    entries: Seq<DirEntry>,
    nids: Seq<int>,
    counts: Seq<int>,
    b: int,
    bs: int,
) -> Seq<u8>
    decreases b,
{
    if b <= 0 {
        Seq::empty()
    } else {
        let block = dir_block(entries, nids, sum(counts, b - 1), counts[b - 1]);
        let pad = if b < counts.len() {
            bs - block.len()
        } else {
            0
        };
        dir_bytes(entries, nids, counts, b - 1, bs) + block + zero_seq(pad)
    }
}

/// The content of directory `i`.
pub open spec fn dir_content(items: Seq<Numbered>, i: int, nids: Seq<int>, bs: int) -> Seq<u8> {
    let e = dir_entries(items, i);
    let counts = dir_counts(e, bs);
    dir_bytes(e, nids, counts, counts.len() as int, bs)
}

/// One xattr entry: name length, index, value size, name, value; 4-aligned.
pub open spec fn xattr_bytes(a: Attr) -> Seq<u8> {
    let e = seq![a.name.len() as u8, XATTR_INDEX_SECURITY] + bytes16(a.value.len() as int) + a.name
        + a.value;
    e + zero_seq(round_up(e.len() as int, 4) - e.len())
}

/// `pool` with `e`, unless it is there already.
pub open spec fn pool_with(pool: Seq<Seq<u8>>, e: Seq<u8>) -> Seq<Seq<u8>> {
    if pool.contains(e) {
        pool
    } else {
        pool.push(e)
    }
}

/// `pool` with the first `n` xattrs of `attrs`.
pub open spec fn pool_with_all(pool: Seq<Seq<u8>>, attrs: Seq<Attr>, n: int) -> Seq<Seq<u8>>
    decreases n,
{
    if n <= 0 {
        pool
    } else {
        pool_with(pool_with_all(pool, attrs, n - 1), xattr_bytes(attrs[n - 1]))
    }
}

/// The different xattr entries of the first `n` items, in the order of their
/// first use.
pub open spec fn pool_of(items: Seq<Numbered>, n: int) -> Seq<Seq<u8>>
    decreases n,
{
    if n <= 0 {
        Seq::empty()
    } else {
        let attrs = attrs_of(items[n - 1].node);
        pool_with_all(pool_of(items, n - 1), attrs, attrs.len() as int)
    }
}

/// Byte offset of pool entry `k` in the image: right after the one before it,
/// or at the next block where it would cross the end of one.
pub open spec fn pool_offset(pool: Seq<Seq<u8>>, k: int, bs: int) -> int {
    let pos = SB_END + pool_area(pool, k, bs).len();
    if pos % bs + pool[k].len() > bs {
        pos + (bs - pos % bs)
    } else {
        pos
    }
}

/// The shared xattr area with the first `k` entries of the pool.
pub open spec fn pool_area(pool: Seq<Seq<u8>>, k: int, bs: int) -> Seq<u8>
    decreases k, 0int,
{
    if k <= 0 {
        Seq::empty()
    } else {
        let a = pool_area(pool, k - 1, bs);
        let pos = SB_END + a.len();
        let pad = if pos % bs + pool[k - 1].len() > bs {
            bs - pos % bs
        } else {
            0
        };
        a + zero_seq(pad) + pool[k - 1]
    }
}

/// The place of `e` in `pool`, from `k` on.
pub open spec fn pool_index(pool: Seq<Seq<u8>>, e: Seq<u8>, k: int) -> int
    decreases pool.len() - k,
{
    if k >= pool.len() {
        k
    } else if pool[k] == e {
        k
    } else {
        pool_index(pool, e, k + 1)
    }
}

/// The id by which an inode refers to a shared xattr: its offset in words.
pub open spec fn shared_id(pool: Seq<Seq<u8>>, a: Attr, bs: int) -> int {
    pool_offset(pool, pool_index(pool, xattr_bytes(a), 0), bs) / 4
}

/// How many children of `node` among the first `n` are directories.
pub open spec fn subdirs(node: Node, n: int) -> int
    decreases n,
{
    if n <= 0 {
        0
    } else {
        subdirs(node, n - 1) + (if kid(node, n - 1).kind is Dir {
            1int
        } else {
            0
        })
    }
}

/// The link count: 1, or for a directory 2 and one for each directory in it,
/// modulo the width of the field.
pub open spec fn nlink(node: Node) -> int {
    if node.kind is Dir {
        (2 + subdirs(node, kids_of(node).len() as int)) % 0x1_0000_0000
    } else {
        1
    }
}

/// Bytes of the content of item `i`.
#[verifier::opaque]
pub open spec fn size_of(items: Seq<Numbered>, i: int, bs: int) -> int {
    match items[i].node.kind {
        NodeKind::File { data } => data@.len() as int,
        NodeKind::Symlink(target) => target@.len() as int,
        NodeKind::Dir(_) => dir_size(dir_entries(items, i), bs),
    }
}

/// Whether item `i` needs the long form of an inode.
pub open spec fn extended(items: Seq<Numbered>, i: int, bs: int) -> bool {
    let n = items[i].node;
    n.uid > 0xFFFF || n.gid > 0xFFFF || size_of(items, i, bs) > u32::MAX || nlink(n) > 0xFFFF
}

/// Bytes of the on-disk inode.
pub open spec fn inode_len(items: Seq<Numbered>, i: int, bs: int) -> int {
    if extended(items, i, bs) {
        64
    } else {
        32
    }
}

/// Bytes of the xattr header that follows the inode.
pub open spec fn xattr_len(node: Node) -> int {
    let n = attrs_of(node).len() as int;
    if n == 0 {
        0
    } else {
        12 + 4 * n
    }
}

/// Whether the last, partial block of the content stands behind the inode.
pub open spec fn inline_tail(items: Seq<Numbered>, i: int, bs: int) -> bool {
    let tail = size_of(items, i, bs) % bs;
    tail > 0 && inode_len(items, i, bs) + xattr_len(items[i].node) + tail <= bs
}

pub open spec fn tail_len(items: Seq<Numbered>, i: int, bs: int) -> int {
    if inline_tail(items, i, bs) {
        size_of(items, i, bs) % bs
    } else {
        0
    }
}

/// Bytes of the inode with all that follows it.
pub open spec fn record_len(items: Seq<Numbered>, i: int, bs: int) -> int {
    inode_len(items, i, bs) + xattr_len(items[i].node) + tail_len(items, i, bs)
}

/// Blocks in the data area.
pub open spec fn data_blocks(items: Seq<Numbered>, i: int, bs: int) -> int {
    if inline_tail(items, i, bs) {
        size_of(items, i, bs) / bs
    } else {
        ceil_div(size_of(items, i, bs), bs)
    }
}

/// The shared xattr area of the tree.
#[verifier::opaque]
pub open spec fn area_of(items: Seq<Numbered>, bs: int) -> Seq<u8> {
    let pool = pool_of(items, items.len() as int);
    pool_area(pool, pool.len() as int, bs)
}

/// Where a record of `len` bytes goes that would follow at `pos`: at the next
/// block where it would cross the end of one.
#[verifier::opaque]
pub open spec fn start_at(pos: int, len: int, bs: int) -> int {
    if pos % bs + len > bs {
        round_up(pos, bs)
    } else {
        pos
    }
}

/// Byte offset where the first `i` inode records end.
#[verifier::opaque]
pub open spec fn record_end(items: Seq<Numbered>, i: int, bs: int) -> int
    decreases i,
{
    if i <= 0 {
        round_up(SB_END + area_of(items, bs).len(), 32)
    } else {
        let len = record_len(items, i - 1, bs);
        round_up(start_at(record_end(items, i - 1, bs), len, bs) + len, 32)
    }
}

/// Byte offset of inode record `i`: none crosses a block.
pub open spec fn record_start(items: Seq<Numbered>, i: int, bs: int) -> int {
    start_at(record_end(items, i, bs), record_len(items, i, bs), bs)
}

/// The number by which inode `i` is addressed.
pub open spec fn nid_of(items: Seq<Numbered>, i: int, bs: int) -> int {
    record_start(items, i, bs) / 32
}

/// The end of the metadata.
pub open spec fn meta_end(items: Seq<Numbered>, bs: int) -> int {
    record_end(items, items.len() as int, bs)
}

/// The first data block that the first `i` items leave free.
#[verifier::opaque]
pub open spec fn next_block(items: Seq<Numbered>, i: int, bs: int) -> int
    decreases i,
{
    if i <= 0 {
        ceil_div(meta_end(items, bs), bs)
    } else {
        next_block(items, i - 1, bs) + data_blocks(items, i - 1, bs)
    }
}

/// First data block of item `i`, 0 where it has none.
pub open spec fn block_of(items: Seq<Numbered>, i: int, bs: int) -> int {
    if data_blocks(items, i, bs) > 0 {
        next_block(items, i, bs)
    } else {
        0
    }
}

/// Blocks of the whole image.
pub open spec fn total_blocks(items: Seq<Numbered>, bs: int) -> int {
    next_block(items, items.len() as int, bs)
}

/// A symlink whose target is empty or longer than a block.
pub open spec fn bad_link(node: Node, bs: int) -> bool {
    match node.kind {
        NodeKind::Symlink(target) => target@.len() == 0 || target@.len() > bs,
        _ => false,
    }
}

/// What keeps the items from being laid out.
pub open spec fn layout_fault(items: Seq<Numbered>, bs: int) -> Option<Error> {
    if exists|i: int| 0 <= i < items.len() && bad_link(#[trigger] items[i].node, bs) {
        Some(Error::BadSymlinkTarget)
    } else if nid_of(items, 0, bs) > 0xFFFF {
        Some(Error::RootOutOfReach)
    } else if total_blocks(items, bs) > u32::MAX {
        Some(Error::ImageTooBig)
    } else {
        None
    }
}

/// A directory entry: name, item number, file type.
pub struct Entry {
    pub name: Vec<u8>,
    pub target: usize,
    pub ftype: u8,
}

impl View for Entry {
    type V = DirEntry;

    open spec fn view(&self) -> DirEntry {
        DirEntry { name: self.name@, target: self.target as int, ftype: self.ftype }
    }
}

pub open spec fn entries_view(v: Seq<Entry>) -> Seq<DirEntry> {
    v.map_values(|e: Entry| e@)
}

pub fn node_type(node: &Node) -> (r: u8)
    ensures
        r == file_type(*node),
{
    match &node.kind {
        NodeKind::File { .. } => 1,
        NodeKind::Dir(_) => 2,
        NodeKind::Symlink(_) => 7,
    }
}

pub fn clone_bytes(b: &Vec<u8>) -> (r: Vec<u8>)
    ensures
        r@ == b@,
{
    let mut v: Vec<u8> = Vec::new();
    push_bytes(&mut v, b);
    assert(v@ =~= b@);
    v
}

/// The place of `name` among the first `n` entries.
fn find_place(entries: &Vec<Entry>, name: &[u8]) -> (r: usize)
    ensures
        r == place(entry_names(entries_view(entries@)), entries@.len() as int, name@),
        r <= entries@.len(),
{
    let mut n: usize = entries.len();
    let ghost all = entry_names(entries_view(entries@));
    while n > 0 && is_before(name, &entries[n - 1].name)
        invariant
            n <= entries.len(),
            all == entry_names(entries_view(entries@)),
            place(all, entries@.len() as int, name@) == place(all, n as int, name@),
        decreases n,
    {
        n -= 1;
    }
    n
}

/// The entries of directory `i` including "." and "..", sorted by name.
pub fn list_entries<'a>(items: &Vec<Item<'a>>, i: usize, children: usize) -> (r: Vec<Entry>)
    requires
        i < items.len(),
        rooted(numbered(items@), i as int),
        children == kids_of(*items@[i as int].node).len(),
    ensures
        entries_view(r@) == dir_entries(numbered(items@), i as int),
{
    let ghost all = numbered(items@);
    let ghost c = child_entries(all, i as int);
    proof {
        lemma_item_kids(all, i as int);
        assert(all[i as int] == items@[i as int].numbered());
    }
    let first: usize = items[i].first;
    let mut v: Vec<Entry> = Vec::new();
    let mut k: usize = 0;
    while k < children
        invariant
            k <= children,
            all == numbered(items@),
            i < items.len(),
            all[i as int] == items@[i as int].numbered(),
            first == items@[i as int].first,
            children == kids_of(all[i as int].node).len(),
            first + children <= items.len(),
            c == child_entries(all, i as int),
            forall|k: int|
                0 <= k < children ==> #[trigger] all[first + k].node == kid(all[i as int].node, k),
            entries_view(v@) =~= c.take(k as int),
        decreases children - k,
    {
        assert(all[first + k] == items@[first + k].numbered());
        let child: &Node = items[first + k].node;
        assert(all[first + k as int].node == kid(all[i as int].node, k as int));
        let ghost prev = v@;
        v.push(
            Entry { name: clone_bytes(&child.name), target: first + k, ftype: node_type(child) },
        );
        assert(entries_view(v@) =~= entries_view(prev).push(c[k as int]));
        k += 1;
    }
    assert(c.take(children as int) =~= c);
    let one: Vec<u8> = vec![0x2eu8];
    let two: Vec<u8> = vec![0x2eu8, 0x2eu8];
    assert(one@ =~= dot());
    assert(two@ =~= dotdot());
    let p: usize = find_place(&v, &one);
    let q: usize = find_place(&v, &two);
    v.insert(q, Entry { name: two, target: items[i].parent, ftype: 2 });
    proof {
        lemma_places(entry_names(c), c.len() as int);
    }
    v.insert(p, Entry { name: one, target: i, ftype: 2 });
    assert(entries_view(v@) =~= dir_entries(all, i as int));
    v
}

/// "." goes no later than "..".
pub proof fn lemma_places(names: Seq<Seq<u8>>, n: int)
    requires
        0 <= n <= names.len(),
    ensures
        0 <= place(names, n, dot()) <= place(names, n, dotdot()) <= n,
    decreases n,
{
    if n > 0 {
        lemma_places(names, n - 1);
        reveal_with_fuel(crate::fs::order::before_from, 3);
        assert(crate::fs::order::before(dot(), dotdot()));
        crate::fs::order::lemma_before(dot(), dotdot(), names[n - 1]);
    }
}

/// Every entry fits in a block.
pub open spec fn entries_fit(entries: Seq<DirEntry>, bs: int) -> bool {
    forall|k: int|
        0 <= k < entries.len() ==> DIRENT_SIZE + (#[trigger] entries[k]).name.len() <= bs
}

/// Bytes of a block that holds `count` entries from `from` on.
pub open spec fn block_len(entries: Seq<DirEntry>, from: int, count: int) -> int {
    DIRENT_SIZE * count + name_bytes(entries, from, count).len()
}

pub proof fn lemma_dirents_len(
    entries: Seq<DirEntry>,
    nids: Seq<int>,
    from: int,
    count: int,
    k: int,
)
    requires
        0 <= k,
    ensures
        dirents(entries, nids, from, count, k).len() == DIRENT_SIZE * k,
    decreases k,
{
    if k > 0 {
        lemma_dirents_len(entries, nids, from, count, k - 1);
    }
}

pub proof fn lemma_sum_same(a: Seq<int>, b: Seq<int>, n: int)
    requires
        n <= a.len(),
        n <= b.len(),
        forall|k: int| 0 <= k < n ==> a[k] == b[k],
    ensures
        sum(a, n) == sum(b, n),
    decreases n,
{
    if n > 0 {
        lemma_sum_same(a, b, n - 1);
    }
}

pub proof fn lemma_sum_mono(counts: Seq<int>, b: int, c: int)
    requires
        0 <= b <= c <= counts.len(),
        forall|k: int| 0 <= k < counts.len() ==> 0 <= #[trigger] counts[k],
    ensures
        0 <= sum(counts, b) <= sum(counts, c),
    decreases c,
{
    if b < c {
        lemma_sum_mono(counts, b, c - 1);
    } else if b > 0 {
        lemma_sum_mono(counts, b - 1, c - 1);
    }
}

/// What filling blocks keeps: the full blocks hold the entries before the
/// current one, and no block is fuller than it can be.
pub proof fn lemma_fill(entries: Seq<DirEntry>, n: int, bs: int)
    requires
        0 <= n <= entries.len(),
        entries_fit(entries, bs),
        0 < bs,
    ensures
        ({
            let f = fill(entries, n, bs);
            &&& sum(f.blocks, f.blocks.len() as int) == n - f.count
            &&& (n > 0 ==> 0 < f.count <= n)
            &&& (n == 0 ==> f.count == 0)
            &&& f.used == block_len(entries, n - f.count, f.count)
            &&& f.used <= bs
            &&& forall|b: int|
                0 <= b < f.blocks.len() ==> 0 < #[trigger] f.blocks[b] && block_len(
                    entries,
                    sum(f.blocks, b),
                    f.blocks[b],
                ) <= bs
        }),
    decreases n,
{
    if n > 0 {
        lemma_fill(entries, n - 1, bs);
        let p = fill(entries, n - 1, bs);
        let f = fill(entries, n, bs);
        let need = DIRENT_SIZE + entries[n - 1].name.len();
        if p.used + need > bs {
            lemma_sum_same(p.blocks, f.blocks, p.blocks.len() as int);
            reveal_with_fuel(name_bytes, 2);
            assert forall|b: int| 0 <= b < f.blocks.len() implies 0 < #[trigger] f.blocks[b]
                && block_len(entries, sum(f.blocks, b), f.blocks[b]) <= bs by {
                lemma_sum_same(p.blocks, f.blocks, b);
                if b < p.blocks.len() {
                    assert(0 < p.blocks[b]);
                }
            }
        } else {
            assert(n - 1 - p.count == n - f.count);
        }
    }
}

/// Splits sorted directory entries into blocks; returns the entries per
/// block and the directory size (the last block is not padded).
fn dir_layout(entries: &Vec<Entry>, bs: u64) -> (r: (Vec<usize>, u128))
    requires
        0 < bs <= u32::MAX,
    ensures
        r.0@.map_values(|c: usize| c as int) == dir_counts(entries_view(entries@), bs as int),
        r.1 == dir_size(entries_view(entries@), bs as int),
{
    let ghost all = entries_view(entries@);
    let mut blocks: Vec<usize> = Vec::new();
    let mut count: usize = 0;
    let mut used: u128 = 0;
    let mut k: usize = 0;
    while k < entries.len()
        invariant
            k <= entries.len(),
            count <= k,
            used <= u64::MAX + DIRENT_SIZE,
            0 < bs <= u32::MAX,
            all == entries_view(entries@),
            fill(all, k as int, bs as int).count == count,
            fill(all, k as int, bs as int).used == used,
            fill(all, k as int, bs as int).blocks =~= blocks@.map_values(|c: usize| c as int),
        decreases entries.len() - k,
    {
        let need: u128 = 12 + entries[k].name.len() as u128;
        assert(all[k as int].name == entries@[k as int].name@);
        if used + need > bs as u128 {
            blocks.push(count);
            count = 0;
            used = 0;
        }
        count += 1;
        used += need;
        k += 1;
    }
    let full: usize = blocks.len();
    blocks.push(count);
    assert(blocks@.map_values(|c: usize| c as int) =~= dir_counts(all, bs as int));
    assert(full * bs <= u64::MAX * u32::MAX) by (nonlinear_arith)
        requires
            full <= u64::MAX,
            bs <= u32::MAX,
    ;
    (blocks, full as u128 * bs as u128 + used)
}

proof fn lemma_bytes16_wraps(x: int)
    requires
        0 <= x,
    ensures
        bytes16(x % 0x1_0000) == bytes16(x),
{
    reveal(bytes16);
    assert(bytes16(x % 0x1_0000) =~= bytes16(x));
}

/// The bytes of a directory, from its entries and the nids of all items.
pub fn dir_data(entries: &Vec<Entry>, counts: &Vec<usize>, nids: &Vec<u64>, bs: usize) -> (r: Vec<u8>)
    requires
        bs > 0,
        counts@.map_values(|c: usize| c as int) == dir_counts(entries_view(entries@), bs as int),
        entries_fit(entries_view(entries@), bs as int),
        forall|k: int| 0 <= k < entries.len() ==> (#[trigger] entries@[k]).target < nids.len(),
    ensures
        r@ == dir_bytes(
            entries_view(entries@),
            nids@.map_values(|n: u64| n as int),
            counts@.map_values(|c: usize| c as int),
            counts@.len() as int,
            bs as int,
        ),
{
    let ghost all = entries_view(entries@);
    let ghost ids = nids@.map_values(|n: u64| n as int);
    let ghost cs = counts@.map_values(|c: usize| c as int);
    proof {
        lemma_counts(all, bs as int);
    }
    let mut out: Vec<u8> = Vec::new();
    let mut from: usize = 0;
    let mut b: usize = 0;
    while b < counts.len()
        invariant
            b <= counts.len(),
            all == entries_view(entries@),
            ids == nids@.map_values(|n: u64| n as int),
            cs == counts@.map_values(|c: usize| c as int),
            counts_ok(all, cs, bs as int),
            from == sum(cs, b as int),
            forall|k: int| 0 <= k < entries.len() ==> (#[trigger] entries@[k]).target < nids.len(),
            out@ =~= dir_bytes(all, ids, cs, b as int, bs as int),
        decreases counts.len() - b,
    {
        let count: usize = counts[b];
        assert(cs[b as int] == count);
        let ghost before = out@;
        proof {
            lemma_sum_mono(cs, b + 1, cs.len() as int);
            assert(block_len(all, from as int, count as int) <= bs);
        }
        let mut nameoff: usize = count * 12;
        let mut names: Vec<u8> = Vec::new();
        let mut k: usize = 0;
        while k < count
            invariant
                k <= count,
                from + count <= entries.len(),
                all == entries_view(entries@),
                ids == nids@.map_values(|n: u64| n as int),
                forall|k: int|
                    0 <= k < entries.len() ==> (#[trigger] entries@[k]).target < nids.len(),
                nameoff == DIRENT_SIZE * count + name_bytes(all, from as int, k as int).len(),
                block_len(all, from as int, count as int) <= bs,
                names@ == name_bytes(all, from as int, k as int),
                out@ =~= before + dirents(all, ids, from as int, count as int, k as int),
            decreases count - k,
        {
            let e: &Entry = &entries[from + k];
            assert(all[from + k] == e@);
            assert(ids[e.target as int] == nids@[e.target as int]);
            push64(&mut out, nids[e.target]);
            proof {
                lemma_bytes16_wraps(nameoff as int);
                lemma_name_bytes_mono(all, from as int, k + 1, count as int);
            }
            push16(&mut out, (nameoff % 0x1_0000) as u16);
            out.push(e.ftype);
            out.push(0);
            nameoff = nameoff + e.name.len();
            push_bytes(&mut names, &e.name);
            k += 1;
        }
        push_bytes(&mut out, &names);
        proof {
            lemma_dirents_len(all, ids, from as int, count as int, count as int);
        }
        if b + 1 < counts.len() {
            push_zeros(&mut out, bs - (count * 12 + names.len()));
        }
        from = from + count;
        b += 1;
        assert(out@ =~= dir_bytes(all, ids, cs, b as int, bs as int));
    }
    out
}

proof fn lemma_name_bytes_mono(entries: Seq<DirEntry>, from: int, j: int, k: int)
    requires
        0 <= j <= k,
    ensures
        name_bytes(entries, from, j).len() <= name_bytes(entries, from, k).len(),
    decreases k,
{
    if j < k {
        lemma_name_bytes_mono(entries, from, j, k - 1);
    }
}

/// `counts` distributes all entries over blocks, none of them overfull.
pub open spec fn counts_ok(entries: Seq<DirEntry>, counts: Seq<int>, bs: int) -> bool {
    &&& counts.len() > 0
    &&& sum(counts, counts.len() as int) == entries.len()
    &&& forall|b: int|
        0 <= b < counts.len() ==> 0 <= #[trigger] counts[b] && block_len(
            entries,
            sum(counts, b),
            counts[b],
        ) <= bs
}

pub proof fn lemma_counts(entries: Seq<DirEntry>, bs: int)
    requires
        entries_fit(entries, bs),
        0 < bs,
    ensures
        counts_ok(entries, dir_counts(entries, bs), bs),
{
    let n = entries.len() as int;
    lemma_fill(entries, n, bs);
    let f = fill(entries, n, bs);
    let counts = dir_counts(entries, bs);
    lemma_sum_same(f.blocks, counts, f.blocks.len() as int);
    assert forall|b: int| 0 <= b < counts.len() implies 0 <= #[trigger] counts[b] && block_len(
        entries,
        sum(counts, b),
        counts[b],
    ) <= bs by {
        lemma_sum_same(f.blocks, counts, b);
        if b < f.blocks.len() {
            assert(0 < f.blocks[b]);
        }
    }
}

/// What the first pass decides about an item.
pub struct Form {
    pub size: u128,
    /// Directories: entries per block.
    pub counts: Vec<usize>,
    pub nlink: u32,
    pub extended: bool,
    pub xattr_len: u64,
    pub inline_tail: bool,
}

impl Form {
    pub open spec fn describes(self, items: Seq<Numbered>, i: int, bs: int) -> bool {
        &&& self.size == size_of(items, i, bs)
        &&& items[i].node.kind is Dir ==> self.counts@.map_values(|c: usize| c as int)
            == dir_counts(dir_entries(items, i), bs)
        &&& self.nlink == nlink(items[i].node)
        &&& self.extended == extended(items, i, bs)
        &&& self.xattr_len == xattr_len(items[i].node)
        &&& self.inline_tail == inline_tail(items, i, bs)
    }

    pub fn inode_len(&self) -> (r: u64)
        ensures
            r == if self.extended {
                64int
            } else {
                32int
            },
    {
        if self.extended {
            64
        } else {
            32
        }
    }

    pub fn tail_len(&self, bs: u64) -> (r: u64)
        requires
            bs > 0,
        ensures
            r == if self.inline_tail {
                self.size % bs as u128
            } else {
                0u128
            },
    {
        if self.inline_tail {
            (self.size % bs as u128) as u64
        } else {
            0
        }
    }

    /// Blocks in the data area.
    fn data_blocks(&self, bs: u64) -> (r: u128)
        requires
            bs > 0,
            self.size + bs <= u128::MAX,
        ensures
            r == if self.inline_tail {
                self.size as int / bs as int
            } else {
                ceil_div(self.size as int, bs as int)
            },
    {
        if self.inline_tail {
            self.size / bs as u128
        } else {
            (self.size + bs as u128 - 1) / bs as u128
        }
    }
}

pub open spec fn forms_ok(forms: Seq<Form>, items: Seq<Numbered>, bs: int) -> bool {
    &&& forms.len() == items.len()
    &&& forall|i: int| 0 <= i < forms.len() ==> (#[trigger] forms[i]).describes(items, i, bs)
}

fn count_subdirs<'a>(items: &Vec<Item<'a>>, i: usize, children: usize) -> (r: u32)
    requires
        i < items.len(),
        rooted(numbered(items@), i as int),
        children == kids_of(*items@[i as int].node).len(),
    ensures
        r == (2 + subdirs(*items@[i as int].node, children as int)) % 0x1_0000_0000,
{
    let ghost all = numbered(items@);
    let ghost node = *items@[i as int].node;
    proof {
        lemma_item_kids(all, i as int);
        assert(all[i as int] == items@[i as int].numbered());
    }
    let first: usize = items[i].first;
    let mut n: u32 = 2;
    let mut k: usize = 0;
    while k < children
        invariant
            k <= children,
            all == numbered(items@),
            i < items.len(),
            node == *items@[i as int].node,
            children == kids_of(node).len(),
            first + children <= items.len(),
            forall|k: int| 0 <= k < children ==> #[trigger] all[first + k].node == kid(node, k),
            n == (2 + subdirs(node, k as int)) % 0x1_0000_0000,
        decreases children - k,
    {
        assert(all[first + k] == items@[first + k].numbered());
        assert(all[first + k as int].node == kid(node, k as int));
        if let NodeKind::Dir(_) = &items[first + k].node.kind {
            n = n.wrapping_add(1);
        }
        k += 1;
    }
    n
}

/// Decides size, link count and inode form of item `i`.
fn measure_item<'a>(items: &Vec<Item<'a>>, i: usize, bs: u64) -> (r: Result<Form, Error>)
    requires
        i < items.len(),
        rooted(numbered(items@), i as int),
        0 < bs <= u32::MAX,
    ensures
        match r {
            Ok(f) => !bad_link(*items@[i as int].node, bs as int) && f.describes(
                numbered(items@),
                i as int,
                bs as int,
            ),
            Err(e) => e == Error::BadSymlinkTarget && bad_link(*items@[i as int].node, bs as int),
        },
{
    let ghost all = numbered(items@);
    proof {
        reveal(size_of);
        assert(all[i as int] == items@[i as int].numbered());
        lemma_kids(*items@[i as int].node);
    }
    let node: &Node = items[i].node;
    let mut nlink: u32 = 1;
    let mut counts: Vec<usize> = Vec::new();
    let size: u128 = match &node.kind {
        NodeKind::File { data } => data.len() as u128,
        NodeKind::Symlink(target) => {
            if target.len() == 0 || target.len() as u64 > bs {
                return Err(Error::BadSymlinkTarget);
            }
            target.len() as u128
        },
        NodeKind::Dir(ch) => {
            nlink = count_subdirs(items, i, ch.len());
            let entries: Vec<Entry> = list_entries(items, i, ch.len());
            let (c, size): (Vec<usize>, u128) = dir_layout(&entries, bs);
            counts = c;
            size
        },
    };
    let attrs: u64 = (if node.selinux.is_some() {
        1u64
    } else {
        0
    }) + (if node.capabilities.is_some() {
        1u64
    } else {
        0
    });
    let xattr_len: u64 = if attrs == 0 {
        0
    } else {
        12 + 4 * attrs
    };
    let extended: bool = node.uid > 0xFFFF || node.gid > 0xFFFF || size > u32::MAX as u128 || nlink
        > 0xFFFF;
    let head: u64 = if extended {
        64
    } else {
        32
    };
    let tail: u64 = (size % bs as u128) as u64;
    let inline_tail: bool = tail > 0 && head + xattr_len + tail <= bs;
    assert(attrs_of(*node).len() == attrs);
    Ok(Form { size, counts, nlink, extended, xattr_len, inline_tail })
}

pub open spec fn all_rooted(items: Seq<Numbered>) -> bool {
    forall|i: int| 0 <= i < items.len() ==> #[trigger] rooted(items, i)
}

/// Decides sizes and inode forms of all items.
fn measure<'a>(items: &Vec<Item<'a>>, bs: u64) -> (r: Result<Vec<Form>, Error>)
    requires
        all_rooted(numbered(items@)),
        0 < bs <= u32::MAX,
    ensures
        match r {
            Ok(forms) => {
                &&& forms_ok(forms@, numbered(items@), bs as int)
                &&& forall|i: int|
                    0 <= i < items@.len() ==> !bad_link(
                        #[trigger] numbered(items@)[i].node,
                        bs as int,
                    )
            },
            Err(e) => {
                &&& e == Error::BadSymlinkTarget
                &&& exists|i: int|
                    0 <= i < items@.len() && bad_link(
                        #[trigger] numbered(items@)[i].node,
                        bs as int,
                    )
            },
        },
{
    let ghost all = numbered(items@);
    let mut forms: Vec<Form> = Vec::new();
    let mut i: usize = 0;
    while i < items.len()
        invariant
            i <= items.len(),
            all == numbered(items@),
            all_rooted(all),
            0 < bs <= u32::MAX,
            forms.len() == i,
            forall|k: int| 0 <= k < i ==> (#[trigger] forms@[k]).describes(all, k, bs as int),
            forall|k: int| 0 <= k < i ==> !bad_link(#[trigger] all[k].node, bs as int),
        decreases items.len() - i,
    {
        assert(rooted(all, i as int));
        assert(all[i as int].node == items@[i as int].node);
        match measure_item(items, i, bs) {
            Ok(f) => {
                forms.push(f);
            },
            Err(e) => {
                return Err(e);
            },
        }
        i += 1;
    }
    Ok(forms)
}

/// The on-disk bytes of one xattr.
pub fn xattr_entry(a: &Xattr) -> (r: Vec<u8>)
    requires
        a.name.len() <= 255,
    ensures
        r@ == xattr_bytes(a@),
{
    let mut e: Vec<u8> = Vec::new();
    e.push(a.name.len() as u8);
    e.push(XATTR_INDEX_SECURITY);
    proof {
        lemma_bytes16_wraps(a.value.len() as int);
    }
    push16(&mut e, (a.value.len() % 0x1_0000) as u16);
    push_bytes(&mut e, &a.name);
    push_bytes(&mut e, &a.value);
    let ghost body = seq![a@.name.len() as u8, XATTR_INDEX_SECURITY] + bytes16(
        a@.value.len() as int,
    ) + a@.name + a@.value;
    assert(e@ =~= body);
    let pad: usize = (4 - e.len() % 4) % 4;
    proof {
        lemma_round_up(body.len() as int, 4);
        assert(round_up(body.len() as int, 4) - body.len() == pad);
    }
    push_zeros(&mut e, pad);
    e
}

pub open spec fn pool_view(pool: Seq<Vec<u8>>) -> Seq<Seq<u8>> {
    pool.map_values(|e: Vec<u8>| e@)
}

/// The place of `e` in the pool, or the length of the pool.
pub fn find_entry(pool: &Vec<Vec<u8>>, e: &Vec<u8>) -> (r: usize)
    ensures
        r == pool_index(pool_view(pool@), e@, 0),
        r <= pool.len(),
        r < pool.len() <==> pool_view(pool@).contains(e@),
{
    let ghost all = pool_view(pool@);
    let mut k: usize = 0;
    while k < pool.len()
        invariant
            k <= pool.len(),
            all == pool_view(pool@),
            pool_index(all, e@, 0) == pool_index(all, e@, k as int),
            forall|j: int| 0 <= j < k ==> #[trigger] all[j] != e@,
        decreases pool.len() - k,
    {
        assert(all[k as int] == pool@[k as int]@);
        if same_bytes(&pool[k], e) {
            assert(all.contains(e@));
            return k;
        }
        k += 1;
    }
    assert(!all.contains(e@));
    k
}

/// The different xattr entries of all items, in the order of their first use.
fn collect_pool<'a>(items: &Vec<Item<'a>>) -> (r: Vec<Vec<u8>>)
    ensures
        pool_view(r@) == pool_of(numbered(items@), items@.len() as int),
{
    let ghost all = numbered(items@);
    let mut pool: Vec<Vec<u8>> = Vec::new();
    let mut i: usize = 0;
    while i < items.len()
        invariant
            i <= items.len(),
            all == numbered(items@),
            pool_view(pool@) =~= pool_of(all, i as int),
        decreases items.len() - i,
    {
        let attrs: Vec<Xattr> = security_xattrs(items[i].node);
        let ghost av = attrs_view(attrs@);
        let ghost base = pool_view(pool@);
        assert(all[i as int].node == items@[i as int].node);
        let mut k: usize = 0;
        while k < attrs.len()
            invariant
                k <= attrs.len(),
                av == attrs_view(attrs@),
                forall|j: int| 0 <= j < av.len() ==> (#[trigger] av[j]).name.len() <= 255,
                pool_view(pool@) =~= pool_with_all(base, av, k as int),
            decreases attrs.len() - k,
        {
            assert(av[k as int] == attrs@[k as int]@);
            let e: Vec<u8> = xattr_entry(&attrs[k]);
            if find_entry(&pool, &e) == pool.len() {
                let ghost prev = pool@;
                pool.push(e);
                assert(pool_view(pool@) =~= pool_view(prev).push(e@));
            }
            k += 1;
        }
        i += 1;
    }
    pool
}

/// Lays out the shared xattr area: its bytes, and the offset of each entry
/// in the image. Nothing where the area reaches past the last place that a
/// root inode can have.
fn place_pool(pool: &Vec<Vec<u8>>, bs: u64) -> (r: Option<(Vec<u8>, Vec<u64>)>)
    requires
        0 < bs <= u32::MAX,
    ensures
        match r {
            Some((area, offsets)) => {
                &&& area@ == pool_area(pool_view(pool@), pool@.len() as int, bs as int)
                &&& SB_END + area@.len() < 0x20_0000
                &&& offsets.len() == pool.len()
                &&& forall|k: int|
                    0 <= k < offsets.len() ==> #[trigger] offsets@[k] == pool_offset(
                        pool_view(pool@),
                        k,
                        bs as int,
                    ) && offsets@[k] < 0x20_0000
            },
            None => SB_END + pool_area(pool_view(pool@), pool@.len() as int, bs as int).len()
                >= 0x20_0000,
        },
{
    let ghost all = pool_view(pool@);
    let mut area: Vec<u8> = Vec::new();
    let mut offsets: Vec<u64> = Vec::new();
    let mut k: usize = 0;
    while k < pool.len()
        invariant
            k <= pool.len(),
            0 < bs <= u32::MAX,
            all == pool_view(pool@),
            area@ == pool_area(all, k as int, bs as int),
            SB_END + area@.len() < 0x20_0000,
            offsets.len() == k,
            forall|j: int|
                0 <= j < k ==> #[trigger] offsets@[j] == pool_offset(all, j, bs as int)
                    && offsets@[j] < 0x20_0000,
        decreases pool.len() - k,
    {
        let pos: u64 = SB_END + area.len() as u64;
        let len: usize = pool[k].len();
        assert(all[k as int] == pool@[k as int]@);
        let pad: u64 = if (pos % bs) as u128 + len as u128 > bs as u128 {
            bs - pos % bs
        } else {
            0
        };
        proof {
            lemma_pool_area_mono(all, k + 1, all.len() as int, bs as int);
        }
        if pos + pad >= 0x20_0000 || len >= 0x20_0000 || pos + pad + len as u64 >= 0x20_0000 {
            return None;
        }
        offsets.push(pos + pad);
        push_zeros(&mut area, pad as usize);
        push_bytes(&mut area, &pool[k]);
        k += 1;
    }
    Some((area, offsets))
}

pub proof fn lemma_pool_area_mono(pool: Seq<Seq<u8>>, j: int, k: int, bs: int)
    requires
        0 <= j <= k,
        0 < bs,
    ensures
        pool_area(pool, j, bs).len() <= pool_area(pool, k, bs).len(),
    decreases k,
{
    if j < k {
        lemma_pool_area_mono(pool, j, k - 1, bs);
    }
}

pub proof fn lemma_record(items: Seq<Numbered>, i: int, bs: int)
    requires
        0 <= i,
        0 < bs,
    ensures
        0 <= record_end(items, i, bs) <= record_start(items, i, bs),
        record_start(items, i, bs) < record_end(items, i, bs) + bs,
        record_start(items, i, bs) + record_len(items, i, bs) <= record_end(items, i + 1, bs),
        record_end(items, i + 1, bs) < record_start(items, i, bs) + record_len(items, i, bs) + 32,
        record_end(items, i, bs) % 32 == 0,
        32 <= record_len(items, i, bs),
        SB_END + area_of(items, bs).len() <= record_end(items, i, bs),
    decreases i,
{
    reveal(record_end);
    reveal(start_at);
    let pos = record_end(items, i, bs);
    lemma_round_up(pos, bs);
    lemma_round_up(record_start(items, i, bs) + record_len(items, i, bs), 32);
    lemma_round_up(SB_END + area_of(items, bs).len(), 32);
    lemma_mod_pos(size_of(items, i, bs), bs);
    if i > 0 {
        lemma_record(items, i - 1, bs);
    }
}

pub proof fn lemma_mod_pos(a: int, b: int)
    requires
        0 < b,
    ensures
        0 <= a % b < b,
{
}

pub proof fn lemma_record_mono(items: Seq<Numbered>, i: int, j: int, bs: int)
    requires
        0 <= i <= j,
        0 < bs,
    ensures
        record_end(items, i, bs) <= record_end(items, j, bs),
    decreases j,
{
    if i < j {
        lemma_record_mono(items, i, j - 1, bs);
        lemma_record(items, j - 1, bs);
    }
}

pub proof fn lemma_size_nonneg(items: Seq<Numbered>, i: int, bs: int)
    requires
        0 < bs,
    ensures
        0 <= size_of(items, i, bs),
        0 <= data_blocks(items, i, bs),
{
    reveal(size_of);
    let e = dir_entries(items, i);
    lemma_used_nonneg(e, e.len() as int, bs);
    let f = fill(e, e.len() as int, bs);
    assert(0 <= f.blocks.len() * bs) by (nonlinear_arith)
        requires
            0 < bs,
    ;
    let size = size_of(items, i, bs);
    lemma_round_up(size, bs);
    assert(0 <= size / bs) by (nonlinear_arith)
        requires
            0 <= size,
            0 < bs,
    ;
}

proof fn lemma_used_nonneg(entries: Seq<DirEntry>, n: int, bs: int)
    ensures
        0 <= fill(entries, n, bs).used,
    decreases n,
{
    if n > 0 {
        lemma_used_nonneg(entries, n - 1, bs);
    }
}

pub proof fn lemma_next_block_mono(items: Seq<Numbered>, i: int, j: int, bs: int)
    requires
        0 <= i <= j,
        0 < bs,
    ensures
        next_block(items, i, bs) <= next_block(items, j, bs),
    decreases j,
{
    reveal(next_block);
    if i < j {
        lemma_next_block_mono(items, i, j - 1, bs);
        lemma_size_nonneg(items, j - 1, bs);
    }
}

/// Metadata that ends past the last addressable block makes the image too
/// big.
proof fn lemma_too_big(items: Seq<Numbered>, i: int, bs: int)
    requires
        0 <= i <= items.len(),
        0 < bs,
        record_end(items, i, bs) > u32::MAX * bs,
    ensures
        total_blocks(items, bs) > u32::MAX,
{
    reveal(next_block);
    lemma_record_mono(items, i, items.len() as int, bs);
    lemma_next_block_mono(items, 0, items.len() as int, bs);
    let end = meta_end(items, bs);
    lemma_round_up(end, bs);
    let q = ceil_div(end, bs);
    assert(q > u32::MAX) by (nonlinear_arith)
        requires
            q * bs >= end,
            end > u32::MAX * bs,
            0 < bs,
    ;
}

/// Where everything goes.
pub struct Places {
    pub nids: Vec<u64>,
    pub blocks: Vec<u64>,
    pub meta_end: u64,
    pub total: u64,
}

impl Places {
    pub open spec fn describes(self, items: Seq<Numbered>, bs: int) -> bool {
        &&& self.nids.len() == items.len()
        &&& forall|i: int| 0 <= i < items.len() ==> #[trigger] self.nids@[i] == nid_of(items, i, bs)
        &&& self.blocks.len() == items.len()
        &&& forall|i: int|
            0 <= i < items.len() ==> #[trigger] self.blocks@[i] == block_of(items, i, bs)
        &&& self.meta_end == meta_end(items, bs)
        &&& self.total == total_blocks(items, bs)
        &&& self.total <= u32::MAX
    }
}

/// Start and end of the record of an item, when the one before it ends at
/// `pos`.
fn place_record(
    form: &Form,
    pos: u64,
    bs: u64,
    Ghost(items): Ghost<Seq<Numbered>>,
    Ghost(i): Ghost<int>,
) -> (r: (u64, u64))
    requires
        0 <= i,
        0 < bs <= u32::MAX,
        form.describes(items, i, bs as int),
        pos == record_end(items, i, bs as int),
        pos <= u32::MAX * bs,
    ensures
        r.0 == record_start(items, i, bs as int),
        r.1 == record_end(items, i + 1, bs as int),
{
    proof {
        reveal(record_end);
        reveal(start_at);
        lemma_mod_pos(form.size as int, bs as int);
        lemma_round_up(pos as int, bs as int);
        let q = ceil_div(pos as int, bs as int);
        assert(q <= u32::MAX) by (nonlinear_arith)
            requires
                q == (pos + bs - 1) / bs as int,
                pos <= u32::MAX * bs,
                0 < bs,
        ;
        assert(q * bs <= u32::MAX * u32::MAX && u32::MAX * bs <= u32::MAX * u32::MAX)
            by (nonlinear_arith)
            requires
                q <= u32::MAX,
                0 < bs <= u32::MAX,
        ;
    }
    let record: u64 = form.inode_len() + form.xattr_len + form.tail_len(bs);
    assert(record == record_len(items, i, bs as int));
    assert(record <= u32::MAX);
    let start: u64 = if pos % bs + record > bs {
        align_up(pos, bs)
    } else {
        pos
    };
    (start, align_up(start + record, 32))
}

/// Decides nids and data blocks. The inodes stand after `area_len` bytes of
/// shared xattrs, none crossing a block.
fn place_items(forms: &Vec<Form>, area_len: u64, bs: u64, Ghost(items): Ghost<Seq<Numbered>>) -> (r:
    Result<Places, Error>)
    requires
        0 < bs <= u32::MAX,
        forms_ok(forms@, items, bs as int),
        items.len() > 0,
        area_len == area_of(items, bs as int).len(),
        SB_END + area_len < 0x20_0000,
    ensures
        match r {
            Ok(p) => nid_of(items, 0, bs as int) <= 0xFFFF && p.describes(items, bs as int),
            Err(e) => e == (if nid_of(items, 0, bs as int) > 0xFFFF {
                Error::RootOutOfReach
            } else {
                Error::ImageTooBig
            }) && (nid_of(items, 0, bs as int) > 0xFFFF || total_blocks(items, bs as int)
                > u32::MAX),
        },
{
    assert(u32::MAX * bs <= u32::MAX * u32::MAX) by (nonlinear_arith)
        requires
            bs <= u32::MAX,
    ;
    proof {
        reveal(record_end);
        reveal(next_block);
    }
    let limit: u64 = u32::MAX as u64 * bs;
    let mut nids: Vec<u64> = Vec::new();
    let mut pos: u64 = align_up(SB_END + area_len, 32);
    let mut i: usize = 0;
    while i < forms.len()
        invariant
            i <= forms.len(),
            0 < bs <= u32::MAX,
            forms_ok(forms@, items, bs as int),
            limit == u32::MAX * bs,
            limit <= u32::MAX * u32::MAX,
            pos == record_end(items, i as int, bs as int),
            i == 0 ==> pos < 0x20_0020 && pos <= limit,
            i > 0 ==> nid_of(items, 0, bs as int) <= 0xFFFF,
            nids.len() == i,
            forall|k: int|
                0 <= k < i ==> #[trigger] nids@[k] == nid_of(items, k, bs as int),
        decreases forms.len() - i,
    {
        proof {
            lemma_record(items, i as int, bs as int);
        }
        if i > 0 && pos > limit {
            proof {
                lemma_too_big(items, i as int, bs as int);
            }
            return Err(Error::ImageTooBig);
        }
        let (start, end): (u64, u64) = place_record(
            &forms[i],
            pos,
            bs,
            Ghost(items),
            Ghost(i as int),
        );
        let nid: u64 = start / 32;
        if i == 0 && nid > 0xFFFF {
            return Err(Error::RootOutOfReach);
        }
        nids.push(nid);
        pos = end;
        i += 1;
    }
    if pos > limit {
        proof {
            lemma_too_big(items, items.len() as int, bs as int);
        }
        return Err(Error::ImageTooBig);
    }
    let meta_end: u64 = pos;
    let mut blocks: Vec<u64> = Vec::new();
    let mut block: u64 = div_up(pos, bs);
    proof {
        lemma_round_up(pos as int, bs as int);
        assert(block <= u32::MAX) by (nonlinear_arith)
            requires
                block == (pos + bs - 1) / bs as int,
                pos <= u32::MAX * bs,
                0 < bs,
        ;
    }
    let mut i: usize = 0;
    while i < forms.len()
        invariant
            i <= forms.len(),
            0 < bs <= u32::MAX,
            forms_ok(forms@, items, bs as int),
            meta_end == record_end(items, items.len() as int, bs as int),
            nid_of(items, 0, bs as int) <= 0xFFFF,
            block == next_block(items, i as int, bs as int),
            block <= u32::MAX,
            blocks.len() == i,
            forall|k: int|
                0 <= k < i ==> #[trigger] blocks@[k] == block_of(items, k, bs as int),
        decreases forms.len() - i,
    {
        let form: &Form = &forms[i];
        proof {
            reveal(next_block);
        }
        assert(form.describes(items, i as int, bs as int));
        if form.size >= 0x1_0000_0000_0000_0000 {
            proof {
                lemma_next_block_mono(items, i + 1, items.len() as int, bs as int);
                lemma_round_up(form.size as int, bs as int);
                lemma_huge(form.size as int, bs as int);
            }
            return Err(Error::ImageTooBig);
        }
        let n: u128 = form.data_blocks(bs);
        if block as u128 + n > u32::MAX as u128 {
            proof {
                lemma_next_block_mono(items, i + 1, items.len() as int, bs as int);
            }
            return Err(Error::ImageTooBig);
        }
        blocks.push(
            if n > 0 {
                block
            } else {
                0
            },
        );
        block = block + n as u64;
        i += 1;
    }
    Ok(Places { nids, blocks, meta_end, total: block })
}

proof fn lemma_huge(size: int, bs: int)
    requires
        size >= 0x1_0000_0000_0000_0000,
        0 < bs <= u32::MAX,
    ensures
        size / bs > u32::MAX,
        ceil_div(size, bs) > u32::MAX,
{
    assert(size / bs > u32::MAX) by (nonlinear_arith)
        requires
            size >= 0x1_0000_0000_0000_0000,
            0 < bs <= u32::MAX,
    ;
    assert((size + bs - 1) / bs >= size / bs) by (nonlinear_arith)
        requires
            0 < bs,
    ;
}

/// What keeps the tree at `root` from becoming an image.
pub open spec fn tree_fault(root: Node, bs: int) -> Option<Error> {
    if root.kind !is Dir {
        Some(Error::RootNotDirectory)
    } else {
        match fault(root, true) {
            Some(e) => Some(e),
            None => layout_fault(items_of(root), bs),
        }
    }
}

/// What the layout pass decided about the whole image.
pub struct Layout {
    pub forms: Vec<Form>,
    pub pool: Vec<Vec<u8>>,
    pub area: Vec<u8>,
    pub offsets: Vec<u64>,
    pub places: Places,
}

impl Layout {
    pub open spec fn describes(self, items: Seq<Numbered>, bs: int) -> bool {
        &&& forms_ok(self.forms@, items, bs)
        &&& pool_view(self.pool@) == pool_of(items, items.len() as int)
        &&& self.area@ == area_of(items, bs)
        &&& SB_END + self.area@.len() < 0x20_0000
        &&& self.offsets.len() == self.pool.len()
        &&& forall|k: int|
            0 <= k < self.offsets.len() ==> #[trigger] self.offsets@[k] == pool_offset(
                pool_view(self.pool@),
                k,
                bs,
            ) && self.offsets@[k] < 0x20_0000
        &&& self.places.describes(items, bs)
    }
}

/// Decides sizes, inode forms, xattr ids, nids and data blocks.
pub fn layout<'a>(items: &Vec<Item<'a>>, bs: u64) -> (r: Result<Layout, Error>)
    requires
        items.len() > 0,
        all_rooted(numbered(items@)),
        0 < bs <= u32::MAX,
    ensures
        match r {
            Ok(l) => layout_fault(numbered(items@), bs as int) is None && l.describes(
                numbered(items@),
                bs as int,
            ),
            Err(e) => layout_fault(numbered(items@), bs as int) == Some(e),
        },
{
    let ghost all = numbered(items@);
    proof {
        reveal(area_of);
    }
    let forms: Vec<Form> = match measure(items, bs) {
        Ok(f) => f,
        Err(e) => {
            return Err(e);
        },
    };
    let pool: Vec<Vec<u8>> = collect_pool(items);
    let (area, offsets): (Vec<u8>, Vec<u64>) = match place_pool(&pool, bs) {
        Some(p) => p,
        None => {
            proof {
                lemma_record(all, 0, bs as int);
            }
            return Err(Error::RootOutOfReach);
        },
    };
    match place_items(&forms, area.len() as u64, bs, Ghost(all)) {
        Ok(places) => Ok(Layout { forms, pool, area, offsets, places }),
        Err(e) => Err(e),
    }
}

/// The length of a directory is what the layout says.
pub proof fn lemma_dir_len(entries: Seq<DirEntry>, nids: Seq<int>, bs: int)
    requires
        entries_fit(entries, bs),
        0 < bs,
    ensures
        dir_bytes(
            entries,
            nids,
            dir_counts(entries, bs),
            dir_counts(entries, bs).len() as int,
            bs,
        ).len() == dir_size(entries, bs),
{
    let n = entries.len() as int;
    let f = fill(entries, n, bs);
    let counts = dir_counts(entries, bs);
    let full = f.blocks.len() as int;
    lemma_fill(entries, n, bs);
    lemma_counts(entries, bs);
    lemma_full_blocks(entries, nids, counts, full, bs);
    lemma_sum_same(f.blocks, counts, full);
    lemma_dirents_len(entries, nids, sum(counts, full), counts[full], counts[full]);
}

/// Each block but the last takes `bs` bytes.
pub proof fn lemma_full_blocks(
    entries: Seq<DirEntry>,
    nids: Seq<int>,
    counts: Seq<int>,
    b: int,
    bs: int,
)
    requires
        counts_ok(entries, counts, bs),
        0 <= b < counts.len(),
    ensures
        dir_bytes(entries, nids, counts, b, bs).len() == b * bs,
    decreases b,
{
    if b > 0 {
        lemma_full_blocks(entries, nids, counts, b - 1, bs);
        assert(0 <= counts[b - 1]);
        lemma_dirents_len(entries, nids, sum(counts, b - 1), counts[b - 1], counts[b - 1]);
        assert((b - 1) * bs + bs == b * bs) by (nonlinear_arith);
    } else {
        assert(0 * bs == 0) by (nonlinear_arith);
    }
}

/// In a tree without bad names every directory entry fits in a block of at
/// least 267 bytes, and points at an item.
pub proof fn lemma_entries(root: Node, i: int, bs: int)
    requires
        fault(root, true) is None,
        0 <= i < items_of(root).len(),
        bs >= DIRENT_SIZE + 255,
    ensures
        entries_fit(dir_entries(items_of(root), i), bs),
        forall|k: int|
            0 <= k < dir_entries(items_of(root), i).len() ==> 0 <= (#[trigger] dir_entries(
                items_of(root),
                i,
            )[k]).target < items_of(root).len(),
{
    let items = items_of(root);
    let c = child_entries(items, i);
    lemma_items(root);
    lemma_items_clean(root, true);
    assert(rooted(items, i));
    lemma_item_kids(items, i);
    lemma_kids(items[i].node);
    lemma_places(entry_names(c), c.len() as int);
    assert(fault(items[i].node, true) is None);
    let node = items[i].node;
    assert forall|k: int| 0 <= k < c.len() implies (#[trigger] c[k]).name.len() <= 255 && 0
        <= c[k].target < items.len() by {
        assert(items[items[i].first + k].node == kid(node, k));
        assert(!bad_name(items[items[i].first + k].node.name@, true));
    }
}

proof fn lemma_pool_with_all(pool: Seq<Seq<u8>>, attrs: Seq<Attr>, n: int)
    requires
        0 <= n <= attrs.len(),
    ensures
        forall|e: Seq<u8>| pool.contains(e) ==> #[trigger] pool_with_all(pool, attrs, n).contains(e),
        forall|k: int|
            0 <= k < n ==> pool_with_all(pool, attrs, n).contains(
                #[trigger] xattr_bytes(attrs[k]),
            ),
    decreases n,
{
    if n > 0 {
        lemma_pool_with_all(pool, attrs, n - 1);
        let p = pool_with_all(pool, attrs, n - 1);
        let e = xattr_bytes(attrs[n - 1]);
        let q = pool_with_all(pool, attrs, n);
        assert forall|x: Seq<u8>| p.contains(x) implies #[trigger] q.contains(x) by {
            let k = choose|k: int| 0 <= k < p.len() && p[k] == x;
            assert(q[k] == x);
        }
        if !p.contains(e) {
            assert(q[p.len() as int] == e);
        }
    }
}

/// The pool holds every xattr of every item.
pub proof fn lemma_pool(items: Seq<Numbered>, n: int, i: int)
    requires
        0 <= i < n <= items.len(),
    ensures
        forall|k: int|
            0 <= k < attrs_of(items[i].node).len() ==> pool_of(items, n).contains(
                #[trigger] xattr_bytes(attrs_of(items[i].node)[k]),
            ),
    decreases n,
{
    let attrs = attrs_of(items[n - 1].node);
    lemma_pool_with_all(pool_of(items, n - 1), attrs, attrs.len() as int);
    if i < n - 1 {
        lemma_pool(items, n - 1, i);
    }
}

} // verus!
