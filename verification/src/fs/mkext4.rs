//! Minimal ext4 image writer for Android read-only partitions.
//!
//! Layout: no journal, no flex_bg, no resize inode, sparse superblock
//! backups, 256-byte inodes, extents, linear directories. Features:
//! `ext_attr filetype extent sparse_super large_file dir_nlink extra_isize`.
//! Every file gets contiguous blocks where possible; xattrs
//! (`security.selinux`, `security.capability`) go in the inode when they
//! fit, otherwise in one xattr block.
use vstd::prelude::*;
use crate::bytes::same_bytes;
use crate::error::Error;
use crate::fs::mkext4::extents::data_ok;
use crate::fs::mkext4::image::{assemble, count_dirs, counted, groups_upto, last_ino, lemma_rooms,
    sum_rooms, taken, Content, Written};
use crate::fs::mkext4::inode::{image_upto, lost_found, lost_found_name, sound, write_inodes};
use crate::fs::mkext4::layout::{addressable, capacity, layout_for, lemma_bounds, supported,
    well_formed, Groups, Layout};
use crate::fs::tree::{fault, items_of, kids_of, lemma_items, lemma_items_clean, lemma_item_kids,
    lemma_kids, number, numbered, rooted, Item, Numbered};

pub mod dirs;
pub mod extents;
pub mod image;
pub mod inode;
pub mod layout;
pub mod pieces;
pub mod read_back;
pub mod read_extents;
pub mod read_groups;
pub mod read_inodes;
pub mod read_lists;
pub mod read_trees;
pub mod size;
pub mod usage;
pub mod xattrs;

pub use size::{blocks_for, data_blocks_needed};

verus! {

#[derive(Debug)]
pub enum NodeKind {
    Dir(Vec<Node>),
    /// The content of the file.
    File { data: Vec<u8> },
    /// The target of the link.
    Symlink(Vec<u8>),
}

/// One file, directory or symlink of the image tree.
#[derive(Debug)]
pub struct Node {
    /// Empty for the root.
    pub name: Vec<u8>,
    pub kind: NodeKind,
    /// Permission bits (`0o7777`).
    pub mode: u32,
    pub uid: u32,
    pub gid: u32,
    pub selinux: Option<String>,
    pub capabilities: Option<u64>,
}

#[derive(Debug, Clone)]
pub struct Params {
    pub block_size: u64,
    /// Filesystem size in blocks.
    pub blocks: u64,
    /// Minimum number of inodes (rounded up to fill the inode tables).
    pub inodes: u32,
    pub reserved_blocks: u64,
    pub uuid: [u8; 16],
    pub hash_seed: [u8; 16],
    pub volume_name: String,
    pub last_mounted: String,
    /// Used for every inode time and the superblock times.
    pub timestamp: u32,
}

/// Block and inode usage of a written image.
#[derive(Debug, Clone, Copy, PartialEq, Eq, Structural)]
pub struct Stats {
    pub blocks: u64,
    pub used_blocks: u64,
    pub inodes: u32,
    pub used_inodes: u32,
}

impl Default for Stats {
    fn default() -> (r: Self)
        ensures
            r == (Stats { blocks: 0, used_blocks: 0, inodes: 0, used_inodes: 0 }),
    {
        Stats { blocks: 0, used_blocks: 0, inodes: 0, used_inodes: 0 }
    }
}

/// The root has a directory named `lost+found`.
pub open spec fn has_lost_found(root: Node) -> bool {
    exists|i: int|
        0 <= i < root.kind->Dir_0@.len() && (#[trigger] root.kind->Dir_0@[i]).name@
            == lost_found_name() && root.kind->Dir_0@[i].kind is Dir
}

/// The most items whose inodes have a 32-bit number.
pub const MAX_ITEMS: usize = 0xFFFF_FFEF;

/// What is wrong with the tree, before anything is laid out.
pub open spec fn tree_fault(root: Node) -> Option<Error> {
    if root.kind !is Dir {
        Some(Error::RootNotDirectory)
    } else if !has_lost_found(root) {
        Some(Error::NoLostFound)
    } else {
        match fault(root, false) {
            Some(e) => Some(e),
            None => if items_of(root).len() > MAX_ITEMS {
                Some(Error::TooManyInodes)
            } else {
                None
            },
        }
    }
}

/// Inodes that the image of a tree must have.
pub open spec fn min_inodes(root: Node, p: Params) -> int {
    let n = items_of(root).len() + 10;
    if n > p.inodes {
        n as int
    } else {
        p.inodes as int
    }
}

/// The image of a tree, and how it is laid out.
pub struct Laid {
    pub groups: Groups,
    pub content: Content,
}

/// Lays out the image of a tree.
pub open spec fn laid_out(root: Node, p: Params) -> Result<Laid, Error> {
    if !supported(p.block_size as int) {
        Err(Error::UnsupportedBlockSize)
    } else {
        match tree_fault(root) {
            Some(e) => Err(e),
            None => match layout_for(
                p.block_size as int,
                p.blocks as int,
                min_inodes(root, p),
            ) {
                Err(e) => Err(e),
                Ok(l) => {
                    let items = items_of(root);
                    let lf = lost_found(items, 1);
                    match image_upto(l, items, lf, items.len() as int, p.timestamp as int) {
                        Err(e) => Err(e),
                        Ok(image) => Ok(
                            Laid { groups: l, content: Content { items, lf, image } },
                        ),
                    }
                },
            },
        }
    }
}

/// The bytes of an image.
pub open spec fn image_bytes(laid: Laid, p: Params) -> Seq<u8> {
    groups_upto(laid.groups, p, laid.content, laid.groups.groups)
}

/// Block and inode usage of an image.
pub open spec fn stats_of(laid: Laid) -> Stats {
    let l = laid.groups;
    Stats {
        blocks: l.blocks as u64,
        used_blocks: (l.blocks - (capacity(l) - taken(l, laid.content))) as u64,
        inodes: ((l.ipg * l.groups) % 0x1_0000_0000) as u32,
        used_inodes: last_ino(laid.content) as u32,
    }
}

/// The root's lost+found is found first.
pub proof fn lemma_lost_found(root: Node)
    requires
        tree_fault(root) is None,
    ensures
        sound(items_of(root), lost_found(items_of(root), 1)),
        lost_found(items_of(root), 1) <= kids_of(root).len(),
        items_of(root)[lost_found(items_of(root), 1)].node.name@ == lost_found_name(),
{
    let items = items_of(root);
    lemma_items(root);
    lemma_items_clean(root, false);
    lemma_kids(root);
    assert(rooted(items, 0));
    lemma_item_kids(items, 0);
    let ch = root.kind->Dir_0@;
    let i = choose|i: int|
        0 <= i < ch.len() && (#[trigger] ch[i]).name@ == lost_found_name() && ch[i].kind is Dir;
    assert(kids_of(root).contains(i));
    let k = kids_of(root).index_of(i);
    assert(items[0].first == 1);
    assert(items[items[0].first + k] == crate::fs::tree::kid_items(root, 0, 1)[k]);
    assert(items[1 + k].node == ch[i]);
    lemma_first(items, 1, 1 + k);
}

proof fn lemma_first(items: Seq<Numbered>, i: int, j: int)
    requires
        0 <= i <= j < items.len(),
        items[j].node.name@ == lost_found_name(),
    ensures
        i <= lost_found(items, i) <= j,
        items[lost_found(items, i)].node.name@ == lost_found_name(),
    decreases j - i,
{
    if i < j && items[i].node.name@ != lost_found_name() {
        lemma_first(items, i + 1, j);
    }
}

fn is_lost_found(name: &Vec<u8>) -> (r: bool)
    ensures
        r == (name@ == lost_found_name()),
{
    let want: Vec<u8> = vec![0x6cu8, 0x6f, 0x73, 0x74, 0x2b, 0x66, 0x6f, 0x75, 0x6e, 0x64];
    assert(want@ =~= lost_found_name());
    same_bytes(name, &want)
}

/// Checks the tree and numbers it.
pub fn flatten<'a>(root: &'a Node) -> (r: Result<(Vec<Item<'a>>, usize), Error>)
    ensures
        match r {
            Ok((items, lf)) => {
                &&& tree_fault(*root) is None
                &&& numbered(items@) == items_of(*root)
                &&& lf == lost_found(items_of(*root), 1)
                &&& sound(items_of(*root), lf as int)
                &&& items.len() <= MAX_ITEMS
            },
            Err(e) => tree_fault(*root) == Some(e),
        },
{
    let ch: &Vec<Node> = match &root.kind {
        NodeKind::Dir(ch) => ch,
        _ => {
            return Err(Error::RootNotDirectory);
        },
    };
    let mut found: bool = false;
    let mut i: usize = 0;
    while i < ch.len()
        invariant
            i <= ch@.len(),
            root.kind == NodeKind::Dir(*ch),
            found == exists|k: int|
                0 <= k < i && (#[trigger] ch@[k]).name@ == lost_found_name() && ch@[k].kind is Dir,
        decreases ch.len() - i,
    {
        let dir: bool = match &ch[i].kind {
            NodeKind::Dir(_) => true,
            _ => false,
        };
        if is_lost_found(&ch[i].name) && dir {
            found = true;
            assert(ch@[i as int].name@ == lost_found_name());
        }
        i += 1;
    }
    if !found {
        return Err(Error::NoLostFound);
    }
    assert(has_lost_found(*root));
    let items: Vec<Item<'a>> = match number(root, false) {
        Ok(v) => v,
        Err(e) => {
            return Err(e);
        },
    };
    let ghost all = numbered(items@);
    assert(all.len() == items@.len());
    if items.len() > MAX_ITEMS {
        return Err(Error::TooManyInodes);
    }
    proof {
        lemma_lost_found(*root);
    }
    let mut lf: usize = 1;
    while !is_lost_found(&items[lf].node.name)
        invariant
            all == numbered(items@),
            all.len() == items@.len(),
            1 <= lf <= lost_found(all, 1),
            lost_found(all, 1) < items@.len(),
            all[lost_found(all, 1)].node.name@ == lost_found_name(),
            lost_found(all, lf as int) == lost_found(all, 1),
            forall|k: int| 0 <= k < items@.len() ==> #[trigger] all[k].node == *items@[k].node,
        decreases items.len() - lf,
    {
        assert(all[lf as int].node == *items@[lf as int].node);
        lf += 1;
    }
    assert(all[lf as int].node == *items@[lf as int].node);
    Ok((items, lf))
}

/// Block and inode usage once the content is stored.
fn usage<'a>(l: &Layout, w: &Written<'a>, cap: u64) -> (r: Stats)
    requires
        well_formed(l@),
        counted(l@, *w),
        cap == capacity(l@),
        data_ok(l@, w.data@),
        cap <= l.blocks,
    ensures
        r == stats_of(Laid { groups: l@, content: w@ }),
{
    proof {
        reveal(counted);
        lemma_bounds(l@);
        assert(w@.items.len() == w.items@.len());
    }
    let taken: u64 = w.data.len() as u64 / l.bs;
    Stats {
        blocks: l.blocks,
        used_blocks: l.blocks - (cap - taken),
        inodes: (l.inodes() % 0x1_0000_0000) as u32,
        used_inodes: (w.items.len() + 9) as u32,
    }
}

/// Writes an image. Returns its bytes, and block and inode usage.
pub fn write_image(root: &Node, p: &Params) -> (r: Result<(Vec<u8>, Stats), Error>)
    requires
        supported(p.block_size as int) && tree_fault(*root) is None ==> addressable(
            p.block_size as int,
            p.blocks as int,
        ),
    ensures
        match r {
            Ok((image, stats)) => laid_out(*root, *p) is Ok && image@ == image_bytes(
                laid_out(*root, *p)->Ok_0,
                *p,
            ) && stats == stats_of(laid_out(*root, *p)->Ok_0),
            Err(e) => laid_out(*root, *p) == Err::<Laid, Error>(e),
        },
{
    if p.block_size != 4096 && p.block_size != 1024 && p.block_size != 2048 {
        return Err(Error::UnsupportedBlockSize);
    }
    let (items, lf): (Vec<Item>, usize) = match flatten(root) {
        Ok(x) => x,
        Err(e) => {
            return Err(e);
        },
    };
    let ghost all = items_of(*root);
    assert(all.len() == items@.len());
    let want: u64 = items.len() as u64 + 10;
    let min: u64 = if want > p.inodes as u64 {
        want
    } else {
        p.inodes as u64
    };
    let l: Layout = match Layout::new(p.block_size, p.blocks, min) {
        Ok(l) => l,
        Err(e) => {
            return Err(e);
        },
    };
    let cap: u64 = l.capacity();
    proof {
        lemma_bounds(l@);
        lemma_rooms(l@, l@.groups);
        assert(data_ok(l@, Seq::empty()));
    }
    let (data, inodes): (Vec<u8>, Vec<u8>) = match write_inodes(&l, cap, &items, lf, p.timestamp) {
        Ok(x) => x,
        Err(e) => {
            return Err(e);
        },
    };
    proof {
        lemma_enough_inodes(l@.bs, l@.blocks, min as int);
    }
    let dirs: Vec<u64> = count_dirs(&l, &items, lf);
    let rooms: Vec<u64> = sum_rooms(&l);
    let w: Written = Written { items: &items, lf, data, inodes, dirs, rooms };
    proof {
        reveal(counted);
    }
    let image: Vec<u8> = assemble(&l, p, &w, cap);
    let stats: Stats = usage(&l, &w, cap);
    Ok((image, stats))
}

/// The inode tables hold the inodes asked for.
pub proof fn lemma_enough_inodes(bs: int, blocks: int, min: int)
    requires
        well_formed(crate::fs::mkext4::layout::groups_for(bs, blocks, min)),
        supported(bs),
    ensures
        min <= crate::fs::mkext4::layout::groups_for(bs, blocks, min).ipg
            * crate::fs::mkext4::layout::groups_for(bs, blocks, min).groups,
{
    let l = crate::fs::mkext4::layout::groups_for(bs, blocks, min);
    lemma_bounds(l);
    let align: int = if bs / 256 < 8 {
        8
    } else {
        bs / 256
    };
    let each = crate::bytes::ceil_div(min, l.groups);
    crate::bytes::lemma_round_up(each, align);
    let g = l.groups;
    let ipg = l.ipg;
    assert(min <= each * g) by (nonlinear_arith)
        requires
            each == (min + g - 1) / g,
            0 < g,
    ;
    assert(each * g <= ipg * g) by (nonlinear_arith)
        requires
            each <= ipg,
            0 < g,
    ;
}

} // verus!
