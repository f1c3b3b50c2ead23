//! Builds an ext4 image from a folder made by an extraction and its metadata:
//!
//! ```text
//! <work>/<part>/                     files (added or removed files are picked up)
//! <work>/config/<part>_fs_config      owners, modes, capabilities
//! <work>/config/<part>_file_contexts  SELinux labels
//! <work>/config/<part>_symlinks       symlinks (also those the folder can't hold)
//! <work>/config/<part>_info           size, UUID, hash seed, volume name, ...
//! ```
//!
//! The folder decides which files exist. Files without metadata get
//! Android-like defaults and the SELinux label of their directory. A
//! symlink listed in `_symlinks` is kept unless something else now sits at
//! its path; remove its line to delete it.
use vstd::prelude::*;
use crate::build::config::{chars_view, find_value, load_meta, meta_in, pairs_view, value_for, Meta,
    MetaView};
use crate::build::folder::{dir_walk, label_at, tree_of, walk_dir, HostEntry, HostKind, Met, Tree,
    Walker};
use crate::build::image::{are_params, build_image, image_size};
use crate::build::links::{add_lost_found, count_gone, gone, link_order, put_all_back, put_links,
    with_lost_found};
use crate::error::Error;
use crate::extract::{mount_of, mount_point, strings_view};
use crate::fs::mkext4::{image_bytes, laid_out, stats_of, Laid, Node, Params, Stats};
use crate::text::{chars_of, string_of};
use crate::words::{number_upto, parse_number, part, texts_view};

pub mod config;
pub mod folder;
pub mod image;
pub mod kept;
pub mod links;
pub mod parameters;
pub mod round_trip;

verus! {

#[derive(Debug, Clone, Copy, PartialEq, Eq, Structural)]
pub enum Size {
    /// The size recorded in `_info` (the original partition size).
    Original,
    /// Just big enough for the content, plus a small margin.
    Auto,
    Bytes(u64),
}

/// An ASCII letter in lower case.
pub open spec fn lower(c: char) -> char {
    if 'A' <= c <= 'Z' {
        (c as int + 32) as char
    } else {
        c
    }
}

/// `auto`, in any case.
pub open spec fn is_auto(s: Seq<char>) -> bool {
    s.len() == 4 && lower(s[0]) == 'a' && lower(s[1]) == 'u' && lower(s[2]) == 't' && lower(s[3])
        == 'o'
}

/// What the suffix of a size multiplies by: powers of 1024.
pub open spec fn suffix_of(s: Seq<char>) -> int {
    if s.len() == 0 {
        1
    } else if lower(s.last()) == 'k' {
        0x400
    } else if lower(s.last()) == 'm' {
        0x10_0000
    } else if lower(s.last()) == 'g' {
        0x4000_0000
    } else {
        1
    }
}

/// "auto", or a byte count with an optional K/M/G suffix (powers of 1024).
pub open spec fn size_in(s: Seq<char>) -> Result<Size, Error> {
    if is_auto(s) {
        Ok(Size::Auto)
    } else {
        let mult = suffix_of(s);
        let num = if mult == 1 {
            s
        } else {
            s.drop_last()
        };
        match number_upto(num, 10, u64::MAX as int) {
            Some(n) => if n * mult <= u64::MAX {
                Ok(Size::Bytes((n * mult) as u64))
            } else {
                Err(Error::BadSize)
            },
            None => Err(Error::BadSize),
        }
    }
}

pub fn to_lower(c: char) -> (r: char)
    ensures
        r == lower(c),
{
    if 'A' <= c && c <= 'Z' {
        (c as u8 + 32) as char
    } else {
        c
    }
}

impl Size {
    /// "auto", or a byte count with an optional K/M/G suffix (powers of 1024).
    pub fn parse(s: &str) -> (r: Result<Size, Error>)
        ensures
            r == size_in(s@),
    {
        let chars: Vec<char> = chars_of(s);
        let n: usize = chars.len();
        if n == 4 && to_lower(chars[0]) == 'a' && to_lower(chars[1]) == 'u' && to_lower(chars[2])
            == 't' && to_lower(chars[3]) == 'o' {
            return Ok(Size::Auto);
        }
        let last: char = if n > 0 {
            to_lower(chars[n - 1])
        } else {
            ' '
        };
        let mult: u64 = if last == 'k' {
            0x400
        } else if last == 'm' {
            0x10_0000
        } else if last == 'g' {
            0x4000_0000
        } else {
            1
        };
        assert(mult == suffix_of(s@));
        let end: usize = if mult == 1 {
            n
        } else {
            n - 1
        };
        let num: Vec<char> = part(&chars, 0, end);
        assert(num@ =~= if mult == 1 {
            s@
        } else {
            s@.drop_last()
        });
        match parse_number(&num, 10, u64::MAX) {
            Some(v) => match v.checked_mul(mult) {
                Some(b) => Ok(Size::Bytes(b)),
                None => Err(Error::BadSize),
            },
            None => Err(Error::BadSize),
        }
    }
}

impl std::str::FromStr for Size {
    type Err = Error;

    fn from_str(s: &str) -> Result<Size, Error> {
        Size::parse(s)
    }
}

/// What was built.
#[derive(Debug, Clone)]
pub struct Summary {
    pub mount_point: String,
    pub files: u64,
    pub dirs: u64,
    pub symlinks: u64,
    /// Entries without fs_config metadata (new files), with defaults applied.
    pub new_entries: Vec<String>,
    /// fs_config entries whose path no longer exists (deleted files).
    pub removed: usize,
    pub stats: Stats,
    pub block_size: u64,
    pub warnings: Vec<String>,
}

impl Default for Summary {
    fn default() -> (r: Self)
        ensures
            r.mount_point@ == ""@,
            r.files == 0,
            r.dirs == 0,
            r.symlinks == 0,
            r.new_entries@.len() == 0,
            r.removed == 0,
            r.stats == (Stats { blocks: 0, used_blocks: 0, inodes: 0, used_inodes: 0 }),
            r.block_size == 0,
            r.warnings@.len() == 0,
    {
        Summary {
            mount_point: "".to_string(),
            files: 0,
            dirs: 0,
            symlinks: 0,
            new_entries: Vec::new(),
            removed: 0,
            stats: Stats::default(),
            block_size: 0,
            warnings: Vec::new(),
        }
    }
}

/// The mount point of a partition: that in `_info`, or the one for its volume
/// name.
pub open spec fn mount_in(info: Seq<(Seq<char>, Seq<char>)>, part: Seq<char>) -> Seq<char> {
    let n = info.len() as int;
    match value_for(info, "mount_point"@, n) {
        Some(m) => m,
        None => mount_of(
            match value_for(info, "volume_name"@, n) {
                Some(v) => v,
                None => Seq::empty(),
            },
            part,
        ),
    }
}

fn find_mount(info: &Vec<(Vec<char>, Vec<char>)>, part: &str) -> (r: String)
    ensures
        r@ == mount_in(pairs_view(info@), part@),
{
    if let Some(m) = find_value(info, &chars_of("mount_point")) {
        return string_of(&m);
    }
    let volume: String = match find_value(info, &chars_of("volume_name")) {
        Some(v) => string_of(&v),
        None => {
            let none: String = String::new();
            assert(none@ =~= Seq::<char>::empty());
            none
        },
    };
    mount_point(volume.as_str(), part)
}

/// Nothing was met yet.
pub open spec fn nothing_met() -> Met {
    Met {
        new: Seq::empty(),
        seen: Seq::empty(),
        files: 0,
        dirs: 0,
        links: 0,
        warnings: Seq::empty(),
    }
}

/// The tree of a partition: its folder, the symlinks that the folder could
/// not hold, and lost+found.
pub open spec fn partition_tree(meta: MetaView, part: Seq<char>, folder: HostEntry) -> (Tree, Met) {
    let mount = mount_in(meta.info, part);
    let (t0, m0) = dir_walk(meta, mount, folder, Seq::empty(), None, nothing_met());
    let (t1, m1) = put_all_back(
        meta,
        mount,
        t0,
        m0,
        link_order(meta.symlinks).len() as int,
    );
    with_lost_found(meta, mount, t1, label_at(meta, mount, Seq::empty(), None), m1)
}

/// The tree of a partition, with what was met on the way.
pub fn assemble(meta: &Meta, part: &str, mount: &str, folder: &HostEntry) -> (r: (Node, Walker))
    requires
        mount@ == mount_in(meta@.info, part@),
    ensures
        (tree_of(r.0), r.1@) == partition_tree(meta@, part@, *folder),
{
    let mut w: Walker = Walker::new();
    let rel: Vec<char> = Vec::new();
    assert(rel@ =~= Seq::<char>::empty());
    let mut root: Node = walk_dir(&mut w, meta, mount, folder, &rel, &None);
    let label: Option<Vec<char>> = match &root.selinux {
        Some(l) => Some(chars_of(l.as_str())),
        None => None,
    };
    let ghost t0 = tree_of(root);
    assert(t0.selinux == label_at(meta@, mount@, Seq::empty(), None));
    assert(chars_view(label) == t0.selinux);
    put_links(&mut w, meta, mount, &mut root);
    add_lost_found(&mut w, meta, mount, &mut root, &label);
    (root, w)
}

fn texts_of(v: &Vec<Vec<char>>) -> (r: Vec<String>)
    ensures
        strings_view(r@) == texts_view(v@),
{
    let mut out: Vec<String> = Vec::new();
    let mut i: usize = 0;
    while i < v.len()
        invariant
            i <= v@.len(),
            out@.len() == i,
            forall|k: int| 0 <= k < i ==> (#[trigger] out@[k])@ == v@[k]@,
        decreases v.len() - i,
    {
        out.push(string_of(&v[i]));
        i += 1;
    }
    assert(strings_view(out@) =~= texts_view(v@));
    out
}

/// A summary of what was met.
pub open spec fn sums_up(s: Summary, meta: MetaView, part: Seq<char>, m: Met) -> bool {
    &&& s.mount_point@ == mount_in(meta.info, part)
    &&& s.files == m.files
    &&& s.dirs == m.dirs
    &&& s.symlinks == m.links
    &&& strings_view(s.new_entries@) == m.new
    &&& s.removed == gone(meta.owners, m.seen, meta.owners.len() as int)
    &&& strings_view(s.warnings@) == m.warnings
}

/// The image of a partition was made as its metadata and size say, or the
/// error says why not.
pub open spec fn built_as(
    r: Result<(Vec<u8>, Summary), Error>,
    root: Node,
    meta: MetaView,
    part: Seq<char>,
    m: Met,
    size: Size,
    now: u128,
) -> bool {
    match image_size(root, meta.info, size) {
        Err(e) => r == Err::<(Vec<u8>, Summary), Error>(e),
        Ok((blocks, inodes)) => exists|p: Params|
            #![trigger laid_out(root, p)]
            are_params(p, meta.info, part, mount_in(meta.info, part), now, blocks, inodes) && match r {
                Ok((image, s)) => {
                    &&& laid_out(root, p) is Ok
                    &&& image@ == image_bytes(laid_out(root, p)->Ok_0, p)
                    &&& s.stats == stats_of(laid_out(root, p)->Ok_0)
                    &&& s.block_size == p.block_size
                    &&& sums_up(s, meta, part, m)
                },
                Err(e) => laid_out(root, p) == Err::<Laid, Error>(e),
            },
    }
}

/// What building a partition gives, from its metadata (nothing where that is
/// wrong) and its folder.
pub open spec fn builds(
    r: Result<(Vec<u8>, Summary), Error>,
    part: Seq<char>,
    meta: Option<MetaView>,
    folder: HostEntry,
    size: Size,
    now: u128,
) -> bool {
    match meta {
        None => r == Err::<(Vec<u8>, Summary), Error>(Error::BadFsConfig),
        Some(meta) => if folder.kind !is Dir {
            r == Err::<(Vec<u8>, Summary), Error>(Error::NotADirectory)
        } else {
            let (t, m) = partition_tree(meta, part, folder);
            exists|root: Node|
                #[trigger] tree_of(root) == t && built_as(r, root, meta, part, m, size, now)
        },
    }
}

/// Builds the image of a partition from its folder and the texts of its
/// metadata files. `now` is the time in nanoseconds, for UUIDs that have to be
/// made up.
pub fn build(
    part: &str,
    fs_config: &str,
    file_contexts: &str,
    symlinks: &str,
    info: &str,
    folder: &HostEntry,
    size: Size,
    now: u128,
) -> (r: Result<(Vec<u8>, Summary), Error>)
    ensures
        builds(
            r,
            part@,
            meta_in(fs_config@, file_contexts@, symlinks@, info@),
            *folder,
            size,
            now,
        ),
        match r {
            Ok((_, s)) => s.stats.blocks <= u32::MAX && s.block_size <= 4096,
            Err(_) => true,
        },
{
    let meta: Meta = match load_meta(fs_config, file_contexts, symlinks, info) {
        Ok(m) => m,
        Err(e) => {
            return Err(e);
        },
    };
    match &folder.kind {
        HostKind::Dir(_) => {},
        _ => {
            return Err(Error::NotADirectory);
        },
    }
    let mount: String = find_mount(&meta.info, part);
    let (root, w): (Node, Walker) = assemble(&meta, part, mount.as_str(), folder);
    let removed: usize = count_gone(&w, &meta);
    let new_entries: Vec<String> = texts_of(&w.new);
    let ghost t = tree_of(root);
    match build_image(&root, &meta.info, part, mount.as_str(), size, now) {
        Ok((image, stats, block_size)) => {
            let s: Summary = Summary {
                mount_point: mount,
                files: w.files,
                dirs: w.dirs,
                symlinks: w.links,
                new_entries,
                removed,
                stats,
                block_size,
                warnings: w.warnings,
            };
            let r: Result<(Vec<u8>, Summary), Error> = Ok((image, s));
            assert(built_as(r, root, meta@, part@, w@, size, now));
            r
        },
        Err(e) => {
            let r: Result<(Vec<u8>, Summary), Error> = Err(e);
            assert(built_as(r, root, meta@, part@, w@, size, now));
            r
        },
    }
}

} // verus!
