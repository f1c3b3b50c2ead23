//! Read-only ext2/3/4 reader for Android images: extents and legacy block
//! maps, htree directories (read linearly), inline data, fast and slow
//! symlinks, and xattrs (in-inode, xattr block and EA inodes).
use vstd::prelude::*;
use vstd::string::StringExecFns;
use crate::bytes::{ceil_div, copy_range, get16, get32, le16, le32, push_bytes, zero_seq};
use crate::error::Error;
use crate::fs::{chain, info_view, kind_of, lemma_chain_append, lemma_chain_empty, lemma_chain_push,
    list_view, mode_kind, pick_security, read_at, read_range, security_of, xattrs_view, Filesystem,
    Kind, Meta, MetaView};
use crate::text::{cstr, decimal, decimal_of, lossy, push_decimal, push_word, same_text, text_of,
    until_nul, uuid, uuid_text, with_word};

verus! {

pub const EXT4_MAGIC: u16 = 0xEF53;

pub const ROOT_INO: u32 = 2;

pub const INCOMPAT_FILETYPE: u32 = 0x2;

pub const INCOMPAT_64BIT: u32 = 0x80;

/// Features that change how the metadata is laid out, or that are unknown.
pub const INCOMPAT_UNSUPPORTED: u32 = 0xFFFC_1839;

pub const FLAG_ENCRYPT: u32 = 0x800;

pub const FLAG_HUGE_FILE: u32 = 0x40000;

pub const FLAG_EXTENTS: u32 = 0x80000;

pub const FLAG_INLINE_DATA: u32 = 0x1000_0000;

pub const EXTENT_MAGIC: u16 = 0xF30A;

pub const XATTR_MAGIC: u32 = 0xEA02_0000;

/// A 32-bit field of the superblock.
pub open spec fn sb32(image: Seq<u8>, at: int) -> int {
    le32(image, 1024 + at)
}

/// A 16-bit field of the superblock.
pub open spec fn sb16(image: Seq<u8>, at: int) -> int {
    le16(image, 1024 + at)
}

/// The block size with logarithm `log` (in kilobytes).
pub open spec fn size_for_log(log: int) -> int {
    if log == 0 {
        1024
    } else if log == 1 {
        2048
    } else if log == 2 {
        4096
    } else if log == 3 {
        8192
    } else if log == 4 {
        16384
    } else if log == 5 {
        32768
    } else {
        65536
    }
}

/// The block size of an image.
#[verifier::opaque]
pub open spec fn block_size(image: Seq<u8>) -> int {
    size_for_log(sb32(image, 0x18))
}

pub open spec fn incompat(image: Seq<u8>) -> u32 {
    sb32(image, 0x60) as u32
}

pub open spec fn is_64bit(image: Seq<u8>) -> bool {
    incompat(image) & INCOMPAT_64BIT != 0
}

pub open spec fn inodes_count(image: Seq<u8>) -> int {
    sb32(image, 0)
}

/// Blocks of the filesystem.
pub open spec fn blocks_count(image: Seq<u8>) -> int {
    sb32(image, 4) + (if is_64bit(image) {
        0x1_0000_0000 * sb32(image, 0x150)
    } else {
        0
    })
}

pub open spec fn inodes_per_group(image: Seq<u8>) -> int {
    sb32(image, 0x28)
}

pub open spec fn inode_size(image: Seq<u8>) -> int {
    if sb32(image, 0x4C) == 0 {
        128
    } else {
        sb16(image, 0x58)
    }
}

/// Bytes of a group descriptor.
pub open spec fn desc_size(image: Seq<u8>) -> int {
    if is_64bit(image) && sb16(image, 0xFE) > 32 {
        sb16(image, 0xFE)
    } else {
        32
    }
}

pub open spec fn groups(image: Seq<u8>) -> int {
    ceil_div(inodes_count(image), inodes_per_group(image))
}

/// Byte offset of the group descriptors: they follow the superblock's block.
pub open spec fn gdt_offset(image: Seq<u8>) -> int {
    (sb32(image, 0x14) + 1) * block_size(image)
}

/// What keeps `image` from being opened.
pub open spec fn open_fault(image: Seq<u8>) -> Option<Error> {
    if image.len() < 2048 {
        Some(Error::UnexpectedEof)
    } else if sb16(image, 0x38) != EXT4_MAGIC {
        Some(Error::NotExt4)
    } else if sb32(image, 0x18) > 6 {
        Some(Error::BadBlockSize)
    } else if incompat(image) & INCOMPAT_UNSUPPORTED != 0 {
        Some(Error::UnsupportedFeatures)
    } else if inodes_per_group(image) == 0 || inode_size(image) < 128 {
        Some(Error::BadSuperblock)
    } else {
        match read_range(image, gdt_offset(image), groups(image) * desc_size(image)) {
            Ok(_) => None,
            Err(e) => Some(e),
        }
    }
}

/// First block of the inode table of group `g`.
pub open spec fn inode_table(image: Seq<u8>, g: int) -> int {
    let d = gdt_offset(image) + g * desc_size(image);
    le32(image, d + 8) + (if is_64bit(image) && desc_size(image) >= 64 {
        0x1_0000_0000 * le32(image, d + 0x28)
    } else {
        0
    })
}

/// The bytes of a block.
pub open spec fn block_at(image: Seq<u8>, block: int) -> Result<Seq<u8>, Error> {
    if block >= blocks_count(image) {
        Err(Error::BlockOutside)
    } else {
        read_range(image, block * block_size(image), block_size(image))
    }
}

/// An inode as it is read.
pub struct InodeView {
    pub mode: int,
    pub uid: int,
    pub gid: int,
    pub size: int,
    pub mtime: int,
    pub flags: u32,
    /// `i_blocks` in 512-byte sectors.
    pub sectors: int,
    pub block: Seq<u8>,
    pub file_acl: int,
    /// In-inode xattr area (after `i_extra_isize`), may be empty.
    pub xattr_area: Seq<u8>,
}

/// A 32-bit time as a signed number.
pub open spec fn signed32(t: int) -> int {
    if t >= 0x8000_0000 {
        t - 0x1_0000_0000
    } else {
        t
    }
}

/// Bytes of the extra fields of an inode.
pub open spec fn extra_isize(b: Seq<u8>) -> int {
    if b.len() >= 130 {
        le16(b, 0x80)
    } else {
        0
    }
}

/// The inode in the bytes `b`.
pub open spec fn inode_in(image: Seq<u8>, b: Seq<u8>) -> InodeView {
    let flags = le32(b, 0x20) as u32;
    let sectors = le32(b, 0x1C) + 0x1_0000_0000 * le16(b, 0x74);
    let extra = extra_isize(b);
    InodeView {
        mode: le16(b, 0),
        uid: le16(b, 2) + 0x1_0000 * le16(b, 0x78),
        gid: le16(b, 0x18) + 0x1_0000 * le16(b, 0x7A),
        size: le32(b, 4) + 0x1_0000_0000 * le32(b, 0x6C),
        mtime: signed32(le32(b, 0x10)) + (if b.len() >= 130 && extra >= 12 && 128 + extra
            <= b.len() {
            // epoch bits extend the 32-bit seconds
            0x1_0000_0000 * (le32(b, 0x88) % 4)
        } else {
            0
        }),
        flags,
        sectors: if flags & FLAG_HUGE_FILE != 0 {
            sectors * (block_size(image) / 512)
        } else {
            sectors
        },
        block: b.subrange(0x28, 0x64),
        file_acl: le32(b, 0x68) + 0x1_0000_0000 * le16(b, 0x76),
        xattr_area: if b.len() >= 130 && 128 + extra + 4 <= b.len() {
            b.skip(128 + extra)
        } else {
            Seq::empty()
        },
    }
}

/// Byte offset of inode `ino`.
pub open spec fn inode_offset(image: Seq<u8>, ino: int) -> int {
    let group = (ino - 1) / inodes_per_group(image);
    let index = (ino - 1) % inodes_per_group(image);
    inode_table(image, group) * block_size(image) + index * inode_size(image)
}

/// The inode with number `ino`.
pub open spec fn inode_at(image: Seq<u8>, ino: int) -> Result<InodeView, Error> {
    if ino <= 0 || ino > inodes_count(image) {
        Err(Error::InodeOutside)
    } else {
        match read_range(image, inode_offset(image, ino), inode_size(image)) {
            Err(e) => Err(e),
            Ok(b) => Ok(inode_in(image, b)),
        }
    }
}

/// A run of blocks of a file.
pub struct ExtentView {
    pub logical: int,
    pub physical: int,
    pub len: int,
    /// Allocated but not written: reads as zeros.
    pub uninit: bool,
}

/// The extent in the 12 bytes at `at`.
pub open spec fn leaf_in(node: Seq<u8>, at: int) -> ExtentView {
    let raw = le16(node, at + 4);
    ExtentView {
        logical: le32(node, at),
        physical: le32(node, at + 8) + 0x1_0000_0000 * le16(node, at + 6),
        len: if raw > 32768 {
            raw - 32768
        } else {
            raw
        },
        uninit: raw > 32768,
    }
}

/// The extents below a node of the extent tree.
pub open spec fn extents_in(image: Seq<u8>, node: Seq<u8>, level: int) -> Result<
    Seq<ExtentView>,
    Error,
>
    decreases 10 - level, 0x2_0000int,
{
    if level > 8 || node.len() < 12 || le16(node, 0) != EXTENT_MAGIC {
        Err(Error::BadExtentTree)
    } else if 12 + 12 * le16(node, 2) > node.len() {
        Err(Error::ExtentNodeOverflows)
    } else {
        extents_from(image, node, level, 0)
    }
}

/// The extents below entry `n` of a node and those after it.
pub open spec fn extents_from(image: Seq<u8>, node: Seq<u8>, level: int, n: int) -> Result<
    Seq<ExtentView>,
    Error,
>
    decreases 10 - level, 0x1_0000 - n,
{
    if level > 8 || n < 0 || n >= le16(node, 2) {
        Ok(Seq::empty())
    } else {
        let at = 12 + 12 * n;
        if le16(node, 6) == 0 {
            chain(seq![leaf_in(node, at)], extents_from(image, node, level, n + 1))
        } else {
            let child = le32(node, at + 4) + 0x1_0000_0000 * le16(node, at + 8);
            match block_at(image, child) {
                Err(e) => Err(e),
                Ok(b) => match extents_in(image, b, level + 1) {
                    Err(e) => Err(e),
                    Ok(here) => chain(here, extents_from(image, node, level, n + 1)),
                },
            }
        }
    }
}

/// What a legacy block map has yielded so far.
pub struct MapView {
    /// The next logical block.
    pub logical: int,
    pub out: Seq<ExtentView>,
}

/// Blocks under a pointer of depth `depth`, with `per` pointers in a block.
pub open spec fn span(per: int, depth: int) -> int
    decreases depth,
{
    if depth <= 0 {
        1
    } else {
        per * span(per, depth - 1)
    }
}

/// A data block joins the extent that it continues, or starts a new one.
pub open spec fn with_block(st: MapView, ptr: int) -> MapView {
    let e = st.out.last();
    let joins = st.out.len() > 0 && !e.uninit && e.logical + e.len == st.logical && e.physical
        + e.len == ptr;
    MapView {
        logical: st.logical + 1,
        out: if joins {
            st.out.update(st.out.len() - 1, ExtentView { len: e.len + 1, ..e })
        } else {
            st.out.push(
                ExtentView { logical: st.logical, physical: ptr, len: 1, uninit: false },
            )
        },
    }
}

/// Follows a pointer of a legacy block map: `depth` 0 is a data block, 1 to 3
/// are indirect blocks.
pub open spec fn mapped(
    image: Seq<u8>,
    ptr: int,
    depth: int,
    st: MapView,
    nblocks: int,
) -> Result<MapView, Error>
    decreases depth, 0x2_0000int,
{
    if ptr == 0 {
        // hole
        Ok(MapView { logical: st.logical + span(block_size(image) / 4, depth), out: st.out })
    } else if depth <= 0 {
        Ok(with_block(st, ptr))
    } else {
        match block_at(image, ptr) {
            Err(e) => Err(e),
            Ok(b) => mapped_from(image, b, depth, 0, st, nblocks),
        }
    }
}

/// Follows the pointers of an indirect block from number `i` on.
pub open spec fn mapped_from(
    image: Seq<u8>,
    block: Seq<u8>,
    depth: int,
    i: int,
    st: MapView,
    nblocks: int,
) -> Result<MapView, Error>
    decreases depth, 0x1_0000 - i,
{
    if depth <= 0 || i < 0 || i >= 0x1_0000 || i >= block_size(image) / 4 || st.logical >= nblocks {
        Ok(st)
    } else {
        match mapped(image, le32(block, 4 * i), depth - 1, st, nblocks) {
            Err(e) => Err(e),
            Ok(next) => mapped_from(image, block, depth, i + 1, next, nblocks),
        }
    }
}

/// The depth of pointer `i` of an inode: the first twelve are direct.
pub open spec fn pointer_depth(i: int) -> int {
    if i > 11 {
        i - 11
    } else {
        0
    }
}

/// Follows the 15 pointers of an inode from number `i` on.
pub open spec fn pointers_from(
    image: Seq<u8>,
    block: Seq<u8>,
    i: int,
    st: MapView,
    nblocks: int,
) -> Result<MapView, Error>
    decreases 15 - i,
{
    if i >= 15 || st.logical >= nblocks {
        Ok(st)
    } else {
        match mapped(image, le32(block, 4 * i), pointer_depth(i), st, nblocks) {
            Err(e) => Err(e),
            Ok(next) => pointers_from(image, block, i + 1, next, nblocks),
        }
    }
}

/// Where an extent goes among the first `n` of a sorted list: behind all that
/// do not come after it.
pub open spec fn extent_place(sorted: Seq<ExtentView>, n: int, logical: int) -> int
    decreases n,
{
    if n <= 0 {
        0
    } else if sorted[n - 1].logical > logical {
        extent_place(sorted, n - 1, logical)
    } else {
        n
    }
}

/// The first `n` extents in the order of their logical blocks.
pub open spec fn by_logical(extents: Seq<ExtentView>, n: int) -> Seq<ExtentView>
    decreases n,
{
    if n <= 0 {
        Seq::empty()
    } else {
        let s = by_logical(extents, n - 1);
        s.insert(extent_place(s, s.len() as int, extents[n - 1].logical), extents[n - 1])
    }
}

/// Maps the logical blocks of an inode to physical blocks.
#[verifier::opaque]
pub open spec fn extents_of(image: Seq<u8>, inode: InodeView) -> Result<Seq<ExtentView>, Error> {
    if inode.flags & FLAG_EXTENTS != 0 {
        match extents_in(image, inode.block, 0) {
            Err(e) => Err(e),
            Ok(x) => Ok(by_logical(x, x.len() as int)),
        }
    } else {
        let nblocks = ceil_div(inode.size, block_size(image));
        match pointers_from(
            image,
            inode.block,
            0,
            MapView { logical: 0, out: Seq::empty() },
            nblocks,
        ) {
            Err(e) => Err(e),
            Ok(st) => Ok(by_logical(st.out, st.out.len() as int)),
        }
    }
}

pub open spec fn smaller(a: int, b: int) -> int {
    if a < b {
        a
    } else {
        b
    }
}

/// The bytes of one extent, when `pos` bytes of the file come before.
pub open spec fn extent_bytes(image: Seq<u8>, e: ExtentView, pos: int, size: int) -> Result<
    Seq<u8>,
    Error,
> {
    let bs = block_size(image);
    let start = smaller(e.logical * bs, size);
    let end = smaller((e.logical + e.len) * bs, size);
    if start < pos {
        Err(Error::OverlappingExtents)
    } else if e.uninit {
        Ok(zero_seq(end - pos))
    } else if e.physical + e.len > blocks_count(image) {
        Err(Error::ExtentOutside)
    } else {
        chain(zero_seq(start - pos), read_range(image, e.physical * bs, end - start))
    }
}

/// The bytes of the extents from number `k` on, when `pos` bytes of the file
/// come before; holes and unwritten extents read as zeros.
pub open spec fn bytes_from(
    image: Seq<u8>,
    extents: Seq<ExtentView>,
    k: int,
    pos: int,
    size: int,
) -> Result<Seq<u8>, Error>
    decreases extents.len() - k,
{
    if k >= extents.len() {
        Ok(zero_seq(size - pos))
    } else {
        match extent_bytes(image, extents[k], pos, size) {
            Err(e) => Err(e),
            Ok(b) => chain(
                b,
                bytes_from(
                    image,
                    extents,
                    k + 1,
                    smaller((extents[k].logical + extents[k].len) * block_size(image), size),
                    size,
                ),
            ),
        }
    }
}

/// Name prefix of an xattr index.
pub open spec fn prefix_text(index: int) -> Seq<char> {
    if index == 1 {
        "user."@
    } else if index == 2 {
        "system.posix_acl_access"@
    } else if index == 3 {
        "system.posix_acl_default"@
    } else if index == 4 {
        "trusted."@
    } else if index == 6 {
        "security."@
    } else if index == 7 {
        "system."@
    } else if index == 8 {
        "system.richacl"@
    } else {
        ""@
    }
}

/// The first value named `system.data`.
pub open spec fn system_data(xattrs: Seq<(Seq<char>, Seq<u8>)>, i: int) -> Seq<u8>
    decreases xattrs.len() - i,
{
    if i >= xattrs.len() {
        Seq::empty()
    } else if xattrs[i].0 == "system.data"@ {
        xattrs[i].1
    } else {
        system_data(xattrs, i + 1)
    }
}

/// `b` cut off at `size` bytes.
pub open spec fn cut(b: Seq<u8>, size: int) -> Seq<u8> {
    if size < b.len() {
        b.take(size)
    } else {
        b
    }
}

/// Inline data: the first 60 bytes live in the inode, the rest in the
/// `system.data` xattr. `path` holds the inodes whose xattr values led here.
#[verifier::opaque]
pub open spec fn inline_of(image: Seq<u8>, inode: InodeView, path: Seq<int>) -> Result<
    Seq<u8>,
    Error,
>
    decreases inodes_count(image) - path.len(), 4int, 0int,
{
    match xattrs_of(image, inode, path) {
        Err(e) => Err(e),
        Ok(x) => Ok(inode.block + system_data(x, 0)),
    }
}

/// The content of an inode.
#[verifier::opaque]
pub open spec fn data_of(image: Seq<u8>, inode: InodeView, path: Seq<int>) -> Result<Seq<u8>, Error>
    decreases inodes_count(image) - path.len(), 5int, 0int,
{
    if inode.flags & FLAG_ENCRYPT != 0 {
        Err(Error::EncryptedFile)
    } else if inode.flags & FLAG_INLINE_DATA != 0 {
        match inline_of(image, inode, path) {
            Err(e) => Err(e),
            Ok(d) => Ok(cut(d, inode.size)),
        }
    } else {
        match extents_of(image, inode) {
            Err(e) => Err(e),
            Ok(x) => bytes_from(image, x, 0, 0, inode.size),
        }
    }
}

/// The content of inode `ino`, which holds an xattr value of the last inode
/// on `path`.
#[verifier::opaque]
pub open spec fn value_in(image: Seq<u8>, ino: int, path: Seq<int>) -> Result<Seq<u8>, Error>
    decreases inodes_count(image) - path.len(), 1int, 0int,
{
    match inode_at(image, ino) {
        Err(e) => Err(e),
        Ok(inode) => if path.contains(ino) || path.len() >= inodes_count(image) {
            Err(Error::XattrLoop)
        } else {
            data_of(image, inode, path.push(ino))
        },
    }
}

/// The value of the xattr entry at byte `i`.
#[verifier::opaque]
pub open spec fn xattr_value(
    image: Seq<u8>,
    entries: Seq<u8>,
    values: Seq<u8>,
    i: int,
    path: Seq<int>,
) -> Result<Seq<u8>, Error>
    decreases inodes_count(image) - path.len(), 2int, 0int,
{
    let offs = le16(entries, i + 2);
    let inum = le32(entries, i + 4);
    let size = le32(entries, i + 8);
    if inum != 0 {
        // the value is the content of another inode
        match value_in(image, inum, path) {
            Err(e) => Err(e),
            Ok(v) => Ok(cut(v, size)),
        }
    } else if offs + size > values.len() {
        Err(Error::XattrPastBlock)
    } else {
        Ok(values.subrange(offs, offs + size))
    }
}

/// The xattrs from byte `i` of `entries` on, with values in `values`.
#[verifier::opaque]
pub open spec fn xattrs_from(
    image: Seq<u8>,
    entries: Seq<u8>,
    values: Seq<u8>,
    i: int,
    path: Seq<int>,
) -> Result<Seq<(Seq<char>, Seq<u8>)>, Error>
    decreases
        inodes_count(image) - path.len(),
        3int,
        (if entries.len() > i {
            entries.len() - i
        } else {
            0
        }),
{
    if i < 0 || i + 16 > entries.len() || le32(entries, i) == 0 {
        Ok(Seq::empty())
    } else {
        let name_end = i + 16 + entries[i];
        if name_end > entries.len() {
            Err(Error::XattrPastBlock)
        } else {
            match xattr_value(image, entries, values, i, path) {
                Err(e) => Err(e),
                Ok(v) => chain(
                    seq![
                        (
                            prefix_text(entries[i + 1] as int) + text_of(
                                entries.subrange(i + 16, name_end),
                            ),
                            v,
                        ),
                    ],
                    xattrs_from(image, entries, values, i + round_up_4(16 + entries[i]), path),
                ),
            }
        }
    }
}

/// `n` rounded up to a multiple of 4.
pub open spec fn round_up_4(n: int) -> int {
    (n + 3) / 4 * 4
}

/// The xattrs in the inode itself.
#[verifier::opaque]
pub open spec fn inner_xattrs(image: Seq<u8>, inode: InodeView, path: Seq<int>) -> Result<
    Seq<(Seq<char>, Seq<u8>)>,
    Error,
>
    decreases inodes_count(image) - path.len(), 3int, inode.xattr_area.len() + 1,
{
    let area = inode.xattr_area;
    if area.len() >= 4 && le32(area, 0) == XATTR_MAGIC {
        // value offsets are relative to the first entry
        xattrs_from(image, area.skip(4), area.skip(4), 0, path)
    } else {
        Ok(Seq::empty())
    }
}

/// The xattrs in the xattr block of the inode.
#[verifier::opaque]
pub open spec fn outer_xattrs(image: Seq<u8>, inode: InodeView, path: Seq<int>) -> Result<
    Seq<(Seq<char>, Seq<u8>)>,
    Error,
>
    decreases inodes_count(image) - path.len(), 3int, 0x2_0000int,
{
    if inode.file_acl == 0 {
        Ok(Seq::empty())
    } else {
        match block_at(image, inode.file_acl) {
            Err(e) => Err(e),
            Ok(b) => if le32(b, 0) == XATTR_MAGIC && 32 <= b.len() <= 65536 {
                xattrs_from(image, b.skip(32), b, 0, path)
            } else {
                Ok(Seq::empty())
            },
        }
    }
}

/// All xattrs of an inode as (full name, value).
#[verifier::opaque]
pub open spec fn xattrs_of(image: Seq<u8>, inode: InodeView, path: Seq<int>) -> Result<
    Seq<(Seq<char>, Seq<u8>)>,
    Error,
>
    decreases inodes_count(image) - path.len(), 3int, 0x2_0000int + inode.xattr_area.len() + 2,
{
    match inner_xattrs(image, inode, path) {
        Err(e) => Err(e),
        Ok(x) => chain(x, outer_xattrs(image, inode, path)),
    }
}

/// True when `head` (at least 1024 + 58 bytes of an image) has the ext
/// superblock magic.
pub fn is_ext4(head: &[u8]) -> (r: bool)
    ensures
        r == (head@.len() >= 1082 && le16(head@, 1080) == EXT4_MAGIC),
{
    head.len() >= 1082 && get16(head, 1080) == EXT4_MAGIC
}

#[derive(Debug)]
struct Inode {
    mode: u16,
    uid: u32,
    gid: u32,
    size: u64,
    mtime: i64,
    flags: u32,
    sectors: u64,
    block: Vec<u8>,
    file_acl: u64,
    xattr_area: Vec<u8>,
}

impl View for Inode {
    type V = InodeView;

    closed spec fn view(&self) -> InodeView {
        InodeView {
            mode: self.mode as int,
            uid: self.uid as int,
            gid: self.gid as int,
            size: self.size as int,
            mtime: self.mtime as int,
            flags: self.flags,
            sectors: self.sectors as int,
            block: self.block@,
            file_acl: self.file_acl as int,
            xattr_area: self.xattr_area@,
        }
    }
}

#[derive(Debug, Clone, Copy)]
struct Extent {
    logical: u64,
    physical: u64,
    len: u64,
    uninit: bool,
}

impl View for Extent {
    type V = ExtentView;

    closed spec fn view(&self) -> ExtentView {
        ExtentView {
            logical: self.logical as int,
            physical: self.physical as int,
            len: self.len as int,
            uninit: self.uninit,
        }
    }
}

spec fn extents_view(v: Seq<Extent>) -> Seq<ExtentView> {
    v.map_values(|e: Extent| e@)
}

/// An ext2, ext3 or ext4 image.
#[derive(Debug)]
pub struct Ext4 {
    image: Vec<u8>,
    block_size: u64,
    blocks_count: u64,
    inodes_count: u32,
    inodes_per_group: u32,
    inode_size: u64,
    /// First block of each group's inode table.
    inode_tables: Vec<u64>,
}

impl View for Ext4 {
    type V = Seq<u8>;

    closed spec fn view(&self) -> Seq<u8> {
        self.image@
    }
}

fn size_of_log(log: u32) -> (r: u64)
    ensures
        r == size_for_log(log as int),
        1024 <= r <= 65536,
{
    if log == 0 {
        1024
    } else if log == 1 {
        2048
    } else if log == 2 {
        4096
    } else if log == 3 {
        8192
    } else if log == 4 {
        16384
    } else if log == 5 {
        32768
    } else {
        65536
    }
}

pub proof fn lemma_block_size(image: Seq<u8>)
    ensures
        1024 <= block_size(image) <= 65536,
        block_size(image) % 1024 == 0,
{
    reveal(block_size);
}

proof fn lemma_log_size(image: Seq<u8>)
    ensures
        block_size(image) == size_for_log(sb32(image, 0x18)),
{
    reveal(block_size);
}

proof fn lemma_groups(inodes: int, per: int)
    requires
        0 <= inodes <= u32::MAX,
        0 < per <= u32::MAX,
    ensures
        0 <= ceil_div(inodes, per) <= inodes,
        forall|ino: int| 0 < ino <= inodes ==> #[trigger] ((ino - 1) / per) < ceil_div(inodes, per),
{
    assert(0 <= (inodes + per - 1) / per <= inodes) by (nonlinear_arith)
        requires
            0 <= inodes,
            0 < per,
    ;
    assert forall|ino: int| 0 < ino <= inodes implies #[trigger] ((ino - 1) / per) < ceil_div(
        inodes,
        per,
    ) by {
        assert((ino - 1) / per < (inodes + per - 1) / per) by (nonlinear_arith)
            requires
                0 < ino <= inodes,
                0 < per,
        ;
    }
}

/// The first block of each group's inode table.
fn read_tables(image: &Vec<u8>, gdt: u64, groups: u64, desc: u64, wide: bool) -> (r: Vec<u64>)
    requires
        32 <= desc <= 0xFFFF,
        groups <= u32::MAX,
        gdt == gdt_offset(image@),
        desc == desc_size(image@),
        wide == is_64bit(image@),
        groups == 0 || gdt + groups * desc <= image.len(),
    ensures
        r.len() == groups,
        forall|g: int| 0 <= g < groups ==> #[trigger] r@[g] == inode_table(image@, g),
{
    let mut v: Vec<u64> = Vec::new();
    let mut g: u64 = 0;
    while g < groups
        invariant
            g <= groups <= u32::MAX,
            32 <= desc <= 0xFFFF,
            gdt == gdt_offset(image@),
            desc == desc_size(image@),
            wide == is_64bit(image@),
            groups == 0 || gdt + groups * desc <= image.len(),
            v.len() == g,
            forall|k: int| 0 <= k < g ==> #[trigger] v@[k] == inode_table(image@, k),
        decreases groups - g,
    {
        assert(g * desc + desc <= groups * desc) by (nonlinear_arith)
            requires
                g + 1 <= groups,
                0 < desc,
        ;
        let d: usize = (gdt + g * desc) as usize;
        let low: u64 = get32(image, d + 8) as u64;
        let high: u64 = if wide && desc >= 64 {
            get32(image, d + 0x28) as u64
        } else {
            0
        };
        v.push(low + 0x1_0000_0000 * high);
        g += 1;
    }
    v
}

impl Ext4 {
    /// What opening an image establishes.
    #[verifier::opaque]
    pub closed spec fn inv(&self) -> bool {
        &&& open_fault(self.image@) is None
        &&& self.block_size == block_size(self.image@)
        &&& self.blocks_count == blocks_count(self.image@)
        &&& self.inodes_count == inodes_count(self.image@)
        &&& self.inodes_per_group == inodes_per_group(self.image@)
        &&& self.inode_size == inode_size(self.image@)
        &&& self.inode_tables.len() == groups(self.image@)
        &&& forall|g: int|
            0 <= g < self.inode_tables.len() ==> #[trigger] self.inode_tables@[g] == inode_table(
                self.image@,
                g,
            )
    }

    /// The plain numbers behind an open image.
    proof fn numbers(&self)
        requires
            self.inv(),
        ensures
            self.image.len() >= 2048,
            self.block_size == block_size(self.image@),
            1024 <= self.block_size <= 65536,
            self.block_size % 1024 == 0,
            self.blocks_count == blocks_count(self.image@),
            self.inodes_count == inodes_count(self.image@),
            self.inode_size == inode_size(self.image@),
            128 <= self.inode_size <= 0xFFFF,
    {
        reveal(Ext4::inv);
        lemma_block_size(self.image@);
    }

    /// Opens an image.
    pub fn open(image: Vec<u8>) -> (r: Result<Self, Error>)
        ensures
            match r {
                Ok(fs) => open_fault(image@) is None && fs.inv() && fs@ == image@,
                Err(e) => open_fault(image@) == Some(e),
            },
    {
        if image.len() < 2048 {
            return Err(Error::UnexpectedEof);
        }
        if get16(&image, 0x438) != EXT4_MAGIC {
            return Err(Error::NotExt4);
        }
        let log: u32 = get32(&image, 0x418);
        if log > 6 {
            return Err(Error::BadBlockSize);
        }
        let incompat: u32 = get32(&image, 0x460);
        if incompat & INCOMPAT_UNSUPPORTED != 0 {
            return Err(Error::UnsupportedFeatures);
        }
        let wide: bool = incompat & INCOMPAT_64BIT != 0;
        let inodes_count: u32 = get32(&image, 0x400);
        let inodes_per_group: u32 = get32(&image, 0x428);
        let inode_size: u64 = if get32(&image, 0x44C) == 0 {
            128
        } else {
            get16(&image, 0x458) as u64
        };
        if inodes_per_group == 0 || inode_size < 128 {
            return Err(Error::BadSuperblock);
        }
        let block_size: u64 = size_of_log(log);
        let blocks_count: u64 = get32(&image, 0x404) as u64 + (if wide {
            0x1_0000_0000 * get32(&image, 0x550) as u64
        } else {
            0
        });
        let desc: u64 = if wide && get16(&image, 0x4FE) > 32 {
            get16(&image, 0x4FE) as u64
        } else {
            32
        };
        let first: u32 = get32(&image, 0x414);
        proof {
            lemma_log_size(image@);
            lemma_groups(inodes_count as int, inodes_per_group as int);
        }
        let groups: u64 = crate::bytes::div_up(inodes_count as u64, inodes_per_group as u64);
        assert((first + 1) * block_size <= 0x1_0000_0000 * 65536) by (nonlinear_arith)
            requires
                first <= u32::MAX,
                0 < block_size <= 65536,
        ;
        assert(groups * desc <= 0x1_0000_0000 * 65536) by (nonlinear_arith)
            requires
                groups <= u32::MAX,
                desc <= 65536,
        ;
        let gdt: u64 = (first as u64 + 1) * block_size;
        match read_at(&image, gdt, groups * desc) {
            Ok(_) => {},
            Err(e) => {
                return Err(e);
            },
        }
        assert(groups > 0 ==> groups * desc > 0) by (nonlinear_arith)
            requires
                desc > 0,
        ;
        let inode_tables: Vec<u64> = read_tables(&image, gdt, groups, desc, wide);
        let fs: Ext4 = Ext4 {
            image,
            block_size,
            blocks_count,
            inodes_count,
            inodes_per_group,
            inode_size,
            inode_tables,
        };
        assert(fs.inv()) by {
            reveal(Ext4::inv);
        }
        Ok(fs)
    }

    fn read_block(&self, block: u64) -> (r: Result<&[u8], Error>)
        requires
            self.inv(),
            block < 0x1_0000_0000_0000,
        ensures
            match r {
                Ok(b) => block_at(self.image@, block as int) == Ok::<Seq<u8>, Error>(b@),
                Err(e) => block_at(self.image@, block as int) == Err::<Seq<u8>, Error>(e),
            },
    {
        proof {
            self.numbers();
        }
        if block >= self.blocks_count {
            return Err(Error::BlockOutside);
        }
        let bs: u64 = self.block_size;
        assert(block * bs <= 0xFFFF_FFFF_FFFF * 65536) by (nonlinear_arith)
            requires
                block <= 0xFFFF_FFFF_FFFF,
                bs <= 65536,
        ;
        read_at(&self.image, block * bs, bs)
    }

    fn inode(&self, ino: u32) -> (r: Result<Inode, Error>)
        requires
            self.inv(),
        ensures
            match r {
                Ok(i) => {
                    &&& inode_at(self.image@, ino as int) == Ok::<InodeView, Error>(i@)
                    &&& i.block.len() == 60
                    &&& i.file_acl < 0x1_0000_0000_0000
                    &&& i.xattr_area.len() <= 65536
                },
                Err(e) => inode_at(self.image@, ino as int) == Err::<InodeView, Error>(e),
            },
    {
        proof {
            self.numbers();
        }
        if ino == 0 || ino > self.inodes_count {
            return Err(Error::InodeOutside);
        }
        proof {
            reveal(Ext4::inv);
            self.numbers();
            lemma_groups(self.inodes_count as int, self.inodes_per_group as int);
            assert((ino - 1) / (self.inodes_per_group as int) < groups(self.image@));
        }
        let group: usize = ((ino - 1) / self.inodes_per_group) as usize;
        let index: u32 = (ino - 1) % self.inodes_per_group;
        let table: u64 = self.inode_tables[group];
        let bs: u64 = self.block_size;
        let isize: u64 = self.inode_size;
        assert(inode_size(self.image@) <= 0xFFFF);
        assert(table * bs <= u64::MAX * 65536) by (nonlinear_arith)
            requires
                table <= u64::MAX,
                bs <= 65536,
        ;
        assert(index * isize <= u32::MAX * 65536) by (nonlinear_arith)
            requires
                index <= u32::MAX,
                isize <= 65536,
        ;
        let offset: u128 = table as u128 * bs as u128 + (index as u64 * isize) as u128;
        if offset > self.image.len() as u128 {
            return Err(Error::UnexpectedEof);
        }
        match read_at(&self.image, offset as u64, isize) {
            Ok(b) => Ok(self.parse_inode(b)),
            Err(e) => Err(e),
        }
    }

    fn parse_inode(&self, b: &[u8]) -> (r: Inode)
        requires
            self.inv(),
            128 <= b.len() <= 0xFFFF,
        ensures
            r@ == inode_in(self.image@, b@),
            r.block.len() == 60,
            r.file_acl < 0x1_0000_0000_0000,
            r.xattr_area.len() <= 65536,
    {
        proof {
            self.numbers();
        }
        let n: usize = b.len();
        let flags: u32 = get32(b, 0x20);
        let mut sectors: u64 = get32(b, 0x1C) as u64 + 0x1_0000_0000 * get16(b, 0x74) as u64;
        if flags & FLAG_HUGE_FILE != 0 {
            let per: u64 = self.block_size / 512;
            assert(sectors * per <= 0x1_0000_0000_0000 * 128) by (nonlinear_arith)
                requires
                    sectors <= 0x1_0000_0000_0000,
                    per <= 128,
            ;
            sectors = sectors * per;
        }
        let t: u32 = get32(b, 0x10);
        let mut mtime: i64 = if t >= 0x8000_0000 {
            t as i64 - 0x1_0000_0000
        } else {
            t as i64
        };
        let mut xattr_area: Vec<u8> = Vec::new();
        if n >= 130 {
            let extra: usize = get16(b, 0x80) as usize;
            if extra >= 12 && 128 + extra <= n {
                mtime = mtime + 0x1_0000_0000 * (get32(b, 0x88) % 4) as i64;
            }
            if 128 + extra + 4 <= n {
                xattr_area = copy_range(b, 128 + extra, n);
                assert(xattr_area@ =~= b@.skip(128 + extra));
            }
        }
        Inode {
            mode: get16(b, 0),
            uid: get16(b, 2) as u32 + 0x1_0000 * get16(b, 0x78) as u32,
            gid: get16(b, 0x18) as u32 + 0x1_0000 * get16(b, 0x7A) as u32,
            size: get32(b, 4) as u64 + 0x1_0000_0000 * get32(b, 0x6C) as u64,
            mtime,
            flags,
            sectors,
            block: copy_range(b, 0x28, 0x64),
            file_acl: get32(b, 0x68) as u64 + 0x1_0000_0000 * get16(b, 0x76) as u64,
            xattr_area,
        }
    }

    /// Appends the extents below a node of the extent tree.
    fn extent_node(&self, node: &[u8], level: u32, out: &mut Vec<Extent>) -> (r: Result<(), Error>)
        requires
            self.inv(),
            level <= 9,
            all_small(old(out)@),
        ensures
            match r {
                Ok(()) => {
                    &&& extents_in(self.image@, node@, level as int) is Ok
                    &&& extents_view(final(out)@) == extents_view(old(out)@) + extents_in(
                        self.image@,
                        node@,
                        level as int,
                    )->Ok_0
                    &&& all_small(final(out)@)
                },
                Err(e) => extents_in(self.image@, node@, level as int) == Err::<
                    Seq<ExtentView>,
                    Error,
                >(e),
            },
        decreases 10 - level,
    {
        if level > 8 || node.len() < 12 || get16(node, 0) != EXTENT_MAGIC {
            return Err(Error::BadExtentTree);
        }
        let count: usize = get16(node, 2) as usize;
        let depth: u16 = get16(node, 6);
        if 12 + 12 * count > node.len() {
            return Err(Error::ExtentNodeOverflows);
        }
        let ghost base = extents_view(out@);
        let ghost total = chain(base, extents_from(self.image@, node@, level as int, 0));
        let mut n: usize = 0;
        while n < count
            invariant
                self.inv(),
                n <= count,
                level <= 8,
                count == le16(node@, 2),
                depth == le16(node@, 6),
                12 + 12 * count <= node.len(),
                total == chain(base, extents_from(self.image@, node@, level as int, 0)),
                extents_in(self.image@, node@, level as int) == extents_from(
                    self.image@,
                    node@,
                    level as int,
                    0,
                ),
                all_small(out@),
                chain(
                    extents_view(out@),
                    extents_from(self.image@, node@, level as int, n as int),
                ) == total,
            decreases count - n,
        {
            let at: usize = 12 + 12 * n;
            let ghost prev = extents_view(out@);
            let ghost rest = extents_from(self.image@, node@, level as int, n + 1);
            if depth == 0 {
                let raw: u64 = get16(node, at + 4) as u64;
                let e: Extent = Extent {
                    logical: get32(node, at) as u64,
                    physical: get32(node, at + 8) as u64 + 0x1_0000_0000 * get16(
                        node,
                        at + 6,
                    ) as u64,
                    len: if raw > 32768 {
                        raw - 32768
                    } else {
                        raw
                    },
                    uninit: raw > 32768,
                };
                out.push(e);
                proof {
                    assert(e@ == leaf_in(node@, at as int));
                    assert(extents_view(out@) =~= prev.push(e@));
                    lemma_chain_push(prev, e@, rest);
                }
            } else {
                let child: u64 = get32(node, at + 4) as u64 + 0x1_0000_0000 * get16(
                    node,
                    at + 8,
                ) as u64;
                let block: &[u8] = match self.read_block(child) {
                    Ok(b) => b,
                    Err(e) => {
                        return Err(e);
                    },
                };
                match self.extent_node(block, level + 1, out) {
                    Ok(()) => {},
                    Err(e) => {
                        return Err(e);
                    },
                }
                proof {
                    lemma_chain_append(
                        prev,
                        extents_in(self.image@, block@, level + 1)->Ok_0,
                        rest,
                    );
                }
            }
            n += 1;
        }
        assert(extents_view(out@) + Seq::<ExtentView>::empty() =~= extents_view(out@));
        Ok(())
    }
}

/// An extent whose numbers leave room for arithmetic.
spec fn small(e: Extent) -> bool {
    &&& e.logical < 0x100_0000_0000_0000
    &&& e.physical < 0x1_0000_0000_0000
    &&& e.len < 0x100_0000_0000_0000
}

fn span_of(per: u64, depth: u32) -> (r: u64)
    requires
        per <= 16384,
        depth <= 3,
    ensures
        r == span(per as int, depth as int),
        r <= 0x400_0000_0000,
{
    reveal_with_fuel(span, 4);
    assert(per * per <= 16384 * 16384 && per * (per * per) <= 16384 * (16384 * 16384))
        by (nonlinear_arith)
        requires
            per <= 16384,
    ;
    assert(per * (per * 1) == per * per && per * 1 == per) by (nonlinear_arith);
    if depth == 0 {
        1
    } else if depth == 1 {
        per
    } else if depth == 2 {
        per * per
    } else {
        per * (per * per)
    }
}

spec fn all_small(v: Seq<Extent>) -> bool {
    forall|k: int| 0 <= k < v.len() ==> small(#[trigger] v[k])
}

spec fn map_view(logical: u64, out: Seq<Extent>) -> MapView {
    MapView { logical: logical as int, out: extents_view(out) }
}

/// Adds a data block at `logical`.
fn push_block(out: &mut Vec<Extent>, logical: u64, ptr: u64)
    requires
        all_small(old(out)@),
        logical < 0x80_0000_0000_0000,
        ptr <= u32::MAX,
    ensures
        all_small(final(out)@),
        extents_view(final(out)@) == with_block(map_view(logical, old(out)@), ptr as int).out,
{
    let n: usize = out.len();
    if n > 0 {
        let e: Extent = out[n - 1];
        assert(extents_view(out@).last() == e@);
        assert(small(out@[n - 1]));
        if !e.uninit && e.logical + e.len == logical && e.physical + e.len == ptr {
            let longer: Extent = Extent { len: e.len + 1, ..e };
            out.set(n - 1, longer);
            assert(extents_view(out@) =~= with_block(
                map_view(logical, old(out)@),
                ptr as int,
            ).out);
            return;
        }
    }
    out.push(Extent { logical, physical: ptr, len: 1, uninit: false });
    assert(extents_view(out@) =~= with_block(map_view(logical, old(out)@), ptr as int).out);
}

impl Ext4 {
    /// Legacy block map: `depth` 0 is a data block, 1-3 indirect blocks.
    fn map_indirect(
        &self,
        ptr: u64,
        depth: u32,
        logical: &mut u64,
        nblocks: u64,
        out: &mut Vec<Extent>,
    ) -> (r: Result<(), Error>)
        requires
            self.inv(),
            ptr <= u32::MAX,
            depth <= 3,
            *old(logical) < nblocks <= 0x40_0000_0000_0000,
            all_small(old(out)@),
        ensures
            match r {
                Ok(()) => {
                    &&& mapped(
                        self.image@,
                        ptr as int,
                        depth as int,
                        map_view(*old(logical), old(out)@),
                        nblocks as int,
                    ) == Ok::<MapView, Error>(map_view(*final(logical), final(out)@))
                    &&& *final(logical) <= nblocks + 0x400_0000_0000
                    &&& all_small(final(out)@)
                },
                Err(e) => mapped(
                    self.image@,
                    ptr as int,
                    depth as int,
                    map_view(*old(logical), old(out)@),
                    nblocks as int,
                ) == Err::<MapView, Error>(e),
            },
        decreases depth,
    {
        proof {
            self.numbers();
        }
        let per: u64 = self.block_size / 4;
        if ptr == 0 {
            *logical = *logical + span_of(per, depth);
            return Ok(());
        }
        if depth == 0 {
            push_block(out, *logical, ptr);
            *logical = *logical + 1;
            return Ok(());
        }
        let block: &[u8] = match self.read_block(ptr) {
            Ok(b) => b,
            Err(e) => {
                return Err(e);
            },
        };
        assert(block@.len() == block_size(self.image@));
        let ghost total = mapped_from(
            self.image@,
            block@,
            depth as int,
            0,
            map_view(*logical, out@),
            nblocks as int,
        );
        let mut i: usize = 0;
        while i < per as usize && *logical < nblocks
            invariant
                self.inv(),
                i <= per,
                per == block_size(self.image@) / 4,
                per <= 16384,
                block@.len() == block_size(self.image@),
                block.len() >= 4 * per,
                0 < depth <= 3,
                nblocks <= 0x40_0000_0000_0000,
                *logical <= nblocks + 0x400_0000_0000,
                all_small(out@),
                total == mapped(
                    self.image@,
                    ptr as int,
                    depth as int,
                    map_view(*old(logical), old(out)@),
                    nblocks as int,
                ),
                mapped_from(
                    self.image@,
                    block@,
                    depth as int,
                    i as int,
                    map_view(*logical, out@),
                    nblocks as int,
                ) == total,
            decreases per - i,
        {
            let next: u64 = get32(block, 4 * i) as u64;
            match self.map_indirect(next, depth - 1, logical, nblocks, out) {
                Ok(()) => {},
                Err(e) => {
                    return Err(e);
                },
            }
            i += 1;
        }
        Ok(())
    }

    /// The extents of a legacy block map.
    fn block_map(&self, inode: &Inode) -> (r: Result<Vec<Extent>, Error>)
        requires
            self.inv(),
            inode.block.len() == 60,
        ensures
            match r {
                Ok(v) => {
                    &&& all_small(v@)
                    &&& exists|st: MapView|
                        #![auto]
                        st.out == extents_view(v@) && pointers_from(
                            self.image@,
                            inode@.block,
                            0,
                            MapView { logical: 0, out: Seq::empty() },
                            ceil_div(inode@.size, block_size(self.image@)),
                        ) == Ok::<MapView, Error>(st)
                },
                Err(e) => pointers_from(
                    self.image@,
                    inode@.block,
                    0,
                    MapView { logical: 0, out: Seq::empty() },
                    ceil_div(inode@.size, block_size(self.image@)),
                ) == Err::<MapView, Error>(e),
            },
    {
        proof {
            self.numbers();
            lemma_block_count(inode.size as int, block_size(self.image@));
        }
        let bs: u64 = self.block_size;
        let nblocks: u64 = inode.size / bs + (if inode.size % bs == 0 {
            0
        } else {
            1
        });
        let mut logical: u64 = 0;
        let mut out: Vec<Extent> = Vec::new();
        assert(extents_view(out@) =~= Seq::empty());
        let ghost total = pointers_from(
            self.image@,
            inode.block@,
            0,
            map_view(logical, out@),
            nblocks as int,
        );
        let mut i: usize = 0;
        while i < 15 && logical < nblocks
            invariant
                self.inv(),
                i <= 15,
                inode.block.len() == 60,
                nblocks <= 0x40_0000_0000_0000,
                nblocks == ceil_div(inode@.size, block_size(self.image@)),
                logical <= nblocks + 0x400_0000_0000,
                all_small(out@),
                total == pointers_from(
                    self.image@,
                    inode@.block,
                    0,
                    MapView { logical: 0, out: Seq::empty() },
                    nblocks as int,
                ),
                pointers_from(
                    self.image@,
                    inode.block@,
                    i as int,
                    map_view(logical, out@),
                    nblocks as int,
                ) == total,
            decreases 15 - i,
        {
            let ptr: u64 = get32(&inode.block, 4 * i) as u64;
            let depth: u32 = if i > 11 {
                i as u32 - 11
            } else {
                0
            };
            match self.map_indirect(ptr, depth, &mut logical, nblocks, &mut out) {
                Ok(()) => {},
                Err(e) => {
                    return Err(e);
                },
            }
            i += 1;
        }
        assert(total == Ok::<MapView, Error>(map_view(logical, out@)));
        Ok(out)
    }

    /// Maps the logical blocks of an inode to physical blocks.
    fn extents(&self, inode: &Inode) -> (r: Result<Vec<Extent>, Error>)
        requires
            self.inv(),
            inode.block.len() == 60,
        ensures
            match r {
                Ok(v) => extents_of(self.image@, inode@) == Ok::<Seq<ExtentView>, Error>(
                    extents_view(v@),
                ) && all_small(v@),
                Err(e) => extents_of(self.image@, inode@) == Err::<Seq<ExtentView>, Error>(e),
            },
    {
        proof {
            reveal(extents_of);
        }
        if inode.flags & FLAG_EXTENTS != 0 {
            let mut out: Vec<Extent> = Vec::new();
            assert(extents_view(out@) =~= Seq::empty());
            match self.extent_node(&inode.block, 0, &mut out) {
                Ok(()) => {
                    assert(extents_view(out@) =~= extents_in(self.image@, inode.block@, 0)->Ok_0);
                    Ok(sort_extents(&out))
                },
                Err(e) => Err(e),
            }
        } else {
            match self.block_map(inode) {
                Ok(out) => Ok(sort_extents(&out)),
                Err(e) => Err(e),
            }
        }
    }
}

proof fn lemma_block_count(size: int, bs: int)
    requires
        0 <= size <= u64::MAX,
        1024 <= bs <= 65536,
    ensures
        size / bs + (if size % bs == 0 {
            0int
        } else {
            1
        }) == ceil_div(size, bs),
        0 <= size / bs < 0x40_0000_0000_0000,
        0 <= ceil_div(size, bs) <= 0x40_0000_0000_0000,
{
    let q = size / bs;
    let r = size % bs;
    assert(size == q * bs + r && 0 <= r < bs) by (nonlinear_arith)
        requires
            0 < bs,
            q == size / bs,
            r == size % bs,
    ;
    if r == 0 {
        assert((size + bs - 1) / bs == q) by (nonlinear_arith)
            requires
                size == q * bs,
                0 < bs,
        ;
    } else {
        assert((size + bs - 1) / bs == q + 1) by (nonlinear_arith)
            requires
                size == q * bs + r,
                0 < r < bs,
        ;
    }
    assert(0 <= q < 0x40_0000_0000_0000) by (nonlinear_arith)
        requires
            0 <= size <= u64::MAX,
            q == size / bs,
            1024 <= bs,
    ;
}

/// Sorts extents by their logical blocks; equal ones keep their order.
fn sort_extents(extents: &Vec<Extent>) -> (r: Vec<Extent>)
    requires
        all_small(extents@),
    ensures
        extents_view(r@) == by_logical(extents_view(extents@), extents@.len() as int),
        all_small(r@),
{
    let ghost all = extents_view(extents@);
    let mut out: Vec<Extent> = Vec::new();
    let mut n: usize = 0;
    while n < extents.len()
        invariant
            n <= extents.len(),
            all == extents_view(extents@),
            all_small(extents@),
            all_small(out@),
            out.len() == n,
            extents_view(out@) =~= by_logical(all, n as int),
        decreases extents.len() - n,
    {
        let e: Extent = extents[n];
        assert(all[n as int] == e@);
        assert(small(extents@[n as int]));
        let ghost sorted = extents_view(out@);
        let mut at: usize = n;
        while at > 0 && out[at - 1].logical > e.logical
            invariant
                at <= n,
                n == out.len(),
                sorted == extents_view(out@),
                extent_place(sorted, n as int, e.logical as int) == extent_place(
                    sorted,
                    at as int,
                    e.logical as int,
                ),
            decreases at,
        {
            at -= 1;
        }
        out.insert(at, e);
        n += 1;
        assert(extents_view(out@) =~= sorted.insert(at as int, e@));
        assert(sorted.len() == n - 1);
    }
    out
}

spec fn path_view(path: Seq<u32>) -> Seq<int> {
    path.map_values(|i: u32| i as int)
}

fn prefix_of(index: u8) -> (r: &'static str)
    ensures
        r@ == prefix_text(index as int),
{
    if index == 1 {
        "user."
    } else if index == 2 {
        "system.posix_acl_access"
    } else if index == 3 {
        "system.posix_acl_default"
    } else if index == 4 {
        "trusted."
    } else if index == 6 {
        "security."
    } else if index == 7 {
        "system."
    } else if index == 8 {
        "system.richacl"
    } else {
        ""
    }
}

/// `v` cut off at `size` bytes.
fn cut_off(v: Vec<u8>, size: u64) -> (r: Vec<u8>)
    ensures
        r@ == cut(v@, size as int),
{
    let mut out: Vec<u8> = v;
    if size < out.len() as u64 {
        out.truncate(size as usize);
        assert(out@ =~= cut(v@, size as int));
    }
    out
}

/// Appends `n` zero bytes.
fn push_many_zeros(v: &mut Vec<u8>, n: u64)
    ensures
        final(v)@ == old(v)@ + zero_seq(n as int),
{
    let mut i: u64 = 0;
    while i < n
        invariant
            0 <= i <= n,
            v@ =~= old(v)@ + zero_seq(i as int),
        decreases n - i,
    {
        v.push(0);
        i += 1;
    }
}

/// Appends the first value named `system.data`.
fn push_system_data(data: &mut Vec<u8>, xattrs: &Vec<(String, Vec<u8>)>)
    ensures
        final(data)@ == old(data)@ + system_data(xattrs_view(xattrs@), 0),
{
    let ghost all = xattrs_view(xattrs@);
    let mut i: usize = 0;
    while i < xattrs.len()
        invariant
            i <= xattrs.len(),
            all == xattrs_view(xattrs@),
            data@ == old(data)@,
            system_data(all, 0) == system_data(all, i as int),
        decreases xattrs.len() - i,
    {
        assert(all[i as int] == (xattrs@[i as int].0@, xattrs@[i as int].1@));
        if same_text(xattrs[i].0.as_str(), "system.data") {
            push_bytes(data, &xattrs[i].1);
            return;
        }
        i += 1;
    }
    assert(data@ + Seq::<u8>::empty() =~= data@);
}

/// The full name of the xattr entry at byte `i`.
pub open spec fn entry_name(entries: Seq<u8>, i: int) -> Seq<char> {
    prefix_text(entries[i + 1] as int) + text_of(entries.subrange(i + 16, i + 16 + entries[i]))
}

pub proof fn lemma_xattrs_end(
    image: Seq<u8>,
    entries: Seq<u8>,
    values: Seq<u8>,
    i: int,
    path: Seq<int>,
)
    requires
        i + 16 > entries.len() || le32(entries, i) == 0,
    ensures
        xattrs_from(image, entries, values, i, path) == Ok::<Seq<(Seq<char>, Seq<u8>)>, Error>(
            Seq::empty(),
        ),
{
    reveal(xattrs_from);
}

pub proof fn lemma_xattrs_step(
    image: Seq<u8>,
    entries: Seq<u8>,
    values: Seq<u8>,
    i: int,
    path: Seq<int>,
)
    requires
        0 <= i,
        i + 16 <= entries.len(),
        le32(entries, i) != 0,
    ensures
        xattrs_from(image, entries, values, i, path) == (if i + 16 + entries[i] > entries.len() {
            Err::<Seq<(Seq<char>, Seq<u8>)>, Error>(Error::XattrPastBlock)
        } else {
            match xattr_value(image, entries, values, i, path) {
                Err(e) => Err(e),
                Ok(v) => chain(
                    seq![(entry_name(entries, i), v)],
                    xattrs_from(image, entries, values, i + round_up_4(16 + entries[i]), path),
                ),
            }
        }),
{
    reveal(xattrs_from);
    reveal(xattr_value);
}

/// The xattrs in the inode come first.
pub proof fn lemma_xattrs_join(
    image: Seq<u8>,
    inode: InodeView,
    path: Seq<int>,
    x: Seq<(Seq<char>, Seq<u8>)>,
    y: Seq<(Seq<char>, Seq<u8>)>,
)
    requires
        inner_xattrs(image, inode, path) == Ok::<Seq<(Seq<char>, Seq<u8>)>, Error>(x),
        outer_xattrs(image, inode, path) == Ok::<Seq<(Seq<char>, Seq<u8>)>, Error>(y),
    ensures
        xattrs_of(image, inode, path) == Ok::<Seq<(Seq<char>, Seq<u8>)>, Error>(x + y),
{
    reveal(xattrs_of);
    reveal(inner_xattrs);
    reveal(outer_xattrs);
}

/// A value that stands in the same block as its entry.
pub proof fn lemma_plain_value(
    image: Seq<u8>,
    entries: Seq<u8>,
    values: Seq<u8>,
    i: int,
    path: Seq<int>,
)
    requires
        le32(entries, i + 4) == 0,
        le16(entries, i + 2) + le32(entries, i + 8) <= values.len(),
    ensures
        xattr_value(image, entries, values, i, path) == Ok::<Seq<u8>, Error>(
            values.subrange(
                le16(entries, i + 2),
                le16(entries, i + 2) + le32(entries, i + 8),
            ),
        ),
{
    reveal(xattr_value);
}

/// The byte offset of a block, cut off at `size`.
fn offset_in_file(block: u64, bs: u64, size: u64) -> (r: u64)
    requires
        bs <= 65536,
    ensures
        r == smaller(block * bs, size as int),
{
    assert(block * bs <= u64::MAX * 65536) by (nonlinear_arith)
        requires
            block <= u64::MAX,
            bs <= 65536,
    ;
    let at: u128 = block as u128 * bs as u128;
    if at < size as u128 {
        at as u64
    } else {
        size
    }
}

proof fn lemma_offsets(a: int, len: int, bs: int, size: int)
    requires
        0 <= len,
        0 <= bs,
    ensures
        smaller(a * bs, size) <= smaller((a + len) * bs, size),
{
    assert(a * bs <= (a + len) * bs) by (nonlinear_arith)
        requires
            0 <= len,
            0 <= bs,
    ;
}

impl Ext4 {
    /// Appends the bytes of one extent, when `pos` bytes of the file come
    /// before; gives the bytes that come before the next one.
    fn push_extent(&self, out: &mut Vec<u8>, e: &Extent, pos: u64, size: u64) -> (r: Result<
        u64,
        Error,
    >)
        requires
            self.inv(),
            small(*e),
            pos <= size,
        ensures
            match r {
                Ok(end) => {
                    &&& extent_bytes(self.image@, e@, pos as int, size as int) is Ok
                    &&& final(out)@ == old(out)@ + extent_bytes(
                        self.image@,
                        e@,
                        pos as int,
                        size as int,
                    )->Ok_0
                    &&& end == smaller(
                        (e@.logical + e@.len) * block_size(self.image@),
                        size as int,
                    )
                    &&& end <= size
                },
                Err(x) => extent_bytes(self.image@, e@, pos as int, size as int) == Err::<
                    Seq<u8>,
                    Error,
                >(x),
            },
    {
        proof {
            self.numbers();
            lemma_offsets(
                e.logical as int,
                e.len as int,
                block_size(self.image@),
                size as int,
            );
        }
        let bs: u64 = self.block_size;
        let start: u64 = offset_in_file(e.logical, bs, size);
        let end: u64 = offset_in_file(e.logical + e.len, bs, size);
        if start < pos {
            return Err(Error::OverlappingExtents);
        }
        if e.uninit {
            push_many_zeros(out, end - pos);
            return Ok(end);
        }
        if e.physical + e.len > self.blocks_count {
            return Err(Error::ExtentOutside);
        }
        let physical: u64 = e.physical;
        assert(physical * bs <= 0xFFFF_FFFF_FFFF * 65536) by (nonlinear_arith)
            requires
                physical <= 0xFFFF_FFFF_FFFF,
                bs <= 65536,
        ;
        match read_at(&self.image, physical * bs, end - start) {
            Ok(b) => {
                push_many_zeros(out, start - pos);
                push_bytes(out, b);
                assert(out@ =~= old(out)@ + (zero_seq(start - pos) + b@));
                Ok(end)
            },
            Err(x) => Err(x),
        }
    }

    /// The bytes that the extents of an inode map.
    fn mapped_data(&self, inode: &Inode) -> (r: Result<Vec<u8>, Error>)
        requires
            self.inv(),
            inode.block.len() == 60,
        ensures
            match r {
                Ok(v) => {
                    &&& extents_of(self.image@, inode@) is Ok
                    &&& bytes_from(
                        self.image@,
                        extents_of(self.image@, inode@)->Ok_0,
                        0,
                        0,
                        inode@.size,
                    ) == Ok::<Seq<u8>, Error>(v@)
                },
                Err(e) => match extents_of(self.image@, inode@) {
                    Err(x) => x == e,
                    Ok(x) => bytes_from(self.image@, x, 0, 0, inode@.size) == Err::<
                        Seq<u8>,
                        Error,
                    >(e),
                },
            },
    {
        proof {
            self.numbers();
        }
        let extents: Vec<Extent> = match self.extents(inode) {
            Ok(x) => x,
            Err(e) => {
                return Err(e);
            },
        };
        let size: u64 = inode.size;
        let ghost all = extents_view(extents@);
        let ghost total = bytes_from(self.image@, all, 0, 0, size as int);
        let mut out: Vec<u8> = Vec::new();
        proof {
            assert(out@ =~= Seq::empty());
            lemma_chain_empty(total);
        }
        let mut pos: u64 = 0;
        let mut k: usize = 0;
        while k < extents.len()
            invariant
                self.inv(),
                k <= extents.len(),
                pos <= size,
                size == inode.size,
                all == extents_view(extents@),
                extents_of(self.image@, inode@) == Ok::<Seq<ExtentView>, Error>(all),
                all_small(extents@),
                total == bytes_from(self.image@, all, 0, 0, size as int),
                chain(
                    out@,
                    bytes_from(self.image@, all, k as int, pos as int, size as int),
                ) == total,
            decreases extents.len() - k,
        {
            let e: &Extent = &extents[k];
            assert(all[k as int] == e@);
            assert(small(extents@[k as int]));
            let ghost prev = out@;
            match self.push_extent(&mut out, e, pos, size) {
                Ok(end) => {
                    proof {
                        lemma_chain_append(
                            prev,
                            extent_bytes(self.image@, e@, pos as int, size as int)->Ok_0,
                            bytes_from(self.image@, all, k + 1, end as int, size as int),
                        );
                    }
                    pos = end;
                },
                Err(x) => {
                    return Err(x);
                },
            }
            k += 1;
        }
        push_many_zeros(&mut out, size - pos);
        Ok(out)
    }

    /// The content of an inode (holes and unwritten extents as zeros).
    fn data(&self, inode: &Inode, path: &Vec<u32>) -> (r: Result<Vec<u8>, Error>)
        requires
            self.inv(),
            inode.block.len() == 60,
            inode.file_acl < 0x1_0000_0000_0000,
            inode.xattr_area.len() <= 65536,
            path.len() <= self.inodes_count,
        ensures
            match r {
                Ok(v) => data_of(self.image@, inode@, path_view(path@)) == Ok::<Seq<u8>, Error>(
                    v@,
                ),
                Err(e) => data_of(self.image@, inode@, path_view(path@)) == Err::<Seq<u8>, Error>(
                    e,
                ),
            },
        decreases self.inodes_count - path.len(), 5int,
    {
        proof {
            reveal(data_of);
            reveal(inline_of);
            self.numbers();
        }
        if inode.flags & FLAG_ENCRYPT != 0 {
            return Err(Error::EncryptedFile);
        }
        if inode.flags & FLAG_INLINE_DATA != 0 {
            return match self.inline_data(inode, path) {
                Ok(d) => Ok(cut_off(d, inode.size)),
                Err(e) => Err(e),
            };
        }
        self.mapped_data(inode)
    }

    /// Inline data: the first 60 bytes live in the inode, the rest in the
    /// `system.data` xattr.
    fn inline_data(&self, inode: &Inode, path: &Vec<u32>) -> (r: Result<Vec<u8>, Error>)
        requires
            self.inv(),
            inode.block.len() == 60,
            inode.file_acl < 0x1_0000_0000_0000,
            inode.xattr_area.len() <= 65536,
            path.len() <= self.inodes_count,
        ensures
            match r {
                Ok(v) => inline_of(self.image@, inode@, path_view(path@)) == Ok::<Seq<u8>, Error>(
                    v@,
                ) && v.len() >= 60,
                Err(e) => inline_of(self.image@, inode@, path_view(path@)) == Err::<Seq<u8>, Error>(
                    e,
                ),
            },
        decreases self.inodes_count - path.len(), 4int,
    {
        proof {
            reveal(inline_of);
            reveal(xattrs_of);
            self.numbers();
        }
        let xattrs: Vec<(String, Vec<u8>)> = match self.xattrs(inode, path) {
            Ok(x) => x,
            Err(e) => {
                return Err(e);
            },
        };
        let mut data: Vec<u8> = Vec::new();
        push_bytes(&mut data, &inode.block);
        assert(data@ =~= inode@.block);
        push_system_data(&mut data, &xattrs);
        Ok(data)
    }

    /// The content of an inode that holds an xattr value.
    fn value(&self, ino: u32, path: &Vec<u32>) -> (r: Result<Vec<u8>, Error>)
        requires
            self.inv(),
            path.len() <= self.inodes_count,
        ensures
            match r {
                Ok(v) => value_in(self.image@, ino as int, path_view(path@)) == Ok::<
                    Seq<u8>,
                    Error,
                >(v@),
                Err(e) => value_in(self.image@, ino as int, path_view(path@)) == Err::<
                    Seq<u8>,
                    Error,
                >(e),
            },
        decreases self.inodes_count - path.len(), 0int,
    {
        proof {
            reveal(value_in);
            reveal(data_of);
            self.numbers();
        }
        let inode: Inode = match self.inode(ino) {
            Ok(i) => i,
            Err(e) => {
                return Err(e);
            },
        };
        let ghost all = path_view(path@);
        let mut longer: Vec<u32> = Vec::new();
        let mut i: usize = 0;
        while i < path.len()
            invariant
                i <= path.len(),
                all == path_view(path@),
                longer@ =~= path@.take(i as int),
                forall|k: int| 0 <= k < i ==> path@[k] != ino,
                inode_at(self.image@, ino as int) == Ok::<InodeView, Error>(inode@),
                all.contains(ino as int) ==> value_in(self.image@, ino as int, all) == Err::<
                    Seq<u8>,
                    Error,
                >(Error::XattrLoop),
            decreases path.len() - i,
        {
            if path[i] == ino {
                assert(all[i as int] == ino);
                assert(all.contains(ino as int));
                return Err(Error::XattrLoop);
            }
            longer.push(path[i]);
            i += 1;
        }
        assert(!all.contains(ino as int)) by {
            if all.contains(ino as int) {
                let k = choose|k: int| 0 <= k < all.len() && all[k] == ino;
                assert(path@[k] == ino);
            }
        }
        if path.len() as u64 >= self.inodes_count as u64 {
            return Err(Error::XattrLoop);
        }
        longer.push(ino);
        assert(path_view(longer@) =~= all.push(ino as int));
        self.data(&inode, &longer)
    }

    /// The value of the xattr entry at byte `i`.
    fn value_of(&self, entries: &[u8], values: &[u8], i: usize, path: &Vec<u32>) -> (r: Result<
        Vec<u8>,
        Error,
    >)
        requires
            self.inv(),
            i + 16 <= entries.len(),
            path.len() <= self.inodes_count,
        ensures
            match r {
                Ok(v) => xattr_value(
                    self.image@,
                    entries@,
                    values@,
                    i as int,
                    path_view(path@),
                ) == Ok::<Seq<u8>, Error>(v@),
                Err(e) => xattr_value(
                    self.image@,
                    entries@,
                    values@,
                    i as int,
                    path_view(path@),
                ) == Err::<Seq<u8>, Error>(e),
            },
        decreases self.inodes_count - path.len(), 1int,
    {
        proof {
            reveal(xattr_value);
            reveal(value_in);
        }
        let offs: u64 = get16(entries, i + 2) as u64;
        let inum: u32 = get32(entries, i + 4);
        let size: u64 = get32(entries, i + 8) as u64;
        if inum != 0 {
            return match self.value(inum, path) {
                Ok(v) => Ok(cut_off(v, size)),
                Err(e) => Err(e),
            };
        }
        if offs + size > values.len() as u64 {
            return Err(Error::XattrPastBlock);
        }
        Ok(copy_range(values, offs as usize, (offs + size) as usize))
    }

    /// Appends the xattrs in `entries`.
    fn parse_xattrs(
        &self,
        entries: &[u8],
        values: &[u8],
        path: &Vec<u32>,
        out: &mut Vec<(String, Vec<u8>)>,
    ) -> (r: Result<(), Error>)
        requires
            self.inv(),
            entries.len() <= 65536,
            path.len() <= self.inodes_count,
        ensures
            match r {
                Ok(()) => {
                    &&& xattrs_from(self.image@, entries@, values@, 0, path_view(path@)) is Ok
                    &&& xattrs_view(final(out)@) == xattrs_view(old(out)@) + xattrs_from(
                        self.image@,
                        entries@,
                        values@,
                        0,
                        path_view(path@),
                    )->Ok_0
                },
                Err(e) => xattrs_from(self.image@, entries@, values@, 0, path_view(path@)) == Err::<
                    Seq<(Seq<char>, Seq<u8>)>,
                    Error,
                >(e),
            },
        decreases self.inodes_count - path.len(), 2int,
    {
        let ghost pv = path_view(path@);
        let ghost base = xattrs_view(out@);
        let ghost total = chain(base, xattrs_from(self.image@, entries@, values@, 0, pv));
        let mut i: usize = 0;
        while i + 16 <= entries.len() && get32(entries, i) != 0
            invariant
                self.inv(),
                entries.len() <= 65536,
                path.len() <= self.inodes_count,
                i <= entries.len() + 4,
                i % 4 == 0,
                pv == path_view(path@),
                total == chain(base, xattrs_from(self.image@, entries@, values@, 0, pv)),
                chain(
                    xattrs_view(out@),
                    xattrs_from(self.image@, entries@, values@, i as int, pv),
                ) == total,
            decreases entries.len() + 4 - i,
        {
            proof {
                lemma_xattrs_step(self.image@, entries@, values@, i as int, pv);
            }
            let name_len: usize = entries[i] as usize;
            let name_end: usize = i + 16 + name_len;
            if name_end > entries.len() {
                return Err(Error::XattrPastBlock);
            }
            let mut name: String = prefix_of(entries[i + 1]).to_string();
            name.append(
                lossy(vstd::slice::slice_subrange(entries, i + 16, name_end)).as_str(),
            );
            assert(name@ == entry_name(entries@, i as int));
            let value: Vec<u8> = match self.value_of(entries, values, i, path) {
                Ok(v) => v,
                Err(e) => {
                    return Err(e);
                },
            };
            let ghost prev = xattrs_view(out@);
            let ghost rest = xattrs_from(
                self.image@,
                entries@,
                values@,
                i + round_up_4(16 + name_len),
                pv,
            );
            proof {
                lemma_chain_push(prev, (name@, value@), rest);
            }
            out.push((name, value));
            assert(xattrs_view(out@) =~= prev.push((name@, value@)));
            assert((name_end + 3) / 4 * 4 == i + round_up_4(16 + name_len));
            i = (name_end + 3) / 4 * 4;
        }
        proof {
            lemma_xattrs_end(self.image@, entries@, values@, i as int, pv);
        }
        assert(xattrs_view(out@) + Seq::<(Seq<char>, Seq<u8>)>::empty() =~= xattrs_view(out@));
        Ok(())
    }

    /// All xattrs of an inode as (full name, value).
    fn xattrs(&self, inode: &Inode, path: &Vec<u32>) -> (r: Result<Vec<(String, Vec<u8>)>, Error>)
        requires
            self.inv(),
            inode.file_acl < 0x1_0000_0000_0000,
            inode.xattr_area.len() <= 65536,
            path.len() <= self.inodes_count,
        ensures
            match r {
                Ok(v) => xattrs_of(self.image@, inode@, path_view(path@)) == Ok::<
                    Seq<(Seq<char>, Seq<u8>)>,
                    Error,
                >(xattrs_view(v@)),
                Err(e) => xattrs_of(self.image@, inode@, path_view(path@)) == Err::<
                    Seq<(Seq<char>, Seq<u8>)>,
                    Error,
                >(e),
            },
        decreases self.inodes_count - path.len(), 3int,
    {
        proof {
            reveal(xattrs_of);
            reveal(inner_xattrs);
            reveal(outer_xattrs);
            reveal(xattrs_from);
        }
        proof {
            self.numbers();
        }
        let ghost pv = path_view(path@);
        let mut out: Vec<(String, Vec<u8>)> = Vec::new();
        assert(xattrs_view(out@) =~= Seq::empty());
        let area: &Vec<u8> = &inode.xattr_area;
        let n: usize = area.len();
        if n >= 4 && get32(area, 0) == XATTR_MAGIC {
            let entries: &[u8] = vstd::slice::slice_subrange(area, 4, n);
            assert(entries@ =~= area@.skip(4));
            match self.parse_xattrs(entries, entries, path, &mut out) {
                Ok(()) => {},
                Err(e) => {
                    return Err(e);
                },
            }
        }
        let ghost inner = inner_xattrs(self.image@, inode@, pv)->Ok_0;
        assert(xattrs_view(out@) =~= inner);
        if inode.file_acl != 0 {
            let block: &[u8] = match self.read_block(inode.file_acl) {
                Ok(b) => b,
                Err(e) => {
                    return Err(e);
                },
            };
            assert(block@.len() == block_size(self.image@));
            let m: usize = block.len();
            if get32(block, 0) == XATTR_MAGIC {
                let entries: &[u8] = vstd::slice::slice_subrange(block, 32, m);
                assert(entries@ =~= block@.skip(32));
                match self.parse_xattrs(entries, block, path, &mut out) {
                    Ok(()) => {},
                    Err(e) => {
                        return Err(e);
                    },
                }
            } else {
                assert(xattrs_view(out@) + Seq::<(Seq<char>, Seq<u8>)>::empty() =~= inner);
            }
        } else {
            assert(xattrs_view(out@) + Seq::<(Seq<char>, Seq<u8>)>::empty() =~= inner);
        }
        Ok(out)
    }
}

/// The name of a compatible feature, as printed by dumpe2fs.
pub open spec fn compat_name(bit: int) -> Option<Seq<char>> {
    if bit == 0 {
        Some("dir_prealloc"@)
    } else if bit == 1 {
        Some("imagic_inodes"@)
    } else if bit == 2 {
        Some("has_journal"@)
    } else if bit == 3 {
        Some("ext_attr"@)
    } else if bit == 4 {
        Some("resize_inode"@)
    } else if bit == 5 {
        Some("dir_index"@)
    } else if bit == 9 {
        Some("sparse_super2"@)
    } else if bit == 10 {
        Some("fast_commit"@)
    } else if bit == 11 {
        Some("stable_inodes"@)
    } else if bit == 12 {
        Some("orphan_file"@)
    } else {
        None
    }
}

/// The name of an incompatible feature.
pub open spec fn incompat_name(bit: int) -> Option<Seq<char>> {
    if bit == 1 {
        Some("filetype"@)
    } else if bit == 2 {
        Some("needs_recovery"@)
    } else if bit == 3 {
        Some("journal_dev"@)
    } else if bit == 4 {
        Some("meta_bg"@)
    } else if bit == 6 {
        Some("extent"@)
    } else if bit == 7 {
        Some("64bit"@)
    } else if bit == 8 {
        Some("mmp"@)
    } else if bit == 9 {
        Some("flex_bg"@)
    } else if bit == 10 {
        Some("ea_inode"@)
    } else if bit == 12 {
        Some("dirdata"@)
    } else if bit == 13 {
        Some("metadata_csum_seed"@)
    } else if bit == 14 {
        Some("large_dir"@)
    } else if bit == 15 {
        Some("inline_data"@)
    } else if bit == 16 {
        Some("encrypt"@)
    } else if bit == 17 {
        Some("casefold"@)
    } else {
        None
    }
}

/// The name of a read-only compatible feature.
pub open spec fn ro_compat_name(bit: int) -> Option<Seq<char>> {
    if bit == 0 {
        Some("sparse_super"@)
    } else if bit == 1 {
        Some("large_file"@)
    } else if bit == 3 {
        Some("huge_file"@)
    } else if bit == 4 {
        Some("uninit_bg"@)
    } else if bit == 5 {
        Some("dir_nlink"@)
    } else if bit == 6 {
        Some("extra_isize"@)
    } else if bit == 8 {
        Some("quota"@)
    } else if bit == 9 {
        Some("bigalloc"@)
    } else if bit == 10 {
        Some("metadata_csum"@)
    } else if bit == 12 {
        Some("read-only"@)
    } else if bit == 13 {
        Some("project"@)
    } else if bit == 14 {
        Some("shared_blocks"@)
    } else if bit == 15 {
        Some("verity"@)
    } else if bit == 16 {
        Some("orphan_present"@)
    } else {
        None
    }
}

fn name_of_compat(bit: u32) -> (r: Option<&'static str>)
    ensures
        match r {
            Some(n) => compat_name(bit as int) == Some(n@),
            None => compat_name(bit as int) is None,
        },
{
    if bit == 0 {
        Some("dir_prealloc")
    } else if bit == 1 {
        Some("imagic_inodes")
    } else if bit == 2 {
        Some("has_journal")
    } else if bit == 3 {
        Some("ext_attr")
    } else if bit == 4 {
        Some("resize_inode")
    } else if bit == 5 {
        Some("dir_index")
    } else if bit == 9 {
        Some("sparse_super2")
    } else if bit == 10 {
        Some("fast_commit")
    } else if bit == 11 {
        Some("stable_inodes")
    } else if bit == 12 {
        Some("orphan_file")
    } else {
        None
    }
}

fn name_of_incompat(bit: u32) -> (r: Option<&'static str>)
    ensures
        match r {
            Some(n) => incompat_name(bit as int) == Some(n@),
            None => incompat_name(bit as int) is None,
        },
{
    if bit == 1 {
        Some("filetype")
    } else if bit == 2 {
        Some("needs_recovery")
    } else if bit == 3 {
        Some("journal_dev")
    } else if bit == 4 {
        Some("meta_bg")
    } else if bit == 6 {
        Some("extent")
    } else if bit == 7 {
        Some("64bit")
    } else if bit == 8 {
        Some("mmp")
    } else if bit == 9 {
        Some("flex_bg")
    } else if bit == 10 {
        Some("ea_inode")
    } else if bit == 12 {
        Some("dirdata")
    } else if bit == 13 {
        Some("metadata_csum_seed")
    } else if bit == 14 {
        Some("large_dir")
    } else if bit == 15 {
        Some("inline_data")
    } else if bit == 16 {
        Some("encrypt")
    } else if bit == 17 {
        Some("casefold")
    } else {
        None
    }
}

fn name_of_ro_compat(bit: u32) -> (r: Option<&'static str>)
    ensures
        match r {
            Some(n) => ro_compat_name(bit as int) == Some(n@),
            None => ro_compat_name(bit as int) is None,
        },
{
    if bit == 0 {
        Some("sparse_super")
    } else if bit == 1 {
        Some("large_file")
    } else if bit == 3 {
        Some("huge_file")
    } else if bit == 4 {
        Some("uninit_bg")
    } else if bit == 5 {
        Some("dir_nlink")
    } else if bit == 6 {
        Some("extra_isize")
    } else if bit == 8 {
        Some("quota")
    } else if bit == 9 {
        Some("bigalloc")
    } else if bit == 10 {
        Some("metadata_csum")
    } else if bit == 12 {
        Some("read-only")
    } else if bit == 13 {
        Some("project")
    } else if bit == 14 {
        Some("shared_blocks")
    } else if bit == 15 {
        Some("verity")
    } else if bit == 16 {
        Some("orphan_present")
    } else {
        None
    }
}

/// The name of a feature bit of field 0 (compatible), 1 (incompatible) or 2
/// (read-only compatible); unknown ones are numbered.
pub open spec fn feature_name(field: int, bit: int) -> Seq<char> {
    let known = if field == 0 {
        compat_name(bit)
    } else if field == 1 {
        incompat_name(bit)
    } else {
        ro_compat_name(bit)
    };
    match known {
        Some(n) => n,
        None => (if field == 0 {
            "FEATURE_C"@
        } else if field == 1 {
            "FEATURE_I"@
        } else {
            "FEATURE_R"@
        }) + decimal(bit as nat),
    }
}

/// The names of the features in the first `n` bits.
pub open spec fn feature_names(field: int, bits: u32, n: int) -> Seq<char>
    decreases n,
{
    if n <= 0 {
        Seq::empty()
    } else if bits & (1u32 << ((n - 1) as u32)) == 0 {
        feature_names(field, bits, n - 1)
    } else {
        with_word(feature_names(field, bits, n - 1), feature_name(field, n - 1))
    }
}

fn name_of_feature(field: u8, bit: u32) -> (r: String)
    requires
        field <= 2,
    ensures
        r@ == feature_name(field as int, bit as int),
{
    let known: Option<&'static str> = if field == 0 {
        name_of_compat(bit)
    } else if field == 1 {
        name_of_incompat(bit)
    } else {
        name_of_ro_compat(bit)
    };
    match known {
        Some(n) => n.to_string(),
        None => {
            let mut s: String = (if field == 0 {
                "FEATURE_C"
            } else if field == 1 {
                "FEATURE_I"
            } else {
                "FEATURE_R"
            }).to_string();
            push_decimal(&mut s, bit as u64);
            s
        },
    }
}

/// The names of the features in `bits`, separated by spaces.
pub fn feature_list(field: u8, bits: u32) -> (r: String)
    requires
        field <= 2,
    ensures
        r@ == feature_names(field as int, bits, 32),
{
    let mut s: String = String::new();
    let mut bit: u32 = 0;
    while bit < 32
        invariant
            bit <= 32,
            field <= 2,
            s@ == feature_names(field as int, bits, bit as int),
        decreases 32 - bit,
    {
        if bits & (1u32 << bit) != 0 {
            let name: String = name_of_feature(field, bit);
            push_word(&mut s, name.as_str());
        }
        bit += 1;
    }
    s
}

pub open spec fn is_dot(name: Seq<u8>) -> bool {
    name == seq![0x2eu8] || name == seq![0x2eu8, 0x2eu8]
}

/// The directory entries of `buf` from byte `i` on, without "." and "..".
/// Entries with inode 0 are unused, htree nodes or checksum tails.
pub open spec fn dirents_from(buf: Seq<u8>, filetype: bool, i: int) -> Seq<(Seq<u8>, u32)>
    decreases
        (if buf.len() > i {
            buf.len() - i
        } else {
            0
        }),
{
    if i < 0 || i + 8 > buf.len() {
        Seq::empty()
    } else {
        let ino = le32(buf, i);
        let rec_len = le16(buf, i + 4);
        let name_len = if filetype {
            buf[i + 6] as int
        } else {
            le16(buf, i + 6)
        };
        if rec_len < 8 || i + rec_len > buf.len() {
            Seq::empty()
        } else {
            let name = buf.subrange(i + 8, i + 8 + name_len);
            let here = if ino != 0 && 8 + name_len <= rec_len && !is_dot(name) {
                seq![(name, ino as u32)]
            } else {
                Seq::empty()
            };
            here + dirents_from(buf, filetype, i + rec_len)
        }
    }
}

/// The directory entries in the blocks of `data` from byte `at` on.
pub open spec fn list_from(data: Seq<u8>, bs: int, filetype: bool, at: int) -> Seq<(Seq<u8>, u32)>
    decreases
        (if data.len() > at {
            data.len() - at
        } else {
            0
        }),
{
    if at >= data.len() || bs <= 0 {
        Seq::empty()
    } else {
        dirents_from(data.subrange(at, smaller(at + bs, data.len() as int)), filetype, 0)
            + list_from(data, bs, filetype, at + bs)
    }
}

/// The entries of an inline directory: behind the 4-byte parent inode, more
/// in `system.data`.
pub open spec fn inline_list(data: Seq<u8>, filetype: bool) -> Seq<(Seq<u8>, u32)> {
    dirents_from(data.subrange(4, 60), filetype, 0) + dirents_from(data.skip(60), filetype, 0)
}

pub open spec fn has_filetype(image: Seq<u8>) -> bool {
    incompat(image) & INCOMPAT_FILETYPE != 0
}

/// The directory with inode `ino`.
pub open spec fn dir_of(image: Seq<u8>, ino: int) -> Result<Seq<(Seq<u8>, u32)>, Error> {
    match inode_at(image, ino) {
        Err(e) => Err(e),
        Ok(inode) => if inode.mode / 0x1000 != 4 {
            Err(Error::NotADirectory)
        } else if inode.flags & FLAG_INLINE_DATA != 0 {
            match inline_of(image, inode, Seq::empty()) {
                Err(e) => Err(e),
                Ok(d) => Ok(inline_list(d, has_filetype(image))),
            }
        } else {
            match data_of(image, inode, Seq::empty()) {
                Err(e) => Err(e),
                Ok(d) => Ok(list_from(d, block_size(image), has_filetype(image), 0)),
            }
        },
    }
}

/// The content of inode `ino`.
pub open spec fn file_of(image: Seq<u8>, ino: int) -> Result<Seq<u8>, Error> {
    match inode_at(image, ino) {
        Err(e) => Err(e),
        Ok(inode) => data_of(image, inode, Seq::empty()),
    }
}

/// Whether the target of a symlink stands in the inode itself.
pub open spec fn fast_link(image: Seq<u8>, inode: InodeView) -> bool {
    let acl = if inode.file_acl != 0 {
        block_size(image) / 512
    } else {
        0
    };
    inode.flags & 0x1008_0000 == 0 && inode.sectors <= acl && inode.size < 60
}

/// The target of the symlink with inode `ino`.
pub open spec fn link_of(image: Seq<u8>, ino: int) -> Result<Seq<u8>, Error> {
    match inode_at(image, ino) {
        Err(e) => Err(e),
        Ok(inode) => if fast_link(image, inode) {
            Ok(inode.block.take(inode.size))
        } else {
            data_of(image, inode, Seq::empty())
        },
    }
}

/// The metadata of inode `ino`.
pub open spec fn meta_of(image: Seq<u8>, ino: int) -> Result<MetaView, Error> {
    match inode_at(image, ino) {
        Err(e) => Err(e),
        Ok(inode) => match kind_of(inode.mode) {
            Err(e) => Err(e),
            Ok(kind) => match xattrs_of(image, inode, Seq::empty()) {
                Err(e) => Err(e),
                Ok(x) => {
                    let (selinux, capabilities) = security_of(x, x.len() as int);
                    Ok(
                        MetaView {
                            kind,
                            mode: inode.mode % 0x1000,
                            uid: inode.uid,
                            gid: inode.gid,
                            mtime: inode.mtime,
                            size: inode.size,
                            selinux,
                            capabilities,
                        },
                    )
                },
            },
        },
    }
}

fn is_dot_name(name: &[u8]) -> (r: bool)
    ensures
        r == is_dot(name@),
{
    let n: usize = name.len();
    let one: bool = n == 1 && name[0] == 0x2e;
    let two: bool = n == 2 && name[0] == 0x2e && name[1] == 0x2e;
    assert(one <==> name@ =~= seq![0x2eu8]);
    assert(two <==> name@ =~= seq![0x2eu8, 0x2eu8]);
    one || two
}

/// Appends the directory entries of `buf`.
pub fn parse_dirents(buf: &[u8], filetype: bool, out: &mut Vec<(Vec<u8>, u32)>)
    ensures
        list_view(final(out)@) == list_view(old(out)@) + dirents_from(buf@, filetype, 0),
{
    let n: usize = buf.len();
    let ghost total = list_view(out@) + dirents_from(buf@, filetype, 0);
    let mut i: usize = 0;
    while i <= n && n - i >= 8
        invariant
            n == buf.len(),
            i <= n,
            total == list_view(old(out)@) + dirents_from(buf@, filetype, 0),
            list_view(out@) + dirents_from(buf@, filetype, i as int) == total,
        decreases n - i,
    {
        let ino: u32 = get32(buf, i);
        let rec_len: usize = get16(buf, i + 4) as usize;
        let name_len: usize = if filetype {
            buf[i + 6] as usize
        } else {
            get16(buf, i + 6) as usize
        };
        if rec_len < 8 || rec_len > n - i {
            assert(list_view(out@) + Seq::<(Seq<u8>, u32)>::empty() =~= list_view(out@));
            return;
        }
        let ghost prev = list_view(out@);
        let ghost rest = dirents_from(buf@, filetype, i + rec_len);
        if ino != 0 && 8 + name_len <= rec_len {
            let name: Vec<u8> = copy_range(buf, i + 8, i + 8 + name_len);
            if !is_dot_name(&name) {
                out.push((name, ino));
                assert(list_view(out@) =~= prev.push((name@, ino)));
                assert(prev.push((name@, ino)) + rest =~= prev + (seq![(name@, ino)] + rest));
            } else {
                assert(prev + rest =~= prev + (Seq::<(Seq<u8>, u32)>::empty() + rest));
            }
        } else {
            assert(prev + rest =~= prev + (Seq::<(Seq<u8>, u32)>::empty() + rest));
        }
        i = i + rec_len;
    }
    assert(list_view(out@) + Seq::<(Seq<u8>, u32)>::empty() =~= list_view(out@));
}

/// All entries of a directory.
fn list_dir(data: &Vec<u8>, bs: u64, filetype: bool) -> (r: Vec<(Vec<u8>, u32)>)
    requires
        0 < bs <= 65536,
    ensures
        list_view(r@) == list_from(data@, bs as int, filetype, 0),
{
    let mut out: Vec<(Vec<u8>, u32)> = Vec::new();
    let ghost total = list_from(data@, bs as int, filetype, 0);
    assert(list_view(out@) + total =~= total);
    let n: usize = data.len();
    let size: usize = bs as usize;
    let mut at: usize = 0;
    while at < n
        invariant
            at <= n,
            n == data.len(),
            size == bs,
            0 < bs <= 65536,
            list_view(out@) + list_from(data@, bs as int, filetype, at as int) == total,
        decreases n - at,
    {
        let len: usize = if n - at > size {
            size
        } else {
            n - at
        };
        let block: &[u8] = vstd::slice::slice_subrange(data, at, at + len);
        let ghost prev = list_view(out@);
        let ghost here = dirents_from(block@, filetype, 0);
        parse_dirents(block, filetype, &mut out);
        proof {
            let rest = list_from(data@, bs as int, filetype, at + bs);
            assert(prev + (here + rest) =~= (prev + here) + rest);
            if at + len == n {
                assert(rest == list_from(data@, bs as int, filetype, n as int));
            }
        }
        at = at + len;
    }
    assert(list_view(out@) + Seq::<(Seq<u8>, u32)>::empty() =~= list_view(out@));
    out
}

/// The hash that directories are indexed by.
pub open spec fn hash_name(version: u8) -> Seq<char> {
    if version == 0 {
        "legacy"@
    } else if version == 1 {
        "half_md4"@
    } else if version == 2 {
        "tea"@
    } else {
        "unknown"@
    }
}

/// All features of an image.
pub open spec fn all_features(image: Seq<u8>) -> Seq<char> {
    with_word(
        with_word(
            feature_names(0, sb32(image, 0x5C) as u32, 32),
            feature_names(1, incompat(image), 32),
        ),
        feature_names(2, sb32(image, 0x64) as u32, 32),
    )
}

/// Blocks reserved for the superuser.
pub open spec fn reserved_blocks(image: Seq<u8>) -> int {
    sb32(image, 8) + (if is_64bit(image) {
        0x1_0000_0000 * sb32(image, 0x154)
    } else {
        0
    })
}

/// The parameters of an image, as key and value.
pub open spec fn parameters_of(image: Seq<u8>) -> Seq<(Seq<char>, Seq<char>)> {
    seq![
        ("fs_type"@, "ext4"@),
        ("volume_name"@, text_of(until_nul(image.subrange(0x478, 0x488), 0))),
        ("last_mounted"@, text_of(until_nul(image.subrange(0x488, 0x4C8), 0))),
        ("uuid"@, uuid_text(image.subrange(0x468, 0x478), 16)),
        ("hash_seed"@, uuid_text(image.subrange(0x4EC, 0x4FC), 16)),
        ("default_hash"@, hash_name(image[0x4FC])),
        ("block_size"@, decimal(block_size(image) as nat)),
        ("blocks"@, decimal(blocks_count(image) as nat)),
        ("reserved_blocks"@, decimal(reserved_blocks(image) as nat)),
        ("inodes"@, decimal(inodes_count(image) as nat)),
        ("inode_size"@, decimal(inode_size(image) as nat)),
        ("blocks_per_group"@, decimal(sb32(image, 0x20) as nat)),
        ("inodes_per_group"@, decimal(inodes_per_group(image) as nat)),
        ("created"@, decimal(sb32(image, 0x108) as nat)),
        ("features"@, all_features(image)),
    ]
}

fn pair(key: &str, value: String) -> (r: (String, String))
    ensures
        r.0@ == key@,
        r.1@ == value@,
{
    (key.to_string(), value)
}

/// The text between two byte offsets, up to a NUL.
fn text_at(image: &Vec<u8>, from: usize, to: usize) -> (r: String)
    requires
        from <= to <= image.len(),
    ensures
        r@ == text_of(until_nul(image@.subrange(from as int, to as int), 0)),
{
    cstr(vstd::slice::slice_subrange(image, from, to))
}

fn features_of(image: &Vec<u8>) -> (r: String)
    requires
        image.len() >= 2048,
    ensures
        r@ == all_features(image@),
{
    let mut s: String = feature_list(0, get32(image, 0x45C));
    push_word(&mut s, feature_list(1, get32(image, 0x460)).as_str());
    push_word(&mut s, feature_list(2, get32(image, 0x464)).as_str());
    s
}

fn name_of_hash(version: u8) -> (r: String)
    ensures
        r@ == hash_name(version),
{
    (if version == 0 {
        "legacy"
    } else if version == 1 {
        "half_md4"
    } else if version == 2 {
        "tea"
    } else {
        "unknown"
    }).to_string()
}

impl Filesystem for Ext4 {
    type Node = u32;

    open spec fn wf(&self) -> bool {
        self.inv()
    }

    open spec fn format_name(&self) -> Seq<char> {
        "ext4"@
    }

    open spec fn root_node(&self) -> u32 {
        ROOT_INO
    }

    open spec fn meta_at(&self, node: u32) -> Result<MetaView, Error> {
        meta_of(self@, node as int)
    }

    open spec fn dir_at(&self, node: u32) -> Result<Seq<(Seq<u8>, u32)>, Error> {
        dir_of(self@, node as int)
    }

    open spec fn file_at(&self, node: u32) -> Result<Seq<u8>, Error> {
        file_of(self@, node as int)
    }

    open spec fn link_at(&self, node: u32) -> Result<Seq<u8>, Error> {
        link_of(self@, node as int)
    }

    open spec fn label(&self) -> Seq<char> {
        text_of(until_nul(self@.subrange(0x478, 0x488), 0))
    }

    open spec fn parameters(&self) -> Seq<(Seq<char>, Seq<char>)> {
        parameters_of(self@)
    }

    fn fs_type(&self) -> (r: &'static str) {
        "ext4"
    }

    fn root(&self) -> (r: u32) {
        ROOT_INO
    }

    fn meta(&self, ino: u32) -> (r: Result<Meta, Error>) {
        let inode: Inode = match self.inode(ino) {
            Ok(i) => i,
            Err(e) => {
                return Err(e);
            },
        };
        let kind: Kind = match mode_kind(inode.mode) {
            Ok(k) => k,
            Err(e) => {
                return Err(e);
            },
        };
        let path: Vec<u32> = Vec::new();
        assert(path_view(path@) =~= Seq::empty());
        let xattrs: Vec<(String, Vec<u8>)> = match self.xattrs(&inode, &path) {
            Ok(x) => x,
            Err(e) => {
                return Err(e);
            },
        };
        let (selinux, capabilities): (Option<String>, Option<u64>) = pick_security(&xattrs);
        Ok(
            Meta {
                kind,
                mode: (inode.mode % 0x1000) as u32,
                uid: inode.uid,
                gid: inode.gid,
                mtime: inode.mtime,
                size: inode.size,
                selinux,
                capabilities,
            },
        )
    }

    fn read_dir(&self, ino: u32) -> (r: Result<Vec<(Vec<u8>, u32)>, Error>) {
        proof {
            self.numbers();
        }
        let inode: Inode = match self.inode(ino) {
            Ok(i) => i,
            Err(e) => {
                return Err(e);
            },
        };
        if inode.mode / 0x1000 != 4 {
            return Err(Error::NotADirectory);
        }
        let filetype: bool = get32(&self.image, 0x460) & INCOMPAT_FILETYPE != 0;
        let path: Vec<u32> = Vec::new();
        assert(path_view(path@) =~= Seq::empty());
        if inode.flags & FLAG_INLINE_DATA != 0 {
            return match self.inline_data(&inode, &path) {
                Ok(data) => {
                    let n: usize = data.len();
                    let mut out: Vec<(Vec<u8>, u32)> = Vec::new();
                    assert(list_view(out@) =~= Seq::empty());
                    parse_dirents(vstd::slice::slice_subrange(&data, 4, 60), filetype, &mut out);
                    let rest: &[u8] = vstd::slice::slice_subrange(&data, 60, n);
                    assert(rest@ =~= data@.skip(60));
                    parse_dirents(rest, filetype, &mut out);
                    assert(list_view(out@) =~= inline_list(data@, filetype));
                    Ok(out)
                },
                Err(e) => Err(e),
            };
        }
        match self.data(&inode, &path) {
            Ok(data) => Ok(list_dir(&data, self.block_size, filetype)),
            Err(e) => Err(e),
        }
    }

    fn read_file(&self, ino: u32) -> (r: Result<Vec<u8>, Error>) {
        let path: Vec<u32> = Vec::new();
        assert(path_view(path@) =~= Seq::empty());
        match self.inode(ino) {
            Ok(inode) => self.data(&inode, &path),
            Err(e) => Err(e),
        }
    }

    fn read_link(&self, ino: u32) -> (r: Result<Vec<u8>, Error>) {
        proof {
            self.numbers();
        }
        let inode: Inode = match self.inode(ino) {
            Ok(i) => i,
            Err(e) => {
                return Err(e);
            },
        };
        let acl: u64 = if inode.file_acl != 0 {
            self.block_size / 512
        } else {
            0
        };
        if inode.flags & 0x1008_0000 == 0 && inode.sectors <= acl && inode.size < 60 {
            let target: Vec<u8> = copy_range(&inode.block, 0, inode.size as usize);
            assert(target@ =~= inode@.block.take(inode@.size));
            return Ok(target);
        }
        let path: Vec<u32> = Vec::new();
        assert(path_view(path@) =~= Seq::empty());
        self.data(&inode, &path)
    }

    fn volume_name(&self) -> (r: String) {
        proof {
            self.numbers();
        }
        text_at(&self.image, 0x478, 0x488)
    }

    fn info(&self) -> (r: Vec<(String, String)>) {
        proof {
            self.numbers();
            reveal(Ext4::inv);
        }
        let image: &Vec<u8> = &self.image;
        let wide: bool = get32(image, 0x460) & INCOMPAT_64BIT != 0;
        let reserved: u64 = get32(image, 0x408) as u64 + (if wide {
            0x1_0000_0000 * get32(image, 0x554) as u64
        } else {
            0
        });
        let mut v: Vec<(String, String)> = Vec::new();
        v.push(pair("fs_type", "ext4".to_string()));
        v.push(pair("volume_name", self.volume_name()));
        v.push(pair("last_mounted", text_at(image, 0x488, 0x4C8)));
        v.push(pair("uuid", uuid(vstd::slice::slice_subrange(image, 0x468, 0x478))));
        v.push(pair("hash_seed", uuid(vstd::slice::slice_subrange(image, 0x4EC, 0x4FC))));
        v.push(pair("default_hash", name_of_hash(image[0x4FC])));
        v.push(pair("block_size", decimal_of(self.block_size)));
        v.push(pair("blocks", decimal_of(self.blocks_count)));
        v.push(pair("reserved_blocks", decimal_of(reserved)));
        v.push(pair("inodes", decimal_of(self.inodes_count as u64)));
        v.push(pair("inode_size", decimal_of(self.inode_size)));
        v.push(pair("blocks_per_group", decimal_of(get32(image, 0x420) as u64)));
        v.push(pair("inodes_per_group", decimal_of(self.inodes_per_group as u64)));
        v.push(pair("created", decimal_of(get32(image, 0x508) as u64)));
        v.push(pair("features", features_of(image)));
        assert(info_view(v@) =~= parameters_of(image@));
        v
    }
}

} // verus!
