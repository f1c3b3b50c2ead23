//! Read-only EROFS reader for Android images: compact and extended inodes,
//! flat (plain and inline tail) and chunk-based files, directories, and
//! xattrs (inline, shared, long name prefixes).
//!
//! Compressed files (lz4, lzma, ...) are not supported: reading one fails
//! with an error of its own.
use vstd::prelude::*;
use vstd::arithmetic::power2::{lemma2_to64, lemma2_to64_rest, lemma_pow2_pos,
    lemma_pow2_strictly_increases, lemma_pow2_unfold, pow2};
use vstd::bits::lemma_u64_shl_is_mul;
use vstd::string::StringExecFns;
use crate::bytes::{align_up, ceil_div, copy_range, get16, get32, get64, le16, le32, le64,
    push_bytes, round_up, zero_seq};
use crate::error::Error;
use crate::fs::{chain, info_view, kind_of, lemma_chain_append, lemma_chain_empty, lemma_chain_push,
    list_view, mode_kind, pick_security, read_at, read_range,
    security_of, text_view, xattrs_view, Filesystem, Kind, Meta, MetaView};
use crate::text::{cstr, decimal, decimal_of, hex, lossy, nul_position, push_hex, push_word, text_of,
    until_nul, uuid, uuid_text, with_word};

verus! {

pub const EROFS_MAGIC: u32 = 0xE0F5_E1E2;

/// Features that change how the metadata is laid out, or that are unknown.
/// The compression ones only matter for compressed files, which are refused
/// one by one.
pub const INCOMPAT_UNSUPPORTED: u32 = 0xFFFF_FF88;

pub const INCOMPAT_XATTR_PREFIXES: u32 = 0x40;

pub const COMPAT_MTIME: u32 = 0x2;

/// The block size with logarithm `bits`.
pub open spec fn size_for_bits(bits: int) -> int {
    if bits == 9 {
        512
    } else if bits == 10 {
        1024
    } else if bits == 11 {
        2048
    } else if bits == 12 {
        4096
    } else if bits == 13 {
        8192
    } else if bits == 14 {
        16384
    } else if bits == 15 {
        32768
    } else {
        65536
    }
}

/// The block size of an image.
#[verifier::opaque]
pub open spec fn block_size(image: Seq<u8>) -> int {
    size_for_bits(image[1036] as int)
}

/// Blocks of the filesystem.
pub open spec fn blocks(image: Seq<u8>) -> int {
    le32(image, 1060)
}

pub open spec fn compat(image: Seq<u8>) -> u32 {
    le32(image, 1032) as u32
}

pub open spec fn incompat(image: Seq<u8>) -> u32 {
    le32(image, 1104) as u32
}

/// Long xattr name prefixes: `n` of them at `pos`, each as (u16 size, u8 base
/// index, infix), 4-byte aligned.
pub open spec fn prefixes_at(image: Seq<u8>, pos: int, n: int) -> Result<
    Seq<(u8, Seq<u8>)>,
    Error,
>
    decreases n,
{
    if n <= 0 {
        Ok(Seq::empty())
    } else {
        match read_range(image, pos, 2) {
            Err(e) => Err(e),
            Ok(head) => {
                let len = le16(head, 0);
                if len == 0 {
                    Err(Error::BadLongPrefix)
                } else {
                    match read_range(image, pos + 2, len) {
                        Err(e) => Err(e),
                        Ok(p) => chain(
                            seq![(p[0], p.skip(1))],
                            prefixes_at(image, pos + round_up(2 + len, 4), n - 1),
                        ),
                    }
                }
            },
        }
    }
}

/// The long xattr name prefixes of an image: (base index, infix).
pub open spec fn prefixes_of(image: Seq<u8>) -> Result<Seq<(u8, Seq<u8>)>, Error> {
    let n = image[1115] as int;
    if incompat(image) & INCOMPAT_XATTR_PREFIXES == 0 || n == 0 {
        Ok(Seq::empty())
    } else if le64(image, 1120) != 0 {
        Err(Error::PackedPrefixes)
    } else {
        prefixes_at(image, 4 * le32(image, 1116), n)
    }
}

/// What keeps `image` from being opened.
pub open spec fn open_fault(image: Seq<u8>) -> Option<Error> {
    if image.len() < 1152 {
        Some(Error::UnexpectedEof)
    } else if le32(image, 1024) != EROFS_MAGIC {
        Some(Error::NotErofs)
    } else if !(9 <= image[1036] <= 16) {
        Some(Error::BadBlockSize)
    } else if incompat(image) & INCOMPAT_UNSUPPORTED != 0 {
        Some(Error::UnsupportedFeatures)
    } else {
        match prefixes_of(image) {
            Ok(_) => None,
            Err(e) => Some(e),
        }
    }
}

/// An inode as it is read.
pub struct InodeView {
    pub nid: int,
    pub layout: int,
    /// Bytes of the on-disk inode (32 or 64).
    pub isize: int,
    /// Bytes of the inline xattr area after the inode.
    pub xattr_isize: int,
    pub mode: int,
    pub size: int,
    /// Block address or chunk format, by layout and type.
    pub u: int,
    pub uid: int,
    pub gid: int,
    pub mtime: i64,
}

/// Byte offset of an inode.
pub open spec fn inode_offset(image: Seq<u8>, nid: int) -> int {
    le32(image, 1064) * block_size(image) + nid * 32
}

/// A time of 64 bits, as a signed number.
pub open spec fn signed_time(t: int) -> i64 {
    (t as u64) as i64
}

/// The time of an inode in its short form: relative to the build time.
pub open spec fn compact_time(image: Seq<u8>, b: Seq<u8>) -> i64 {
    let rel = if compat(image) & COMPAT_MTIME != 0 {
        le32(b, 12)
    } else {
        0
    };
    signed_time((le64(image, 1048) + rel) % 0x1_0000_0000_0000_0000)
}

/// The inode in the bytes `b`: 32 of them, 64 in the extended form.
pub open spec fn inode_in(image: Seq<u8>, nid: int, b: Seq<u8>) -> InodeView {
    let format = le16(b, 0);
    let icount = le16(b, 2);
    let xattr_isize = if icount == 0 {
        0
    } else {
        12 + (icount - 1) * 4
    };
    if format % 2 == 0 {
        InodeView {
            nid,
            layout: format / 2 % 8,
            isize: 32,
            xattr_isize,
            mode: le16(b, 4),
            size: le32(b, 8),
            u: le32(b, 16),
            uid: le16(b, 24),
            gid: le16(b, 26),
            mtime: compact_time(image, b),
        }
    } else {
        InodeView {
            nid,
            layout: format / 2 % 8,
            isize: 64,
            xattr_isize,
            mode: le16(b, 4),
            size: le64(b, 8),
            u: le32(b, 16),
            uid: le32(b, 24),
            gid: le32(b, 28),
            mtime: signed_time(le64(b, 32)),
        }
    }
}

/// The inode with number `nid`.
pub open spec fn inode_at(image: Seq<u8>, nid: int) -> Result<InodeView, Error> {
    if nid * 32 >= blocks(image) * block_size(image) {
        Err(Error::InodeOutside)
    } else {
        let off = inode_offset(image, nid);
        match read_range(image, off, 32) {
            Err(e) => Err(e),
            Ok(b) => if le16(b, 0) % 2 == 0 {
                Ok(inode_in(image, nid, b))
            } else {
                match read_range(image, off, 64) {
                    Err(e) => Err(e),
                    Ok(b) => Ok(inode_in(image, nid, b)),
                }
            },
        }
    }
}

/// Byte offset right after an inode and its inline xattrs.
pub open spec fn after_inode(image: Seq<u8>, inode: InodeView) -> int {
    inode_offset(image, inode.nid) + inode.isize + inode.xattr_isize
}

/// A contiguous piece of a file: `len` bytes at `physical`, or zeros.
pub struct PieceView {
    pub physical: Option<int>,
    pub len: int,
}

/// Where a block address points; the null address stands for a hole.
pub open spec fn address(addr: int, bs: int) -> Option<int> {
    if addr == u32::MAX {
        None
    } else {
        Some(addr * bs)
    }
}

/// Blocks of the body of a file, the inline tail left out.
pub open spec fn flat_pieces(image: Seq<u8>, inode: InodeView) -> Result<Seq<PieceView>, Error> {
    let bs = block_size(image);
    let tail = inode.layout == 2 && inode.size > 0;
    let body = if tail {
        (ceil_div(inode.size, bs) - 1) * bs
    } else {
        inode.size
    };
    let head = if body > 0 {
        seq![PieceView { physical: address(inode.u, bs), len: body }]
    } else {
        Seq::empty()
    };
    let start = after_inode(image, inode);
    let len = inode.size - body;
    if !tail {
        Ok(head)
    } else if start % bs + len > bs {
        Err(Error::TailCrossesBlock)
    } else {
        Ok(head.push(PieceView { physical: Some(start), len }))
    }
}

/// Bytes of a chunk, by the chunk format.
pub open spec fn chunk_size(format: int, bs: int) -> int {
    bs * pow2((format % 32) as nat)
}

/// Bytes of an entry of the chunk table.
pub open spec fn chunk_unit(format: int) -> int {
    if format / 32 % 2 == 1 {
        8
    } else {
        4
    }
}

/// The chunks from number `i` on, out of `n` in the table.
pub open spec fn chunks_from(
    table: Seq<u8>,
    unit: int,
    size: int,
    chunk: int,
    bs: int,
    i: int,
    n: int,
) -> Result<Seq<PieceView>, Error>
    decreases n - i,
{
    if i >= n {
        Ok(Seq::empty())
    } else {
        let e = i * unit;
        let dev = if unit == 8 {
            le16(table, e + 2)
        } else {
            0
        };
        let addr = if unit == 8 {
            le32(table, e + 4)
        } else {
            le32(table, e)
        };
        let left = size - i * chunk;
        if dev != 0 {
            Err(Error::ChunkOnOtherDevice)
        } else {
            chain(
                seq![
                    PieceView {
                        physical: address(addr, bs),
                        len: if chunk < left {
                            chunk
                        } else {
                            left
                        },
                    },
                ],
                chunks_from(table, unit, size, chunk, bs, i + 1, n),
            )
        }
    }
}

pub open spec fn chunk_pieces(image: Seq<u8>, inode: InodeView) -> Result<Seq<PieceView>, Error> {
    let bs = block_size(image);
    let format = inode.u % 0x1_0000;
    let chunk = chunk_size(format, bs);
    let unit = chunk_unit(format);
    let n = ceil_div(inode.size, chunk);
    match read_range(image, round_up(after_inode(image, inode), unit), n * unit) {
        Err(e) => Err(e),
        Ok(table) => chunks_from(table, unit, inode.size, chunk, bs, 0, n),
    }
}

/// Where the bytes of a file, directory or symlink are, in order.
pub open spec fn pieces_of(image: Seq<u8>, inode: InodeView) -> Result<Seq<PieceView>, Error> {
    if inode.layout == 0 || inode.layout == 2 {
        flat_pieces(image, inode)
    } else if inode.layout == 4 {
        chunk_pieces(image, inode)
    } else if inode.layout == 1 || inode.layout == 3 {
        Err(Error::Compressed)
    } else {
        Err(Error::UnknownDataLayout)
    }
}

/// The bytes of one piece.
pub open spec fn piece_bytes(image: Seq<u8>, p: PieceView) -> Result<Seq<u8>, Error> {
    match p.physical {
        Some(at) => read_range(image, at, p.len),
        None => Ok(zero_seq(p.len)),
    }
}

/// The bytes of the pieces from number `i` on.
pub open spec fn bytes_from(image: Seq<u8>, pieces: Seq<PieceView>, i: int) -> Result<
    Seq<u8>,
    Error,
>
    decreases pieces.len() - i,
{
    if i >= pieces.len() {
        Ok(Seq::empty())
    } else {
        match piece_bytes(image, pieces[i]) {
            Err(e) => Err(e),
            Ok(b) => chain(b, bytes_from(image, pieces, i + 1)),
        }
    }
}

/// The content of an inode.
pub open spec fn data_of(image: Seq<u8>, inode: InodeView) -> Result<Seq<u8>, Error> {
    match pieces_of(image, inode) {
        Err(e) => Err(e),
        Ok(pieces) => bytes_from(image, pieces, 0),
    }
}

/// Name prefixes of the short xattr indexes.
pub open spec fn prefix_text(index: int) -> Option<Seq<char>> {
    if index == 0 {
        Some(""@)
    } else if index == 1 {
        Some("user."@)
    } else if index == 2 {
        Some("system.posix_acl_access"@)
    } else if index == 3 {
        Some("system.posix_acl_default"@)
    } else if index == 4 {
        Some("trusted."@)
    } else if index == 5 {
        Some("lustre."@)
    } else if index == 6 {
        Some("security."@)
    } else {
        None
    }
}

/// Full name of an xattr entry's index and name.
pub open spec fn xattr_name(
    prefixes: Seq<(u8, Seq<u8>)>,
    index: int,
    name: Seq<u8>,
) -> Option<Seq<char>> {
    if index >= 128 {
        if index - 128 >= prefixes.len() {
            None
        } else {
            match prefix_text(prefixes[index - 128].0 as int) {
                Some(p) => Some(p + text_of(prefixes[index - 128].1) + text_of(name)),
                None => None,
            }
        }
    } else {
        match prefix_text(index) {
            Some(p) => Some(p + text_of(name)),
            None => None,
        }
    }
}

/// An xattr entry: its size, its name if that is known, its value.
pub struct XattrEntryView {
    pub len: int,
    pub name: Option<Seq<char>>,
    pub value: Seq<u8>,
}

/// The entry at the start of `b`.
pub open spec fn xattr_entry_in(prefixes: Seq<(u8, Seq<u8>)>, b: Seq<u8>) -> Result<
    XattrEntryView,
    Error,
> {
    let end = 4 + b[0] + le16(b, 2);
    if b.len() < 4 || end > b.len() {
        Err(Error::TruncatedXattr)
    } else {
        Ok(
            XattrEntryView {
                len: round_up(end, 4),
                name: xattr_name(prefixes, b[1] as int, b.subrange(4, 4 + b[0])),
                value: b.subrange(4 + b[0], end),
            },
        )
    }
}

/// An entry with a known name, as (name, value).
pub open spec fn known(e: XattrEntryView) -> Seq<(Seq<char>, Seq<u8>)> {
    match e.name {
        Some(n) => seq![(n, e.value)],
        None => Seq::empty(),
    }
}

/// The shared xattrs whose ids stand in `area` from number `i` on.
pub open spec fn shared_from(
    image: Seq<u8>,
    prefixes: Seq<(u8, Seq<u8>)>,
    area: Seq<u8>,
    i: int,
    n: int,
) -> Result<Seq<(Seq<char>, Seq<u8>)>, Error>
    decreases n - i,
{
    if i >= n {
        Ok(Seq::empty())
    } else {
        let at = le32(image, 1068) * block_size(image) + 4 * le32(area, 12 + 4 * i);
        match read_range(image, at, 4) {
            Err(e) => Err(e),
            Ok(head) => match read_range(image, at, 4 + head[0] + le16(head, 2)) {
                Err(e) => Err(e),
                Ok(b) => match xattr_entry_in(prefixes, b) {
                    Err(e) => Err(e),
                    Ok(x) => chain(known(x), shared_from(image, prefixes, area, i + 1, n)),
                },
            },
        }
    }
}

/// The inline xattrs of `area` from byte `pos` on.
pub open spec fn inline_from(prefixes: Seq<(u8, Seq<u8>)>, area: Seq<u8>, pos: int) -> Result<
    Seq<(Seq<char>, Seq<u8>)>,
    Error,
>
    decreases
        (if area.len() > pos {
            area.len() - pos
        } else {
            0
        }),
{
    if pos < 0 || pos + 4 > area.len() {
        Ok(Seq::empty())
    } else {
        match xattr_entry_in(prefixes, area.skip(pos)) {
            Err(e) => Err(e),
            Ok(x) => if x.len <= 0 {
                Ok(Seq::empty())
            } else {
                chain(known(x), inline_from(prefixes, area, pos + x.len))
            },
        }
    }
}

/// All xattrs of an inode as (full name, value).
pub open spec fn xattrs_of(image: Seq<u8>, prefixes: Seq<(u8, Seq<u8>)>, inode: InodeView) -> Result<
    Seq<(Seq<char>, Seq<u8>)>,
    Error,
> {
    if inode.xattr_isize == 0 {
        Ok(Seq::empty())
    } else {
        match read_range(image, inode_offset(image, inode.nid) + inode.isize, inode.xattr_isize) {
            Err(e) => Err(e),
            Ok(area) => {
                let n = area[4] as int;
                if 12 + 4 * n > area.len() {
                    Err(Error::BadXattrHeader)
                } else {
                    match shared_from(image, prefixes, area, 0, n) {
                        Err(e) => Err(e),
                        Ok(shared) => chain(shared, inline_from(prefixes, area, 12 + 4 * n)),
                    }
                }
            },
        }
    }
}

/// The metadata of inode `nid`.
pub open spec fn meta_of(image: Seq<u8>, prefixes: Seq<(u8, Seq<u8>)>, nid: int) -> Result<
    MetaView,
    Error,
> {
    match inode_at(image, nid) {
        Err(e) => Err(e),
        Ok(inode) => match kind_of(inode.mode) {
            Err(e) => Err(e),
            Ok(kind) => match xattrs_of(image, prefixes, inode) {
                Err(e) => Err(e),
                Ok(x) => {
                    let (selinux, capabilities) = security_of(x, x.len() as int);
                    Ok(
                        MetaView {
                            kind,
                            mode: inode.mode % 0x1000,
                            uid: inode.uid,
                            gid: inode.gid,
                            mtime: inode.mtime as int,
                            size: inode.size,
                            selinux,
                            capabilities,
                        },
                    )
                },
            },
        },
    }
}

/// Where the name of entry `i` of a directory block ends; the last name runs
/// to the end of the block, NUL padded.
pub open spec fn name_end(block: Seq<u8>, count: int, i: int) -> int {
    let start = le16(block, 12 * i + 8);
    if i + 1 < count {
        le16(block, 12 * i + 20)
    } else if start >= block.len() {
        start
    } else {
        start + until_nul(block.skip(start), 0).len()
    }
}

pub open spec fn is_dot(name: Seq<u8>) -> bool {
    name == seq![0x2eu8] || name == seq![0x2eu8, 0x2eu8]
}

/// The entries of a directory block from number `i` on, without "." and "..".
pub open spec fn entries_from(block: Seq<u8>, count: int, i: int) -> Result<
    Seq<(Seq<u8>, u64)>,
    Error,
>
    decreases count - i,
{
    if i >= count {
        Ok(Seq::empty())
    } else {
        let start = le16(block, 12 * i + 8);
        let end = name_end(block, count, i);
        if start > end || end > block.len() {
            Err(Error::BadDirectoryEntry)
        } else {
            let name = block.subrange(start, end);
            let here = if is_dot(name) {
                Seq::empty()
            } else {
                seq![(name, le64(block, 12 * i) as u64)]
            };
            chain(here, entries_from(block, count, i + 1))
        }
    }
}

/// The entries of a directory block.
pub open spec fn block_entries(block: Seq<u8>) -> Result<Seq<(Seq<u8>, u64)>, Error> {
    let first = le16(block, 8);
    if block.len() < 12 {
        Err(Error::TruncatedDirectory)
    } else if first < 12 || first % 12 != 0 || first > block.len() {
        Err(Error::BadDirectoryBlock)
    } else {
        entries_from(block, first / 12, 0)
    }
}

/// The part of `data` from `at` on that belongs to one block.
pub open spec fn block_at(data: Seq<u8>, at: int, bs: int) -> Seq<u8> {
    data.subrange(
        at,
        if at + bs < data.len() {
            at + bs
        } else {
            data.len() as int
        },
    )
}

/// The entries in the blocks of a directory from byte `at` on.
pub open spec fn list_from(data: Seq<u8>, bs: int, at: int) -> Result<Seq<(Seq<u8>, u64)>, Error>
    decreases
        (if data.len() > at {
            data.len() - at
        } else {
            0
        }),
{
    if at >= data.len() || bs <= 0 {
        Ok(Seq::empty())
    } else {
        match block_entries(block_at(data, at, bs)) {
            Err(e) => Err(e),
            Ok(here) => chain(here, list_from(data, bs, at + bs)),
        }
    }
}

/// The directory with number `nid`.
pub open spec fn dir_of(image: Seq<u8>, nid: int) -> Result<Seq<(Seq<u8>, u64)>, Error> {
    match inode_at(image, nid) {
        Err(e) => Err(e),
        Ok(inode) => match kind_of(inode.mode) {
            Err(e) => Err(e),
            Ok(kind) => if kind != Kind::Dir {
                Err(Error::NotADirectory)
            } else {
                match data_of(image, inode) {
                    Err(e) => Err(e),
                    Ok(data) => list_from(data, block_size(image), 0),
                }
            },
        },
    }
}

/// The content of inode `nid`.
pub open spec fn file_of(image: Seq<u8>, nid: int) -> Result<Seq<u8>, Error> {
    match inode_at(image, nid) {
        Err(e) => Err(e),
        Ok(inode) => data_of(image, inode),
    }
}

/// True when `head` (at least 1028 bytes of an image) has the EROFS magic.
pub fn is_erofs(head: &[u8]) -> (r: bool)
    ensures
        r == (head@.len() >= 1028 && le32(head@, 1024) == EROFS_MAGIC),
{
    head.len() >= 1028 && get32(head, 1024) == EROFS_MAGIC
}

#[derive(Debug)]
struct Inode {
    nid: u64,
    layout: u16,
    isize: u64,
    xattr_isize: u64,
    mode: u16,
    size: u64,
    u: u32,
    uid: u32,
    gid: u32,
    mtime: i64,
}

impl View for Inode {
    type V = InodeView;

    closed spec fn view(&self) -> InodeView {
        InodeView {
            nid: self.nid as int,
            layout: self.layout as int,
            isize: self.isize as int,
            xattr_isize: self.xattr_isize as int,
            mode: self.mode as int,
            size: self.size as int,
            u: self.u as int,
            uid: self.uid as int,
            gid: self.gid as int,
            mtime: self.mtime,
        }
    }
}

#[derive(Debug, Clone, Copy)]
struct Piece {
    physical: Option<u64>,
    len: u64,
}

impl View for Piece {
    type V = PieceView;

    closed spec fn view(&self) -> PieceView {
        PieceView {
            physical: match self.physical {
                Some(p) => Some(p as int),
                None => None,
            },
            len: self.len as int,
        }
    }
}

spec fn pieces_view(v: Seq<Piece>) -> Seq<PieceView> {
    v.map_values(|p: Piece| p@)
}

spec fn prefixes_view(v: Seq<(u8, Vec<u8>)>) -> Seq<(u8, Seq<u8>)> {
    v.map_values(|e: (u8, Vec<u8>)| (e.0, e.1@))
}

/// An EROFS image.
#[derive(Debug)]
pub struct Erofs {
    image: Vec<u8>,
    block_size: u64,
    /// Long xattr name prefixes: (base index, infix).
    long_prefixes: Vec<(u8, Vec<u8>)>,
}

impl View for Erofs {
    type V = Seq<u8>;

    closed spec fn view(&self) -> Seq<u8> {
        self.image@
    }
}

fn size_of_bits(bits: u8) -> (r: u64)
    ensures
        r == size_for_bits(bits as int),
        512 <= r <= 65536,
{
    if bits == 9 {
        512
    } else if bits == 10 {
        1024
    } else if bits == 11 {
        2048
    } else if bits == 12 {
        4096
    } else if bits == 13 {
        8192
    } else if bits == 14 {
        16384
    } else if bits == 15 {
        32768
    } else {
        65536
    }
}

pub proof fn lemma_block_size(image: Seq<u8>)
    ensures
        512 <= block_size(image) <= 65536,
{
    reveal(block_size);
}

fn read_prefixes(image: &Vec<u8>) -> (r: Result<Vec<(u8, Vec<u8>)>, Error>)
    requires
        image.len() >= 1152,
    ensures
        match r {
            Ok(v) => prefixes_of(image@) == Ok::<Seq<(u8, Seq<u8>)>, Error>(prefixes_view(v@)),
            Err(e) => prefixes_of(image@) == Err::<Seq<(u8, Seq<u8>)>, Error>(e),
        },
{
    let mut out: Vec<(u8, Vec<u8>)> = Vec::new();
    let count: usize = image[1115] as usize;
    if get32(image, 1104) & INCOMPAT_XATTR_PREFIXES == 0 || count == 0 {
        assert(prefixes_view(out@) =~= Seq::empty());
        return Ok(out);
    }
    if get64(image, 1120) != 0 {
        return Err(Error::PackedPrefixes);
    }
    let mut pos: u64 = 4 * get32(image, 1116) as u64;
    let ghost total = prefixes_at(image@, pos as int, count as int);
    assert(prefixes_view(out@) =~= Seq::empty());
    assert(chain(prefixes_view(out@), total) == total) by {
        lemma_chain_empty(total);
    }
    let mut i: usize = 0;
    while i < count
        invariant
            i <= count <= 255,
            pos <= 0x4_0000_0000 + i * 0x1_0008,
            total == prefixes_of(image@),
            chain(
                prefixes_view(out@),
                prefixes_at(image@, pos as int, count - i),
            ) == total,
        decreases count - i,
    {
        let len: u64 = match read_at(image, pos, 2) {
            Ok(head) => get16(head, 0) as u64,
            Err(e) => {
                return Err(e);
            },
        };
        if len == 0 {
            return Err(Error::BadLongPrefix);
        }
        let p: &[u8] = match read_at(image, pos + 2, len) {
            Ok(p) => p,
            Err(e) => {
                return Err(e);
            },
        };
        let n: usize = p.len();
        let ghost prev = out@;
        let ghost rest = prefixes_at(image@, pos + round_up(2 + len as int, 4), count - i - 1);
        let infix: Vec<u8> = copy_range(p, 1, n);
        assert(infix@ =~= p@.skip(1));
        out.push((p[0], infix));
        proof {
            lemma_chain_push(prefixes_view(prev), (p@[0], p@.skip(1)), rest);
            assert(prefixes_view(out@) =~= prefixes_view(prev).push((p@[0], p@.skip(1))));
        }
        pos = pos + align_up(2 + len, 4);
        i += 1;
    }
    proof {
        assert(prefixes_view(out@) + Seq::<(u8, Seq<u8>)>::empty() =~= prefixes_view(out@));
    }
    Ok(out)
}

impl Erofs {
    /// What opening an image establishes.
    pub closed spec fn inv(&self) -> bool {
        &&& open_fault(self.image@) is None
        &&& self.block_size == block_size(self.image@)
        &&& prefixes_of(self.image@) == Ok::<Seq<(u8, Seq<u8>)>, Error>(
            prefixes_view(self.long_prefixes@),
        )
    }

    /// The long xattr name prefixes.
    pub closed spec fn prefixes(&self) -> Seq<(u8, Seq<u8>)> {
        prefixes_view(self.long_prefixes@)
    }

    /// Opens an image.
    pub fn open(image: Vec<u8>) -> (r: Result<Self, Error>)
        ensures
            match r {
                Ok(fs) => {
                    &&& open_fault(image@) is None
                    &&& fs.inv()
                    &&& fs@ == image@
                    &&& prefixes_of(image@) == Ok::<Seq<(u8, Seq<u8>)>, Error>(fs.prefixes())
                },
                Err(e) => open_fault(image@) == Some(e),
            },
    {
        if image.len() < 1152 {
            return Err(Error::UnexpectedEof);
        }
        if get32(&image, 1024) != EROFS_MAGIC {
            return Err(Error::NotErofs);
        }
        let bits: u8 = image[1036];
        if bits < 9 || bits > 16 {
            return Err(Error::BadBlockSize);
        }
        if get32(&image, 1104) & INCOMPAT_UNSUPPORTED != 0 {
            return Err(Error::UnsupportedFeatures);
        }
        match read_prefixes(&image) {
            Ok(long_prefixes) => {
                assert(size_for_bits(bits as int) == block_size(image@)) by {
                    reveal(block_size);
                }
                Ok(Erofs { block_size: size_of_bits(bits), image, long_prefixes })
            },
            Err(e) => Err(e),
        }
    }

    fn inode_offset(&self, nid: u64) -> (r: u64)
        requires
            self.inv(),
            nid < 0x800_0000_0000,
        ensures
            r == inode_offset(self.image@, nid as int),
            r <= 0x2_0000_0000_0000,
    {
        proof {
            lemma_block_size(self.image@);
        }
        let base: u32 = get32(&self.image, 1064);
        let bs: u64 = self.block_size;
        assert(base * bs <= 0x1_0000_0000 * 0x1_0000) by (nonlinear_arith)
            requires
                base <= u32::MAX,
                bs <= 65536,
        ;
        base as u64 * bs + nid * 32
    }

    fn inode(&self, nid: u64) -> (r: Result<Inode, Error>)
        requires
            self.inv(),
        ensures
            match r {
                Ok(i) => {
                    &&& inode_at(self.image@, nid as int) == Ok::<InodeView, Error>(i@)
                    &&& i.nid < 0x800_0000_0000
                    &&& i.xattr_isize == 0 || 12 <= i.xattr_isize <= 0x4_0008
                    &&& i.isize <= 64
                },
                Err(e) => inode_at(self.image@, nid as int) == Err::<InodeView, Error>(e),
            },
    {
        let bs: u64 = self.block_size;
        let blocks: u32 = get32(&self.image, 1060);
        proof {
            lemma_block_size(self.image@);
        }
        assert(blocks * bs <= 0x1_0000_0000 * 0x1_0000) by (nonlinear_arith)
            requires
                blocks <= u32::MAX,
                bs <= 65536,
        ;
        if nid >= 0x800_0000_0000 || nid * 32 >= blocks as u64 * bs {
            return Err(Error::InodeOutside);
        }
        let off: u64 = self.inode_offset(nid);
        let short: &[u8] = match read_at(&self.image, off, 32) {
            Ok(b) => b,
            Err(e) => {
                return Err(e);
            },
        };
        let format: u16 = get16(short, 0);
        if format % 2 == 0 {
            Ok(self.parse_inode(nid, short))
        } else {
            match read_at(&self.image, off, 64) {
                Ok(b) => {
                    assert(le16(b@, 0) == le16(short@, 0));
                    Ok(self.parse_inode(nid, b))
                },
                Err(e) => Err(e),
            }
        }
    }

    /// The time of an inode in its short form: relative to the build time.
    fn compact_time(&self, b: &[u8]) -> (r: i64)
        requires
            self.inv(),
            b.len() >= 32,
        ensures
            r == compact_time(self.image@, b@),
    {
        let rel: u64 = if get32(&self.image, 1032) & COMPAT_MTIME != 0 {
            get32(b, 12) as u64
        } else {
            0
        };
        let built: u64 = get64(&self.image, 1048);
        let time: u64 = built.wrapping_add(rel);
        assert(time == (built + rel) % 0x1_0000_0000_0000_0000);
        time as i64
    }

    fn parse_inode(&self, nid: u64, b: &[u8]) -> (r: Inode)
        requires
            self.inv(),
            b.len() >= 32,
            le16(b@, 0) % 2 == 1 ==> b.len() >= 64,
        ensures
            r@ == inode_in(self.image@, nid as int, b@),
            r.nid == nid,
            r.xattr_isize == 0 || 12 <= r.xattr_isize <= 0x4_0008,
            r.isize <= 64,
    {
        let format: u16 = get16(b, 0);
        let icount: u16 = get16(b, 2);
        let xattr_isize: u64 = if icount == 0 {
            0
        } else {
            12 + (icount as u64 - 1) * 4
        };
        let layout: u16 = format / 2 % 8;
        let mode: u16 = get16(b, 4);
        let u: u32 = get32(b, 16);
        if format % 2 == 0 {
            Inode {
                nid,
                layout,
                isize: 32,
                xattr_isize,
                mode,
                size: get32(b, 8) as u64,
                u,
                uid: get16(b, 24) as u32,
                gid: get16(b, 26) as u32,
                mtime: self.compact_time(b),
            }
        } else {
            Inode {
                nid,
                layout,
                isize: 64,
                xattr_isize,
                mode,
                size: get64(b, 8),
                u,
                uid: get32(b, 24),
                gid: get32(b, 28),
                mtime: get64(b, 32) as i64,
            }
        }
    }

    /// Byte offset right after the inode and its inline xattrs.
    fn after_inode(&self, inode: &Inode) -> (r: u64)
        requires
            self.inv(),
            inode.nid < 0x800_0000_0000,
            inode.xattr_isize <= 0x4_0008,
            inode.isize <= 64,
        ensures
            r == after_inode(self.image@, inode@),
            r < 0x4_0000_0000_0000,
    {
        self.inode_offset(inode.nid) + inode.isize + inode.xattr_isize
    }

    fn block_address(&self, addr: u32) -> (r: Option<u64>)
        requires
            self.inv(),
        ensures
            match r {
                Some(p) => address(addr as int, block_size(self.image@)) == Some(p as int),
                None => address(addr as int, block_size(self.image@)) is None,
            },
    {
        proof {
            lemma_block_size(self.image@);
        }
        let bs: u64 = self.block_size;
        assert(addr * bs <= 0x1_0000_0000 * 0x1_0000) by (nonlinear_arith)
            requires
                addr <= u32::MAX,
                bs <= 65536,
        ;
        if addr == u32::MAX {
            None
        } else {
            Some(addr as u64 * bs)
        }
    }

    fn flat(&self, inode: &Inode) -> (r: Result<Vec<Piece>, Error>)
        requires
            self.inv(),
            inode.nid < 0x800_0000_0000,
            inode.xattr_isize <= 0x4_0008,
            inode.isize <= 64,
        ensures
            match r {
                Ok(v) => flat_pieces(self.image@, inode@) == Ok::<Seq<PieceView>, Error>(
                    pieces_view(v@),
                ),
                Err(e) => flat_pieces(self.image@, inode@) == Err::<Seq<PieceView>, Error>(e),
            },
    {
        proof {
            lemma_block_size(self.image@);
        }
        let bs: u64 = self.block_size;
        let size: u64 = inode.size;
        let tail: bool = inode.layout == 2 && size > 0;
        let body: u64 = if tail {
            proof {
                lemma_last_block(size as int, bs as int);
            }
            (size - 1) / bs * bs
        } else {
            size
        };
        let mut out: Vec<Piece> = Vec::new();
        if body > 0 {
            out.push(Piece { physical: self.block_address(inode.u), len: body });
        }
        let ghost head = pieces_view(out@);
        assert(head =~= (if body > 0 {
            seq![
                PieceView {
                    physical: address(inode@.u, block_size(self.image@)),
                    len: body as int,
                },
            ]
        } else {
            Seq::empty()
        }));
        if tail {
            let start: u64 = self.after_inode(inode);
            let len: u64 = size - body;
            if start % bs + len > bs {
                return Err(Error::TailCrossesBlock);
            }
            let last: Piece = Piece { physical: Some(start), len };
            out.push(last);
            assert(pieces_view(out@) =~= head.push(last@));
        }
        Ok(out)
    }

    fn chunked(&self, inode: &Inode) -> (r: Result<Vec<Piece>, Error>)
        requires
            self.inv(),
            inode.nid < 0x800_0000_0000,
            inode.xattr_isize <= 0x4_0008,
            inode.isize <= 64,
        ensures
            match r {
                Ok(v) => chunk_pieces(self.image@, inode@) == Ok::<Seq<PieceView>, Error>(
                    pieces_view(v@),
                ),
                Err(e) => chunk_pieces(self.image@, inode@) == Err::<Seq<PieceView>, Error>(e),
            },
    {
        proof {
            lemma_block_size(self.image@);
        }
        let bs: u64 = self.block_size;
        let size: u64 = inode.size;
        let format: u32 = inode.u % 0x1_0000;
        let shift: u32 = format % 32;
        proof {
            lemma_chunk_size(bs, shift);
        }
        let chunk: u64 = bs << shift;
        let unit: u64 = if format / 32 % 2 == 1 {
            8
        } else {
            4
        };
        proof {
            lemma_chunk_count(size as int, chunk as int);
        }
        let n: u64 = size / chunk + (if size % chunk == 0 {
            0
        } else {
            1
        });
        let start: u64 = align_up(self.after_inode(inode), unit);
        let table: &[u8] = match read_at(&self.image, start, n * unit) {
            Ok(t) => t,
            Err(e) => {
                return Err(e);
            },
        };
        let ghost total = chunks_from(
            table@,
            unit as int,
            size as int,
            chunk as int,
            bs as int,
            0,
            n as int,
        );
        assert(total == chunk_pieces(self.image@, inode@));
        let mut out: Vec<Piece> = Vec::new();
        proof {
            assert(pieces_view(out@) =~= Seq::empty());
            lemma_chain_empty(total);
        }
        let mut i: u64 = 0;
        while i < n
            invariant
                self.inv(),
                i <= n,
                bs == block_size(self.image@),
                total == chunk_pieces(self.image@, inode@),
                unit == 4 || unit == 8,
                table@.len() == n * unit,
                n * unit <= table.len(),
                chunk > 0,
                n == ceil_div(size as int, chunk as int),
                chain(
                    pieces_view(out@),
                    chunks_from(
                        table@,
                        unit as int,
                        size as int,
                        chunk as int,
                        bs as int,
                        i as int,
                        n as int,
                    ),
                ) == total,
            decreases n - i,
        {
            let e: usize = (i * unit) as usize;
            let (dev, addr): (u16, u32) = if unit == 8 {
                (get16(table, e + 2), get32(table, e + 4))
            } else {
                (0, get32(table, e))
            };
            if dev != 0 {
                return Err(Error::ChunkOnOtherDevice);
            }
            proof {
                lemma_chunk_left(size as int, chunk as int, i as int);
            }
            let left: u64 = size - i * chunk;
            let piece: Piece = Piece {
                physical: self.block_address(addr),
                len: if chunk < left {
                    chunk
                } else {
                    left
                },
            };
            let ghost prev = out@;
            out.push(piece);
            proof {
                assert(pieces_view(out@) =~= pieces_view(prev).push(piece@));
                lemma_chain_push(
                    pieces_view(prev),
                    piece@,
                    chunks_from(
                        table@,
                        unit as int,
                        size as int,
                        chunk as int,
                        bs as int,
                        i + 1,
                        n as int,
                    ),
                );
            }
            i += 1;
        }
        assert(pieces_view(out@) + Seq::<PieceView>::empty() =~= pieces_view(out@));
        Ok(out)
    }

    /// Where the bytes of a file, directory or symlink are, in order.
    fn pieces(&self, inode: &Inode) -> (r: Result<Vec<Piece>, Error>)
        requires
            self.inv(),
            inode.nid < 0x800_0000_0000,
            inode.xattr_isize <= 0x4_0008,
            inode.isize <= 64,
        ensures
            match r {
                Ok(v) => pieces_of(self.image@, inode@) == Ok::<Seq<PieceView>, Error>(
                    pieces_view(v@),
                ),
                Err(e) => pieces_of(self.image@, inode@) == Err::<Seq<PieceView>, Error>(e),
            },
    {
        if inode.layout == 0 || inode.layout == 2 {
            self.flat(inode)
        } else if inode.layout == 4 {
            self.chunked(inode)
        } else if inode.layout == 1 || inode.layout == 3 {
            Err(Error::Compressed)
        } else {
            Err(Error::UnknownDataLayout)
        }
    }

    /// The content of an inode.
    fn data(&self, inode: &Inode) -> (r: Result<Vec<u8>, Error>)
        requires
            self.inv(),
            inode.nid < 0x800_0000_0000,
            inode.xattr_isize <= 0x4_0008,
            inode.isize <= 64,
        ensures
            match r {
                Ok(v) => data_of(self.image@, inode@) == Ok::<Seq<u8>, Error>(v@),
                Err(e) => data_of(self.image@, inode@) == Err::<Seq<u8>, Error>(e),
            },
    {
        let pieces: Vec<Piece> = match self.pieces(inode) {
            Ok(p) => p,
            Err(e) => {
                return Err(e);
            },
        };
        let ghost all = pieces_view(pieces@);
        let ghost total = bytes_from(self.image@, all, 0);
        let mut out: Vec<u8> = Vec::new();
        proof {
            assert(out@ =~= Seq::empty());
            lemma_chain_empty(total);
        }
        let mut i: usize = 0;
        while i < pieces.len()
            invariant
                i <= pieces.len(),
                all == pieces_view(pieces@),
                total == data_of(self.image@, inode@),
                chain(out@, bytes_from(self.image@, all, i as int)) == total,
            decreases pieces.len() - i,
        {
            let p: Piece = pieces[i];
            assert(all[i as int] == p@);
            let ghost prev = out@;
            let ghost rest = bytes_from(self.image@, all, i + 1);
            match p.physical {
                Some(at) => {
                    match read_at(&self.image, at, p.len) {
                        Ok(b) => {
                            push_bytes(&mut out, b);
                            proof {
                                lemma_chain_append(prev, b@, rest);
                            }
                        },
                        Err(e) => {
                            return Err(e);
                        },
                    }
                },
                None => {
                    push_many_zeros(&mut out, p.len);
                    proof {
                        lemma_chain_append(prev, zero_seq(p.len as int), rest);
                    }
                },
            }
            i += 1;
        }
        assert(out@ + Seq::<u8>::empty() =~= out@);
        Ok(out)
    }
}

/// Appends `n` zero bytes.
fn push_many_zeros(v: &mut Vec<u8>, n: u64)
    ensures
        final(v)@ == old(v)@ + zero_seq(n as int),
{
    let mut i: u64 = 0;
    while i < n
        invariant
            0 <= i <= n,
            v@ =~= old(v)@ + zero_seq(i as int),
        decreases n - i,
    {
        v.push(0);
        i += 1;
    }
}

proof fn lemma_last_block(size: int, bs: int)
    requires
        0 < size,
        0 < bs,
    ensures
        (size - 1) / bs == ceil_div(size, bs) - 1,
        0 <= (size - 1) / bs * bs <= size - 1,
        (size - 1) / bs * bs == (ceil_div(size, bs) - 1) * bs,
        size - (size - 1) / bs * bs <= bs,
{
    let q = (size - 1) / bs;
    assert((size + bs - 1) / bs == q + 1) by (nonlinear_arith)
        requires
            q == (size - 1) / bs,
            0 < bs,
    ;
    assert(0 <= q * bs <= size - 1 && size - q * bs <= bs) by (nonlinear_arith)
        requires
            q == (size - 1) / bs,
            0 < bs,
            0 < size,
    ;
}

proof fn lemma_chunk_size(bs: u64, shift: u32)
    requires
        512 <= bs <= 65536,
        shift < 32,
    ensures
        bs << shift == bs * pow2(shift as nat),
        512 <= bs * pow2(shift as nat) <= 0x8000_0000_0000,
{
    let p = pow2(shift as nat) as int;
    lemma_pow2_pos(shift as nat);
    lemma_pow2_strictly_increases(shift as nat, 32);
    lemma2_to64();
    lemma2_to64_rest();
    lemma_pow2_unfold(32);
    if shift < 31 {
        lemma_pow2_strictly_increases(shift as nat, 31);
    }
    assert(512 <= bs * p <= 65536 * 0x8000_0000) by (nonlinear_arith)
        requires
            512 <= bs <= 65536,
            1 <= p <= 0x8000_0000,
    ;
    lemma_u64_shl_is_mul(bs, shift as u64);
}

proof fn lemma_chunk_count(size: int, chunk: int)
    requires
        0 <= size <= u64::MAX,
        512 <= chunk,
    ensures
        size / chunk + (if size % chunk == 0 {
            0int
        } else {
            1
        }) == ceil_div(size, chunk),
        0 <= size / chunk <= 0x80_0000_0000_0000,
        ceil_div(size, chunk) <= 0x80_0000_0000_0000,
        size % chunk != 0 ==> size / chunk < 0x80_0000_0000_0000,
{
    let q = size / chunk;
    let r = size % chunk;
    assert(size == q * chunk + r && 0 <= r < chunk) by (nonlinear_arith)
        requires
            0 < chunk,
            q == size / chunk,
            r == size % chunk,
    ;
    if r == 0 {
        assert((size + chunk - 1) / chunk == q) by (nonlinear_arith)
            requires
                size == q * chunk,
                0 < chunk,
        ;
    } else {
        assert((size + chunk - 1) / chunk == q + 1) by (nonlinear_arith)
            requires
                size == q * chunk + r,
                0 < r < chunk,
        ;
    }
    assert(0 <= q < 0x80_0000_0000_0000) by (nonlinear_arith)
        requires
            0 <= size <= u64::MAX,
            q * chunk <= size,
            q == size / chunk,
            512 <= chunk,
    ;
}

proof fn lemma_chunk_left(size: int, chunk: int, i: int)
    requires
        0 <= size,
        0 < chunk,
        0 <= i < ceil_div(size, chunk),
    ensures
        0 <= i * chunk < size,
{
    assert(0 <= i * chunk < size) by (nonlinear_arith)
        requires
            i < (size + chunk - 1) / chunk,
            0 <= i,
            0 < chunk,
    ;
}

/// An xattr entry: its size with padding, its name if that is known, its
/// value.
#[derive(Debug)]
pub struct XattrEntry {
    pub len: usize,
    pub name: Option<String>,
    pub value: Vec<u8>,
}

impl View for XattrEntry {
    type V = XattrEntryView;

    open spec fn view(&self) -> XattrEntryView {
        XattrEntryView { len: self.len as int, name: text_view(self.name), value: self.value@ }
    }
}

fn prefix_of(index: u8) -> (r: Option<&'static str>)
    ensures
        match r {
            Some(p) => prefix_text(index as int) == Some(p@),
            None => prefix_text(index as int) is None,
        },
{
    if index == 0 {
        Some("")
    } else if index == 1 {
        Some("user.")
    } else if index == 2 {
        Some("system.posix_acl_access")
    } else if index == 3 {
        Some("system.posix_acl_default")
    } else if index == 4 {
        Some("trusted.")
    } else if index == 5 {
        Some("lustre.")
    } else if index == 6 {
        Some("security.")
    } else {
        None
    }
}

/// Appends an entry with a known name.
fn push_known(out: &mut Vec<(String, Vec<u8>)>, x: XattrEntry)
    ensures
        xattrs_view(final(out)@) == xattrs_view(old(out)@) + known(x@),
{
    match x.name {
        Some(n) => {
            out.push((n, x.value));
        },
        None => {},
    }
    assert(xattrs_view(out@) =~= xattrs_view(old(out)@) + known(x@));
}

impl Erofs {
    /// Full name of an xattr entry's index + name.
    fn xattr_name(&self, index: u8, name: &[u8]) -> (r: Option<String>)
        ensures
            text_view(r) == xattr_name(self.prefixes(), index as int, name@),
    {
        if index >= 128 {
            let k: usize = index as usize - 128;
            if k >= self.long_prefixes.len() {
                return None;
            }
            assert(self.prefixes()[k as int] == (
                self.long_prefixes@[k as int].0,
                self.long_prefixes@[k as int].1@,
            ));
            match prefix_of(self.long_prefixes[k].0) {
                Some(p) => {
                    let mut s: String = p.to_string();
                    s.append(lossy(&self.long_prefixes[k].1).as_str());
                    s.append(lossy(name).as_str());
                    Some(s)
                },
                None => None,
            }
        } else {
            match prefix_of(index) {
                Some(p) => {
                    let mut s: String = p.to_string();
                    s.append(lossy(name).as_str());
                    Some(s)
                },
                None => None,
            }
        }
    }

    /// Parses one entry at the start of `b`.
    pub fn xattr_entry(&self, b: &[u8]) -> (r: Result<XattrEntry, Error>)
        ensures
            match r {
                Ok(x) => xattr_entry_in(self.prefixes(), b@) == Ok::<XattrEntryView, Error>(x@)
                    && 4 <= x.len <= 0x1_0200,
                Err(e) => xattr_entry_in(self.prefixes(), b@) == Err::<XattrEntryView, Error>(e),
            },
    {
        if b.len() < 4 {
            return Err(Error::TruncatedXattr);
        }
        let name_len: usize = b[0] as usize;
        let value_len: usize = get16(b, 2) as usize;
        let end: usize = 4 + name_len + value_len;
        if end > b.len() {
            return Err(Error::TruncatedXattr);
        }
        let name: Option<String> = self.xattr_name(
            b[1],
            vstd::slice::slice_subrange(b, 4, 4 + name_len),
        );
        Ok(
            XattrEntry {
                len: align_up(end as u64, 4) as usize,
                name,
                value: copy_range(b, 4 + name_len, end),
            },
        )
    }

    /// The shared xattrs whose ids stand in `area`.
    fn shared_xattrs(&self, area: &[u8], n: usize) -> (r: Result<Vec<(String, Vec<u8>)>, Error>)
        requires
            self.inv(),
            n <= 255,
            12 + 4 * n <= area.len(),
        ensures
            match r {
                Ok(v) => shared_from(self.image@, self.prefixes(), area@, 0, n as int) == Ok::<
                    Seq<(Seq<char>, Seq<u8>)>,
                    Error,
                >(xattrs_view(v@)),
                Err(e) => shared_from(self.image@, self.prefixes(), area@, 0, n as int) == Err::<
                    Seq<(Seq<char>, Seq<u8>)>,
                    Error,
                >(e),
            },
    {
        let ghost total = shared_from(self.image@, self.prefixes(), area@, 0, n as int);
        let mut out: Vec<(String, Vec<u8>)> = Vec::new();
        proof {
            assert(xattrs_view(out@) =~= Seq::empty());
            lemma_chain_empty(total);
            lemma_block_size(self.image@);
        }
        let bs: u64 = self.block_size;
        let base: u32 = get32(&self.image, 1068);
        assert(base * bs <= 0x1_0000_0000 * 0x1_0000) by (nonlinear_arith)
            requires
                base <= u32::MAX,
                bs <= 65536,
        ;
        let mut i: usize = 0;
        while i < n
            invariant
                self.inv(),
                i <= n <= 255,
                12 + 4 * n <= area.len(),
                bs == block_size(self.image@),
                base == le32(self.image@, 1068),
                base * bs <= 0x1_0000_0000 * 0x1_0000,
                total == shared_from(self.image@, self.prefixes(), area@, 0, n as int),
                chain(
                    xattrs_view(out@),
                    shared_from(self.image@, self.prefixes(), area@, i as int, n as int),
                ) == total,
            decreases n - i,
        {
            let at: u64 = base as u64 * bs + 4 * get32(area, 12 + 4 * i) as u64;
            let len: u64 = match read_at(&self.image, at, 4) {
                Ok(head) => 4 + head[0] as u64 + get16(head, 2) as u64,
                Err(e) => {
                    return Err(e);
                },
            };
            let b: &[u8] = match read_at(&self.image, at, len) {
                Ok(b) => b,
                Err(e) => {
                    return Err(e);
                },
            };
            match self.xattr_entry(b) {
                Ok(x) => {
                    proof {
                        lemma_chain_append(
                            xattrs_view(out@),
                            known(x@),
                            shared_from(self.image@, self.prefixes(), area@, i + 1, n as int),
                        );
                    }
                    push_known(&mut out, x);
                },
                Err(e) => {
                    return Err(e);
                },
            }
            i += 1;
        }
        assert(xattrs_view(out@) + Seq::<(Seq<char>, Seq<u8>)>::empty() =~= xattrs_view(out@));
        Ok(out)
    }

    /// All xattrs of an inode as (full name, value).
    fn xattrs(&self, inode: &Inode) -> (r: Result<Vec<(String, Vec<u8>)>, Error>)
        requires
            self.inv(),
            inode.nid < 0x800_0000_0000,
            inode.xattr_isize == 0 || 12 <= inode.xattr_isize <= 0x4_0008,
            inode.isize <= 64,
        ensures
            match r {
                Ok(v) => xattrs_of(self.image@, self.prefixes(), inode@) == Ok::<
                    Seq<(Seq<char>, Seq<u8>)>,
                    Error,
                >(xattrs_view(v@)),
                Err(e) => xattrs_of(self.image@, self.prefixes(), inode@) == Err::<
                    Seq<(Seq<char>, Seq<u8>)>,
                    Error,
                >(e),
            },
    {
        if inode.xattr_isize == 0 {
            let out: Vec<(String, Vec<u8>)> = Vec::new();
            assert(xattrs_view(out@) =~= Seq::empty());
            return Ok(out);
        }
        let start: u64 = self.inode_offset(inode.nid) + inode.isize;
        let area: &[u8] = match read_at(&self.image, start, inode.xattr_isize) {
            Ok(a) => a,
            Err(e) => {
                return Err(e);
            },
        };
        let n: usize = area[4] as usize;
        let mut pos: usize = 12 + 4 * n;
        if pos > area.len() {
            return Err(Error::BadXattrHeader);
        }
        let mut out: Vec<(String, Vec<u8>)> = match self.shared_xattrs(area, n) {
            Ok(v) => v,
            Err(e) => {
                return Err(e);
            },
        };
        let ghost total = chain(xattrs_view(out@), inline_from(self.prefixes(), area@, pos as int));
        while pos + 4 <= area.len()
            invariant
                area.len() <= 0x4_0008,
                pos <= area.len() + 0x1_0200,
                total == xattrs_of(self.image@, self.prefixes(), inode@),
                chain(xattrs_view(out@), inline_from(self.prefixes(), area@, pos as int)) == total,
            decreases area.len() + 0x1_0200 - pos,
        {
            let len: usize = area.len();
            let rest: &[u8] = vstd::slice::slice_subrange(area, pos, len);
            assert(rest@ =~= area@.skip(pos as int));
            match self.xattr_entry(rest) {
                Ok(x) => {
                    let size: usize = x.len;
                    proof {
                        lemma_chain_append(
                            xattrs_view(out@),
                            known(x@),
                            inline_from(self.prefixes(), area@, pos + size),
                        );
                    }
                    push_known(&mut out, x);
                    pos = pos + size;
                },
                Err(e) => {
                    return Err(e);
                },
            }
        }
        assert(xattrs_view(out@) + Seq::<(Seq<char>, Seq<u8>)>::empty() =~= xattrs_view(out@));
        Ok(out)
    }
}

fn is_dot_name(name: &[u8]) -> (r: bool)
    ensures
        r == is_dot(name@),
{
    let n: usize = name.len();
    let one: bool = n == 1 && name[0] == 0x2e;
    let two: bool = n == 2 && name[0] == 0x2e && name[1] == 0x2e;
    assert(one <==> name@ =~= seq![0x2eu8]);
    assert(two <==> name@ =~= seq![0x2eu8, 0x2eu8]);
    one || two
}

/// Where the name of entry `i` ends.
fn find_name_end(block: &[u8], count: usize, i: usize) -> (r: usize)
    requires
        i < count,
        12 * count <= block.len(),
        block.len() <= 65536,
    ensures
        r == name_end(block@, count as int, i as int),
{
    let start: usize = get16(block, 12 * i + 8) as usize;
    let n: usize = block.len();
    if i + 1 < count {
        get16(block, 12 * i + 20) as usize
    } else if start >= n {
        start
    } else {
        let rest: &[u8] = vstd::slice::slice_subrange(block, start, n);
        assert(rest@ =~= block@.skip(start as int));
        start + nul_position(rest)
    }
}

/// Appends the entries of one directory block.
fn push_entries(out: &mut Vec<(Vec<u8>, u64)>, block: &[u8]) -> (r: Result<(), Error>)
    requires
        block.len() <= 65536,
    ensures
        match r {
            Ok(()) => {
                &&& block_entries(block@) is Ok
                &&& list_view(final(out)@) == list_view(old(out)@) + block_entries(block@)->Ok_0
            },
            Err(e) => block_entries(block@) == Err::<Seq<(Seq<u8>, u64)>, Error>(e),
        },
{
    if block.len() < 12 {
        return Err(Error::TruncatedDirectory);
    }
    let first: usize = get16(block, 8) as usize;
    if first < 12 || first % 12 != 0 || first > block.len() {
        return Err(Error::BadDirectoryBlock);
    }
    let count: usize = first / 12;
    let ghost base = list_view(out@);
    let ghost total = chain(base, entries_from(block@, count as int, 0));
    let mut i: usize = 0;
    while i < count
        invariant
            i <= count,
            12 * count <= block.len() <= 65536,
            total == chain(base, entries_from(block@, count as int, 0)),
            entries_from(block@, count as int, 0) == block_entries(block@),
            chain(list_view(out@), entries_from(block@, count as int, i as int)) == total,
        decreases count - i,
    {
        let child: u64 = get64(block, 12 * i);
        let start: usize = get16(block, 12 * i + 8) as usize;
        let end: usize = find_name_end(block, count, i);
        if start > end || end > block.len() {
            return Err(Error::BadDirectoryEntry);
        }
        let name: Vec<u8> = copy_range(block, start, end);
        let ghost rest = entries_from(block@, count as int, i + 1);
        if is_dot_name(&name) {
            proof {
                lemma_chain_empty(rest);
            }
        } else {
            let ghost prev = list_view(out@);
            proof {
                lemma_chain_push(prev, (name@, child), rest);
            }
            out.push((name, child));
            assert(list_view(out@) =~= prev.push((name@, child)));
        }
        i += 1;
    }
    assert(list_view(out@) + Seq::<(Seq<u8>, u64)>::empty() =~= list_view(out@));
    Ok(())
}

/// All entries of a directory.
fn list_dir(data: &Vec<u8>, bs: u64) -> (r: Result<Vec<(Vec<u8>, u64)>, Error>)
    requires
        0 < bs <= 65536,
    ensures
        match r {
            Ok(v) => list_from(data@, bs as int, 0) == Ok::<Seq<(Seq<u8>, u64)>, Error>(
                list_view(v@),
            ),
            Err(e) => list_from(data@, bs as int, 0) == Err::<Seq<(Seq<u8>, u64)>, Error>(e),
        },
{
    let ghost total = list_from(data@, bs as int, 0);
    let mut out: Vec<(Vec<u8>, u64)> = Vec::new();
    proof {
        assert(list_view(out@) =~= Seq::empty());
        lemma_chain_empty(total);
    }
    let n: usize = data.len();
    let size: usize = bs as usize;
    let mut at: usize = 0;
    while at < n
        invariant
            at <= n,
            n == data.len(),
            size == bs,
            0 < bs <= 65536,
            total == list_from(data@, bs as int, 0),
            chain(list_view(out@), list_from(data@, bs as int, at as int)) == total,
        decreases n - at,
    {
        let len: usize = if n - at > size {
            size
        } else {
            n - at
        };
        let block: &[u8] = vstd::slice::slice_subrange(data, at, at + len);
        let ghost prev = list_view(out@);
        assert(block@ == block_at(data@, at as int, bs as int));
        match push_entries(&mut out, block) {
            Ok(()) => {},
            Err(e) => {
                return Err(e);
            },
        }
        proof {
            lemma_chain_append(
                prev,
                block_entries(block@)->Ok_0,
                list_from(data@, bs as int, at + bs),
            );
            if at + len == n {
                assert(list_from(data@, bs as int, at + bs) == list_from(
                    data@,
                    bs as int,
                    n as int,
                ));
            }
        }
        at = at + len;
    }
    assert(list_view(out@) + Seq::<(Seq<u8>, u64)>::empty() =~= list_view(out@));
    Ok(out)
}

/// The name of a feature bit; unknown bits are shown as a mask.
pub open spec fn feature_name(in_compat: bool, bit: int) -> Seq<char> {
    if !in_compat && bit == 0 {
        "sb_csum"@
    } else if !in_compat && bit == 1 {
        "mtime"@
    } else if !in_compat && bit == 2 {
        "xattr_filter"@
    } else if in_compat && bit == 0 {
        "0padding"@
    } else if in_compat && bit == 1 {
        "compr_cfgs"@
    } else if in_compat && bit == 2 {
        "chunked_file"@
    } else if in_compat && bit == 3 {
        "device_table"@
    } else if in_compat && bit == 4 {
        "ztailpacking"@
    } else if in_compat && bit == 5 {
        "fragments"@
    } else if in_compat && bit == 6 {
        "xattr_prefixes"@
    } else if in_compat && bit == 7 {
        "48bit"@
    } else if in_compat && bit == 8 {
        "metabox"@
    } else {
        "0x"@ + hex(pow2(bit as nat))
    }
}

/// The names of the features in the first `n` bits.
pub open spec fn feature_names(in_compat: bool, bits: u32, n: int) -> Seq<char>
    decreases n,
{
    if n <= 0 {
        Seq::empty()
    } else if bits & (1u32 << ((n - 1) as u32)) == 0 {
        feature_names(in_compat, bits, n - 1)
    } else {
        with_word(feature_names(in_compat, bits, n - 1), feature_name(in_compat, n - 1))
    }
}

fn name_of_feature(in_compat: bool, bit: u32) -> (r: String)
    requires
        bit < 32,
    ensures
        r@ == feature_name(in_compat, bit as int),
{
    if !in_compat && bit == 0 {
        "sb_csum".to_string()
    } else if !in_compat && bit == 1 {
        "mtime".to_string()
    } else if !in_compat && bit == 2 {
        "xattr_filter".to_string()
    } else if in_compat && bit == 0 {
        "0padding".to_string()
    } else if in_compat && bit == 1 {
        "compr_cfgs".to_string()
    } else if in_compat && bit == 2 {
        "chunked_file".to_string()
    } else if in_compat && bit == 3 {
        "device_table".to_string()
    } else if in_compat && bit == 4 {
        "ztailpacking".to_string()
    } else if in_compat && bit == 5 {
        "fragments".to_string()
    } else if in_compat && bit == 6 {
        "xattr_prefixes".to_string()
    } else if in_compat && bit == 7 {
        "48bit".to_string()
    } else if in_compat && bit == 8 {
        "metabox".to_string()
    } else {
        let mut s: String = "0x".to_string();
        proof {
            lemma_pow2_pos(bit as nat);
            lemma_pow2_strictly_increases(bit as nat, 32);
            lemma2_to64();
            lemma_u64_shl_is_mul(1, bit as u64);
        }
        push_hex(&mut s, 1u64 << bit);
        s
    }
}

/// The names of the features in `bits`, separated by spaces.
pub fn feature_list(in_compat: bool, bits: u32) -> (r: String)
    ensures
        r@ == feature_names(in_compat, bits, 32),
{
    let mut s: String = String::new();
    let mut bit: u32 = 0;
    while bit < 32
        invariant
            bit <= 32,
            s@ == feature_names(in_compat, bits, bit as int),
        decreases 32 - bit,
    {
        if bits & (1u32 << bit) != 0 {
            let name: String = name_of_feature(in_compat, bit);
            push_word(&mut s, name.as_str());
        }
        bit += 1;
    }
    s
}

/// The parameters of an image, as key and value.
pub open spec fn parameters_of(image: Seq<u8>) -> Seq<(Seq<char>, Seq<char>)> {
    seq![
        ("fs_type"@, "erofs"@),
        ("volume_name"@, text_of(until_nul(image.subrange(1088, 1104), 0))),
        ("uuid"@, uuid_text(image.subrange(1072, 1088), 16)),
        ("block_size"@, decimal(block_size(image) as nat)),
        ("blocks"@, decimal(blocks(image) as nat)),
        ("inodes"@, decimal(le64(image, 1040) as nat)),
        ("created"@, decimal(le64(image, 1048) as nat)),
        ("created_nsec"@, decimal(le32(image, 1056) as nat)),
        (
            "features"@,
            with_word(
                feature_names(false, compat(image), 32),
                feature_names(true, incompat(image), 32),
            ),
        ),
    ]
}

fn pair(key: &str, value: String) -> (r: (String, String))
    ensures
        r.0@ == key@,
        r.1@ == value@,
{
    (key.to_string(), value)
}

impl Filesystem for Erofs {
    type Node = u64;

    open spec fn wf(&self) -> bool {
        self.inv()
    }

    open spec fn format_name(&self) -> Seq<char> {
        "erofs"@
    }

    open spec fn root_node(&self) -> u64 {
        le16(self@, 1038) as u64
    }

    open spec fn meta_at(&self, node: u64) -> Result<MetaView, Error> {
        meta_of(self@, self.prefixes(), node as int)
    }

    open spec fn dir_at(&self, node: u64) -> Result<Seq<(Seq<u8>, u64)>, Error> {
        dir_of(self@, node as int)
    }

    open spec fn file_at(&self, node: u64) -> Result<Seq<u8>, Error> {
        file_of(self@, node as int)
    }

    open spec fn link_at(&self, node: u64) -> Result<Seq<u8>, Error> {
        file_of(self@, node as int)
    }

    open spec fn label(&self) -> Seq<char> {
        text_of(until_nul(self@.subrange(1088, 1104), 0))
    }

    open spec fn parameters(&self) -> Seq<(Seq<char>, Seq<char>)> {
        parameters_of(self@)
    }

    fn fs_type(&self) -> (r: &'static str) {
        "erofs"
    }

    fn root(&self) -> (r: u64) {
        get16(&self.image, 1038) as u64
    }

    fn meta(&self, nid: u64) -> (r: Result<Meta, Error>) {
        let inode: Inode = match self.inode(nid) {
            Ok(i) => i,
            Err(e) => {
                return Err(e);
            },
        };
        let kind: Kind = match mode_kind(inode.mode) {
            Ok(k) => k,
            Err(e) => {
                return Err(e);
            },
        };
        let xattrs: Vec<(String, Vec<u8>)> = match self.xattrs(&inode) {
            Ok(x) => x,
            Err(e) => {
                return Err(e);
            },
        };
        let (selinux, capabilities): (Option<String>, Option<u64>) = pick_security(&xattrs);
        Ok(
            Meta {
                kind,
                mode: (inode.mode % 0x1000) as u32,
                uid: inode.uid,
                gid: inode.gid,
                mtime: inode.mtime,
                size: inode.size,
                selinux,
                capabilities,
            },
        )
    }

    fn read_dir(&self, nid: u64) -> (r: Result<Vec<(Vec<u8>, u64)>, Error>) {
        let inode: Inode = match self.inode(nid) {
            Ok(i) => i,
            Err(e) => {
                return Err(e);
            },
        };
        match mode_kind(inode.mode) {
            Ok(Kind::Dir) => {},
            Ok(_) => {
                return Err(Error::NotADirectory);
            },
            Err(e) => {
                return Err(e);
            },
        }
        let data: Vec<u8> = match self.data(&inode) {
            Ok(d) => d,
            Err(e) => {
                return Err(e);
            },
        };
        proof {
            lemma_block_size(self.image@);
        }
        list_dir(&data, self.block_size)
    }

    fn read_file(&self, nid: u64) -> (r: Result<Vec<u8>, Error>) {
        match self.inode(nid) {
            Ok(inode) => self.data(&inode),
            Err(e) => Err(e),
        }
    }

    fn read_link(&self, nid: u64) -> (r: Result<Vec<u8>, Error>) {
        match self.inode(nid) {
            Ok(inode) => self.data(&inode),
            Err(e) => Err(e),
        }
    }

    fn volume_name(&self) -> (r: String) {
        cstr(vstd::slice::slice_subrange(&self.image, 1088, 1104))
    }

    fn info(&self) -> (r: Vec<(String, String)>) {
        let image: &Vec<u8> = &self.image;
        let mut features: String = feature_list(false, get32(image, 1032));
        push_word(&mut features, feature_list(true, get32(image, 1104)).as_str());
        let mut v: Vec<(String, String)> = Vec::new();
        v.push(pair("fs_type", "erofs".to_string()));
        v.push(pair("volume_name", self.volume_name()));
        v.push(pair("uuid", uuid(vstd::slice::slice_subrange(image, 1072, 1088))));
        v.push(pair("block_size", decimal_of(self.block_size)));
        v.push(pair("blocks", decimal_of(get32(image, 1060) as u64)));
        v.push(pair("inodes", decimal_of(get64(image, 1040))));
        v.push(pair("created", decimal_of(get64(image, 1048))));
        v.push(pair("created_nsec", decimal_of(get32(image, 1056) as u64)));
        v.push(pair("features", features));
        assert(info_view(v@) =~= parameters_of(image@));
        v
    }
}

} // verus!
