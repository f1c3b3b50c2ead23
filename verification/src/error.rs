//! What can go wrong, as plain values.
use vstd::prelude::*;

verus! {

#[derive(Debug, Clone, Copy, PartialEq, Eq, Structural)]
pub enum Error {
    /// A read past the end of the image.
    UnexpectedEof,
    /// The root of an image tree must be a directory.
    RootNotDirectory,
    /// Two entries of one directory have the same name.
    DuplicateName,
    /// An empty or overlong name, or one that a path cannot hold.
    BadFileName,
    /// A symlink target that is empty or does not fit in a block.
    BadSymlinkTarget,
    /// ext4: the root has no lost+found directory.
    NoLostFound,
    /// ext4: more inodes than the groups can hold.
    TooManyInodes,
    /// ext4: no room for the metadata of a single group.
    ImageTooSmall,
    /// ext4: the content does not fit; a bigger size is needed.
    StorageFull,
    /// ext4: xattrs that do not fit in one block.
    XattrsTooBig,
    /// EROFS: so many shared xattrs that the root inode is out of reach.
    RootOutOfReach,
    /// More blocks than block addresses.
    ImageTooBig,
    UnsupportedBlockSize,
    VolumeNameTooLong,
    /// The superblock magic is not the one of EROFS.
    NotErofs,
    /// The superblock magic is not the one of ext2, ext3 and ext4.
    NotExt4,
    /// ext4: no inodes per group, or inodes that are too small.
    BadSuperblock,
    /// A block number past the end of the filesystem.
    BlockOutside,
    /// ext4: an xattr entry or value that runs past its block.
    XattrPastBlock,
    /// ext4: xattr values that are stored in each other.
    XattrLoop,
    BadExtentTree,
    ExtentNodeOverflows,
    OverlappingExtents,
    /// ext4: an extent that points outside the filesystem.
    ExtentOutside,
    EncryptedFile,
    /// A block size (as its logarithm) that the format does not have.
    BadBlockSize,
    /// Feature bits that change how the metadata is laid out.
    UnsupportedFeatures,
    /// EROFS: long xattr name prefixes in a packed inode.
    PackedPrefixes,
    /// EROFS: an empty long xattr name prefix.
    BadLongPrefix,
    /// An inode number past the end of the filesystem.
    InodeOutside,
    UnknownFileType,
    /// EROFS: an inline tail that does not fit in the block of its inode.
    TailCrossesBlock,
    /// EROFS: chunks on extra devices are not supported.
    ChunkOnOtherDevice,
    /// EROFS: compressed files are not supported.
    Compressed,
    UnknownDataLayout,
    TruncatedXattr,
    BadXattrHeader,
    NotADirectory,
    TruncatedDirectory,
    BadDirectoryBlock,
    BadDirectoryEntry,
    /// Not a vbmeta image (no AVB0 magic).
    NotVbmeta,
    /// The partitions of a group need more than its maximum size.
    GroupFull,
    /// The partitions of a group in the list of dynamic partitions need more
    /// than its size.
    OpListFull,
    /// super_empty.img: no liblp geometry.
    NoGeometry,
    /// super_empty.img: nothing behind the geometry.
    NoMetadata,
    /// super_empty.img: no liblp header.
    NoHeader,
    /// super_empty.img: the header is longer than the metadata.
    TruncatedMetadata,
    /// super_empty.img: a table that reaches past the end, or whose entries
    /// are too short for their fields.
    TruncatedTable,
    /// super_empty.img: a partition in a group that does not exist.
    BadGroupIndex,
    /// A range that reaches past the end of a zip.
    TruncatedZip,
    /// An Android sparse image, which has to be converted to a raw one first.
    SparseImage,
    /// EROFS images cannot be extracted.
    ErofsImage,
    /// Neither ext4 nor EROFS.
    UnknownFilesystem,
    /// Not `auto`, and not bytes with an optional K, M or G.
    BadSize,
    /// A line of fs_config without an owner, a group and a mode.
    BadFsConfig,
    /// Brotli quality must be 0-11.
    BadQuality,
    /// Brotli window must be 10-24.
    BadWindow,
    /// The compressor gave up.
    BrotliFailed,
    /// Not a brotli stream, or one that is cut short.
    CorruptBrotli,
    /// A sink that takes no more bytes.
    WriteZero,
    /// Not a zip, or one with an entry that cannot be read.
    BadZip,
    /// An entry that a zip cannot take, such as a second one of that name.
    ZipRefused,
    /// A stored entry whose data has no known place.
    NoDataOffset,
    /// The state of an unpacked ROM lacks a key.
    MissingState,
    /// The state of an unpacked ROM has something else in place of a number.
    BadState,
    /// A line of the settings file, by its number.
    BadConfig(usize),
    /// payload.bin ROMs are not supported.
    PayloadRom,
    /// No transfer list with block data in a ROM zip.
    NoPartitions,
    /// No entry of a zip has that name.
    NoSuchEntry,
    /// Brotli quality must be 0-11 and zip level 0-9.
    BadOptions,
}

} // verus!
