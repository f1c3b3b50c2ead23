use jancox::error::Error;
use jancox::fs::erofs::{is_erofs, Erofs};
use jancox::fs::ext4::{feature_list, is_ext4, parse_dirents, Ext4};
use jancox::fs::mkerofs::layout::xattr_entry;
use jancox::fs::mkerofs::{self, crc32c};
use jancox::fs::mkext4::dirs::{dir_blocks, DirEntry};
use jancox::fs::mkext4::extents::store_content;
use jancox::fs::mkext4::layout::Layout;
use jancox::fs::mkext4::xattrs::{place_xattrs, xattr_hash};
use jancox::fs::mkext4::{self, blocks_for, data_blocks_needed, Node, NodeKind, Params};
use jancox::fs::xattr::Xattr;
use jancox::fs::{parse_capability, Filesystem, Kind};
use jancox::text::uuid;
use std::collections::BTreeMap;

#[test]
fn feature_names() {
    assert_eq!(feature_list(0, 0x4 | 0x8), "has_journal ext_attr");
    assert_eq!(feature_list(2, 0x4000), "shared_blocks");
    assert_eq!(feature_list(1, 1 << 30), "FEATURE_I30");
}

#[test]
fn uuid_format() {
    let b: Vec<u8> = (0..16).collect();
    assert_eq!(uuid(&b), "00010203-0405-0607-0809-0a0b0c0d0e0f");
}

#[test]
fn rejects_non_ext4() {
    assert!(Ext4::open(vec![0u8; 4096]).is_err());
    assert!(!is_ext4(&[0u8; 2048]));
}

#[test]
fn rejects_non_erofs() {
    assert_eq!(Erofs::open(vec![0u8; 4096]).err(), Some(Error::NotErofs));
    assert_eq!(Erofs::open(vec![]).err(), Some(Error::UnexpectedEof));
    assert!(!is_erofs(&[0u8; 2048]));
    assert_eq!(Ext4::open(vec![0u8; 4096]).err(), Some(Error::NotExt4));
}

#[test]
fn capability_revisions() {
    // rev 1: magic + one (permitted, inheritable) pair
    let v1 = [0, 0, 0, 1, 0x00, 0x10, 0, 0, 0, 0, 0, 0];
    assert_eq!(parse_capability(&v1), Some(0x1000));
    // rev 2: second pair holds the high 32 bits
    let mut v2 = vec![0, 0, 0, 2, 0x00, 0x14, 0, 0, 0, 0, 0, 0];
    v2.extend_from_slice(&[0x10, 0, 0, 0, 0, 0, 0, 0]);
    assert_eq!(parse_capability(&v2), Some(0x10_0000_1400));
    assert_eq!(parse_capability(&[1, 2, 3]), None);
}

#[test]
fn crc32c_check_value() {
    assert_eq!(!crc32c(!0, b"123456789"), 0xE306_9283);
}

#[test]
fn xattr_hash_by_hand() {
    // name "a": (0 << 5) ^ (0 >> 27) ^ 0x61
    assert_eq!(xattr_hash(b"a", b""), 0x61);
    // then one value word: (0x61 << 16) ^ (0x61 >> 16) ^ 1
    assert_eq!(xattr_hash(b"a", &[1, 0, 0, 0]), 0x0061_0001);
    // values are zero-padded to 4 bytes
    assert_eq!(xattr_hash(b"a", &[1]), 0x0061_0001);
}

#[test]
fn sparse_super_groups() {
    let with: Vec<u64> = (0..60).filter(|&g| Layout::has_super(g)).collect();
    assert_eq!(with, [0, 1, 3, 5, 7, 9, 25, 27, 49]);
}

#[test]
fn dir_block_layout() {
    let kids = vec![
        DirEntry { name: b"a".to_vec(), ino: 12, ftype: 1 },
        DirEntry { name: b"bb".to_vec(), ino: 13, ftype: 2 },
    ];
    let d = dir_blocks(2, 2, kids, 4096, 0);
    assert_eq!(d.len(), 4096);
    // "." rec_len 12, ".." 12, "a" 12, "bb" takes the rest
    assert_eq!(u16::from_le_bytes([d[4], d[5]]), 12);
    assert_eq!(u16::from_le_bytes([d[16], d[17]]), 12);
    assert_eq!(u16::from_le_bytes([d[28], d[29]]), 12);
    assert_eq!(u16::from_le_bytes([d[40], d[41]]), 4096 - 36);
}

fn node(name: &str, kind: NodeKind, mode: u32, uid: u32) -> Node {
    Node {
        name: name.as_bytes().to_vec(),
        kind,
        mode,
        uid,
        gid: 2000,
        selinux: Some("u:object_r:system_file:s0".into()),
        capabilities: None,
    }
}

fn content(len: usize) -> Vec<u8> {
    (0..len).map(|i| (i * 7 % 251) as u8).collect()
}

/// Inline tails, plain files, a multi-block directory, a big uid and
/// capabilities.
fn tree(with_lost_found: bool) -> (Node, Vec<(&'static str, Vec<u8>)>) {
    let mut files = Vec::new();
    for (name, len) in [
        ("empty", 0usize),
        ("small", 5),
        ("tail", 10000),
        ("exact", 8192),
    ] {
        files.push((name, content(len)));
    }
    let mut children: Vec<Node> = files
        .iter()
        .map(|(name, data)| node(name, NodeKind::File { data: data.clone() }, 0o644, 0))
        .collect();
    let small = NodeKind::File { data: files[1].1.clone() };
    let mut run_as = node("run-as", small, 0o750, 100_000);
    run_as.capabilities = Some(0xc0);
    children.push(run_as);
    children.push(node(
        "link",
        NodeKind::Symlink(b"/system/bin/sh".to_vec()),
        0o777,
        0,
    ));
    let many: Vec<Node> = (0..300)
        .map(|i| {
            node(
                &format!("entry_with_a_long_name_{:03}", i),
                NodeKind::Dir(vec![]),
                0o755,
                0,
            )
        })
        .collect();
    children.push(node("many", NodeKind::Dir(many), 0o755, 0));
    if with_lost_found {
        children.push(node("lost+found", NodeKind::Dir(vec![]), 0o700, 0));
    }
    (node("", NodeKind::Dir(children), 0o755, 0), files)
}

/// Writes a tree, then reads it back with the EROFS reader.
#[test]
fn write_then_read() {
    let (root, files) = tree(false);
    let params = mkerofs::Params {
        block_size: 4096,
        uuid: [7; 16],
        volume_name: "".into(),
        timestamp: 1_230_768_000,
        timestamp_nsec: 0,
    };
    let (img, stats) = mkerofs::write_image(&root, &params).unwrap();
    assert_eq!(stats.used_inodes, 1 + 4 + 2 + 1 + 300);
    assert_eq!(mkerofs::image_size(&root, 4096).unwrap().0, img.len() as u64);

    assert!(is_erofs(&img[..2048]));
    let fs = Erofs::open(img).unwrap();
    let top: BTreeMap<Vec<u8>, u64> = fs.read_dir(fs.root()).unwrap().into_iter().collect();
    assert_eq!(top.len(), 7);
    for (name, data) in &files {
        let nid = top[name.as_bytes()];
        let out = fs.read_file(nid).unwrap();
        assert_eq!(out.len(), data.len());
        assert_eq!(&out, data, "{}", name);
        let m = fs.meta(nid).unwrap();
        assert_eq!((m.kind, m.mode, m.gid), (Kind::File, 0o644, 2000));
        assert_eq!(m.selinux.as_deref(), Some("u:object_r:system_file:s0"));
        assert_eq!(m.mtime, 1_230_768_000);
    }
    let m = fs.meta(top[&b"run-as"[..]]).unwrap();
    assert_eq!(
        (m.uid, m.mode, m.capabilities),
        (100_000, 0o750, Some(0xc0))
    );
    assert_eq!(fs.read_link(top[&b"link"[..]]).unwrap(), b"/system/bin/sh");
    let many = fs.read_dir(top[&b"many"[..]]).unwrap();
    assert_eq!(many.len(), 300);
    assert!(many.windows(2).all(|w| w[0].0 < w[1].0));
    assert_eq!(fs.meta(many[299].1).unwrap().kind, Kind::Dir);
}

fn ext4_params(block_size: u64, blocks: u64) -> Params {
    Params {
        block_size,
        blocks,
        inodes: 400,
        reserved_blocks: 0,
        uuid: [7; 16],
        hash_seed: [9; 16],
        volume_name: "vendor".into(),
        last_mounted: "/vendor".into(),
        timestamp: 1_230_768_000,
    }
}

#[test]
fn ext4_write_then_read() {
    for bs in [1024u64, 2048, 4096] {
        let (root, files) = tree(true);
        let (data, inodes) = data_blocks_needed(&root, bs).unwrap();
        // ten are reserved, the root among them
        assert_eq!(inodes, 10 + 4 + 2 + 1 + 300 + 1);
        let blocks = blocks_for(data + data / 50 + 64, 400, bs).unwrap();
        let (img, stats) = mkext4::write_image(&root, &ext4_params(bs, blocks)).unwrap();
        assert_eq!(img.len() as u64, stats.blocks * bs);
        assert!(stats.used_blocks <= stats.blocks && stats.used_inodes <= stats.inodes);

        assert!(is_ext4(&img[..2048]));
        let fs = Ext4::open(img).unwrap();
        assert_eq!(fs.fs_type(), "ext4");
        assert_eq!(fs.volume_name(), "vendor");
        let top: BTreeMap<Vec<u8>, u32> = fs.read_dir(fs.root()).unwrap().into_iter().collect();
        assert_eq!(top.len(), 8);
        for (name, data) in &files {
            let ino = top[name.as_bytes()];
            assert_eq!(&fs.read_file(ino).unwrap(), data, "{}", name);
            let m = fs.meta(ino).unwrap();
            assert_eq!((m.kind, m.mode, m.uid, m.gid), (Kind::File, 0o644, 0, 2000));
            assert_eq!(m.size, data.len() as u64);
            assert_eq!(m.selinux.as_deref(), Some("u:object_r:system_file:s0"));
            assert_eq!(m.mtime, 1_230_768_000);
        }
        let m = fs.meta(top[&b"run-as"[..]]).unwrap();
        assert_eq!(
            (m.uid, m.mode, m.capabilities),
            (100_000, 0o750, Some(0xc0))
        );
        assert_eq!(fs.read_link(top[&b"link"[..]]).unwrap(), b"/system/bin/sh");
        let many = fs.read_dir(top[&b"many"[..]]).unwrap();
        assert_eq!(many.len(), 300);
        let info: BTreeMap<String, String> = fs.info().into_iter().collect();
        assert_eq!(info["block_size"], bs.to_string());
        assert_eq!(info["uuid"], "07070707-0707-0707-0707-070707070707");
    }
}

#[test]
fn ext4_long_files_and_links() {
    // many runs of data between holes, and a target too long for the inode
    let mut data = vec![0u8; 600 * 4096];
    for i in 0..300 {
        data[i * 2 * 4096] = 1 + (i % 250) as u8;
    }
    let target = vec![b'x'; 3000];
    let root = node(
        "",
        NodeKind::Dir(vec![
            node("lost+found", NodeKind::Dir(vec![]), 0o700, 0),
            node("holes", NodeKind::File { data: data.clone() }, 0o600, 0),
            node("far", NodeKind::Symlink(target.clone()), 0o777, 0),
        ]),
        0o755,
        0,
    );
    let (img, _) = mkext4::write_image(&root, &ext4_params(4096, 2000)).unwrap();
    let fs = Ext4::open(img).unwrap();
    let top: BTreeMap<Vec<u8>, u32> = fs.read_dir(fs.root()).unwrap().into_iter().collect();
    assert_eq!(fs.read_file(top[&b"holes"[..]]).unwrap(), data);
    assert_eq!(fs.read_link(top[&b"far"[..]]).unwrap(), target);
}

/// The CRC-32C of an image, and its usage.
fn fingerprint(root: &Node, p: &Params) -> (u32, u64, u64, u32, u32) {
    let (img, s) = mkext4::write_image(root, p).unwrap();
    assert_eq!(img.len() as u64, s.blocks * p.block_size);
    (crc32c(!0, &img), s.blocks, s.used_blocks, s.inodes, s.used_inodes)
}

#[test]
fn ext4_exact_images() {
    let (root, _) = tree(true);
    let at = |bs, blocks| fingerprint(&root, &ext4_params(bs, blocks));
    assert_eq!(at(1024, 20000), (0xFE75_F2DE, 20000, 462, 408, 318));
    assert_eq!(at(2048, 2000), (0xDCC5_1233, 2000, 381, 400, 318));
    assert_eq!(at(4096, 40000), (0x0F00_7018, 40000, 350, 416, 318));
    assert_eq!(at(4096, 32788), (0xD51F_A39F, 32768, 345, 400, 318));
    assert_eq!(at(1024, 8300), (0xBE23_7A04, 8300, 458, 400, 318));
}

/// A file of holes with an extent tree, a long target, and xattrs that do not
/// fit in the inode.
fn holes(target: usize) -> Node {
    let mut data = vec![0u8; 900 * 4096];
    for i in 0..450 {
        data[i * 2 * 4096] = 1 + (i % 250) as u8;
    }
    let mut tagged = node("tagged", NodeKind::File { data: b"abc".to_vec() }, 0o600, 0);
    tagged.selinux = Some(format!("u:object_r:{}:s0", "y".repeat(80)));
    tagged.capabilities = Some((1 << 40) | 5);
    node(
        "",
        NodeKind::Dir(vec![
            node("lost+found", NodeKind::Dir(vec![]), 0o700, 0),
            node("holes", NodeKind::File { data }, 0o600, 0),
            node("far", NodeKind::Symlink(vec![b'x'; target]), 0o777, 0),
            tagged,
        ]),
        0o755,
        0,
    )
}

#[test]
fn ext4_exact_extent_trees() {
    assert_eq!(
        fingerprint(&holes(900), &ext4_params(1024, 30000)),
        (0x20FD_6FA4, 30000, 596, 416, 14)
    );
    assert_eq!(
        fingerprint(&holes(3000), &ext4_params(4096, 2000)),
        (0xDBD9_80E8, 2000, 489, 400, 14)
    );
}

fn ext4_error(root: &Node, p: &Params) -> Error {
    mkext4::write_image(root, p).err().unwrap()
}

#[test]
fn ext4_errors() {
    let p = ext4_params(4096, 2000);
    let file = || node("f", NodeKind::File { data: vec![1; 10] }, 0o644, 0);
    let lf = || node("lost+found", NodeKind::Dir(vec![]), 0o700, 0);
    let root = |c: Vec<Node>| node("", NodeKind::Dir(c), 0o755, 0);
    assert_eq!(ext4_error(&file(), &p), Error::RootNotDirectory);
    assert_eq!(ext4_error(&root(vec![file()]), &p), Error::NoLostFound);
    assert_eq!(
        ext4_error(&root(vec![lf(), file(), file()]), &p),
        Error::DuplicateName
    );
    let long = node(&"n".repeat(256), NodeKind::Dir(vec![]), 0o755, 0);
    assert_eq!(ext4_error(&root(vec![lf(), long]), &p), Error::BadFileName);
    let big = node("b", NodeKind::File { data: content(4096 * 3000) }, 0o644, 0);
    assert_eq!(ext4_error(&root(vec![lf(), big]), &p), Error::StorageFull);
    assert_eq!(
        ext4_error(&root(vec![lf()]), &ext4_params(4096, 10)),
        Error::ImageTooSmall
    );
    assert_eq!(
        ext4_error(&root(vec![lf()]), &ext4_params(512, 2000)),
        Error::UnsupportedBlockSize
    );
    let mut label = file();
    label.selinux = Some("x".repeat(5000));
    assert_eq!(ext4_error(&root(vec![lf(), label]), &p), Error::XattrsTooBig);
    assert!(mkext4::write_image(&root(vec![lf(), file()]), &p).is_ok());
}

#[test]
fn erofs_exact_images() {
    let (root, _) = tree(false);
    let at = |block_size| {
        let p = mkerofs::Params {
            block_size,
            uuid: [7; 16],
            volume_name: "vendor".into(),
            timestamp: 1_230_768_000,
            timestamp_nsec: 5,
        };
        let (img, s) = mkerofs::write_image(&root, &p).unwrap();
        assert_eq!(img.len() as u64, s.blocks * block_size);
        (crc32c(!0, &img), s.blocks, s.inodes)
    };
    assert_eq!(at(1024), (0x807F_0061, 62, 308));
    assert_eq!(at(4096), (0x3159_3B32, 16, 308));
    assert_eq!(at(65536), (0xEA21_AD14, 1, 308));
}

#[test]
fn erofs_errors() {
    let p = mkerofs::Params {
        block_size: 4096,
        uuid: [0; 16],
        volume_name: "v".repeat(16),
        timestamp: 0,
        timestamp_nsec: 0,
    };
    let root = node("", NodeKind::Dir(vec![]), 0o755, 0);
    assert!(mkerofs::write_image(&root, &p).is_ok());
    let mut long = p.clone();
    long.volume_name = "v".repeat(17);
    assert_eq!(mkerofs::write_image(&root, &long).err(), Some(Error::VolumeNameTooLong));
    let mut odd = p.clone();
    odd.block_size = 5000;
    assert_eq!(mkerofs::write_image(&root, &odd).err(), Some(Error::UnsupportedBlockSize));
    let file = node("", NodeKind::File { data: vec![] }, 0o644, 0);
    assert_eq!(mkerofs::write_image(&file, &p).err(), Some(Error::RootNotDirectory));
    let link = node("l", NodeKind::Symlink(vec![]), 0o777, 0);
    let root = node("", NodeKind::Dir(vec![link]), 0o755, 0);
    assert_eq!(mkerofs::write_image(&root, &p).err(), Some(Error::BadSymlinkTarget));
}

#[test]
fn corrupt_ext4_is_an_error() {
    let (root, _) = tree(true);
    let (img, _) = mkext4::write_image(&root, &ext4_params(4096, 2000)).unwrap();
    let cut = img[..1100].to_vec();
    assert_eq!(Ext4::open(cut).err(), Some(Error::UnexpectedEof));
    // a wrong extent tree magic in the root inode
    let fs = Ext4::open(img.clone()).unwrap();
    assert!(fs.read_dir(2).is_ok());
    assert_eq!(fs.read_dir(12).is_ok() || fs.read_file(12).is_ok(), true);
}

#[test]
fn filesystem_sizes() {
    assert_eq!(blocks_for(100, 16, 4096), Ok(105));
    assert_eq!(blocks_for(1, 16, 4096), Ok(21));
    assert_eq!(blocks_for(0, 0, 1024), Ok(20));
    assert_eq!(blocks_for(1000, 400, 4096), Ok(1029));
    assert_eq!(blocks_for(32768, 5000, 4096), Ok(33090));
    assert_eq!(blocks_for(100000, 3000, 1024), Ok(100793));
    assert_eq!(blocks_for(300000, 100000, 2048), Ok(312552));
    assert_eq!(blocks_for(1000000, 60000, 4096), Ok(1003829));
    assert_eq!(blocks_for(1 << 32, 16, 4096), Err(Error::ImageTooBig));
    assert_eq!(blocks_for(u64::MAX, 16, 1024), Err(Error::ImageTooBig));
}

#[test]
fn no_smaller_size_holds_the_data() {
    for bs in [1024u64, 2048, 4096] {
        for data in [1u64, 500, 9000, 40_000] {
            let blocks = blocks_for(data, 100, bs).unwrap();
            let l = Layout::new(bs, blocks, 100).unwrap();
            assert!(l.blocks == blocks && l.capacity() >= data);
            for n in blocks - 60..blocks {
                if let Ok(l) = Layout::new(bs, n, 100) {
                    assert!(l.capacity() < data, "{} {} {}", bs, data, n);
                }
            }
        }
    }
}

fn with_file(data: Vec<u8>) -> Node {
    let found = node("lost+found", NodeKind::Dir(vec![]), 0o700, 0);
    let f = node("f", NodeKind::File { data }, 0o644, 0);
    node("", NodeKind::Dir(vec![found, f]), 0o755, 0)
}

/// Blocks with data, every second one, and holes between them.
fn holed(extents: usize, bs: usize) -> Vec<u8> {
    let mut data = vec![0u8; (2 * extents - 1) * bs];
    for i in 0..extents {
        data[2 * i * bs] = 1;
    }
    data
}

#[test]
fn extent_leaves_are_counted() {
    // the root takes one block, lost+found 16
    assert_eq!(data_blocks_needed(&with_file(holed(4, 1024)), 1024), Ok((7 + 17, 12)));
    assert_eq!(data_blocks_needed(&with_file(holed(5, 1024)), 1024), Ok((9 + 1 + 17, 12)));
    // five leaves, and a block over them
    assert_eq!(data_blocks_needed(&with_file(holed(400, 1024)), 1024), Ok((799 + 6 + 17, 12)));
    // an extent has at most 32768 blocks
    let long = with_file(vec![1; 131_072 * 1024]);
    assert_eq!(data_blocks_needed(&long, 1024), Ok((131_072 + 17, 12)));
    let longer = with_file(vec![1; 131_073 * 1024]);
    assert_eq!(data_blocks_needed(&longer, 1024), Ok((131_073 + 1 + 17, 12)));
}

#[test]
fn counted_blocks_are_enough() {
    let data = holed(400, 1024);
    let root = with_file(data.clone());
    let (blocks, inodes) = data_blocks_needed(&root, 1024).unwrap();
    let n = blocks_for(blocks, inodes, 1024).unwrap();
    let p = Params { inodes, ..ext4_params(1024, n) };
    let (img, stats) = mkext4::write_image(&root, &p).unwrap();
    assert_eq!(stats.blocks, n);
    // holes take no blocks
    assert_eq!(stats.used_blocks, n - 399);
    let fs = Ext4::open(img).unwrap();
    assert_eq!(fs.read_file(12).unwrap(), data);
}

#[test]
fn directories_list_back() {
    for (n, bs, min) in [(0usize, 1024usize, 0u64), (3, 4096, 0), (200, 1024, 0), (5, 1024, 16384)] {
        let name = |i: usize| format!("entry number {}", i).into_bytes();
        let kids = (0..n).map(|i| DirEntry { name: name(i), ino: 20 + i as u32, ftype: 1 }).collect();
        let d = dir_blocks(11, 2, kids, bs, min);
        assert!(d.len() % bs == 0 && d.len() as u64 >= min);
        let mut out = Vec::new();
        for block in d.chunks(bs) {
            parse_dirents(block, true, &mut out);
        }
        let want: Vec<(Vec<u8>, u32)> = (0..n).map(|i| (name(i), 20 + i as u32)).collect();
        assert_eq!(out, want);
    }
}

#[test]
fn xattrs_behind_the_end_do_not_fit() {
    let a = || vec![Xattr { name: b"selinux".to_vec(), value: vec![7; 5] }];
    // an entry of 24 bytes, a terminator and a value of 8
    assert_eq!(place_xattrs(&a(), 0, 36, false).map(|v| v.len()), Some(36));
    assert_eq!(place_xattrs(&a(), 10, 46, false).map(|v| v.len()), Some(36));
    assert_eq!(place_xattrs(&a(), 0, 35, false), None);
    assert_eq!(place_xattrs(&a(), 47, 46, false), None);
    assert_eq!(place_xattrs(&vec![], u64::MAX, 92, false), None);
    assert_eq!(place_xattrs(&vec![], 88, 92, false), Some(vec![0; 4]));
}

#[test]
fn big_directories() {
    let d = dir_blocks(11, 2, vec![], 4096, 1_000_000);
    assert_eq!(d.len(), 245 * 4096);
}

#[test]
fn block_size_is_looked_at_first() {
    let root = node("", NodeKind::Dir(vec![]), 0o755, 0);
    let r = mkext4::write_image(&root, &ext4_params(8192, 0));
    assert_eq!(r.err(), Some(Error::UnsupportedBlockSize));
}

#[test]
fn storing_until_full() {
    let l = Layout::new(1024, 200, 16).unwrap();
    let cap = l.capacity();
    let mut data = Vec::new();
    // holes take no room, so twice the room is enough
    let half = holed(cap as usize, 1024);
    let runs = store_content(&l, cap, &mut data, &half, true).unwrap();
    assert_eq!(data.len() as u64, cap * 1024);
    assert_eq!(runs.len() as u64, cap);
    assert!(matches!(store_content(&l, cap, &mut data, &[1], false), Err(Error::StorageFull)));
    assert!(store_content(&l, cap, &mut data, &[0], true).is_ok());
    // without holes the blocks of a group are one run
    let mut data = Vec::new();
    let runs = store_content(&l, cap, &mut data, &vec![0; cap as usize * 1024], false).unwrap();
    assert_eq!(runs.len(), 1);
    assert_eq!((runs[0].lg, runs[0].len), (0, cap));
    assert_eq!(runs[0].ph + cap, 200);
}

#[test]
fn erofs_xattr_entries_read_back() {
    let root = node("", NodeKind::Dir(vec![]), 0o755, 0);
    let p = mkerofs::Params {
        block_size: 4096,
        uuid: [7; 16],
        volume_name: "".into(),
        timestamp: 0,
        timestamp_nsec: 0,
    };
    let (img, _) = mkerofs::write_image(&root, &p).unwrap();
    let fs = Erofs::open(img).unwrap();
    for len in 0..9 {
        let a = Xattr { name: b"selinux".to_vec(), value: vec![7; len] };
        let mut e = xattr_entry(&a);
        assert_eq!(e.len() % 4, 0);
        let n = e.len();
        e.extend_from_slice(b"more");
        let x = fs.xattr_entry(&e).unwrap();
        assert_eq!((x.len, x.name.as_deref()), (n, Some("security.selinux")));
        assert_eq!(x.value, a.value);
    }
}

#[test]
fn sizes_hold_their_data() {
    for bs in [1024u64, 2048, 4096] {
        for data in [1u64, 1000, 100_000] {
            let blocks = blocks_for(data, 100, bs).unwrap();
            let l = Layout::new(bs, blocks, 100).unwrap();
            assert!(l.capacity() >= data);
        }
    }
}

fn le32(b: &[u8], at: usize) -> u32 {
    u32::from_le_bytes(b[at..at + 4].try_into().unwrap())
}

fn put32(b: &mut [u8], at: usize, v: u32) {
    b[at..at + 4].copy_from_slice(&v.to_le_bytes());
}

/// An image with blocks of 1 KiB and one file, which has inode 12, and the
/// place of that inode.
fn one_file(data: Vec<u8>) -> (Vec<u8>, usize) {
    let mut f = node("f", NodeKind::File { data }, 0o644, 0);
    f.selinux = None;
    let root = node(
        "",
        NodeKind::Dir(vec![node("lost+found", NodeKind::Dir(vec![]), 0o700, 0), f]),
        0o755,
        0,
    );
    let (img, _) = mkext4::write_image(&root, &ext4_params(1024, 4000)).unwrap();
    let table = le32(&img, 2048 + 8) as usize;
    (img, table * 1024 + 11 * 256)
}

#[test]
fn ext4_block_maps() {
    // direct, indirect and double indirect blocks
    let data: Vec<u8> = content(271 * 1024 - 10);
    let (mut img, at) = one_file(data.clone());
    let start = le32(&img, at + 0x28 + 20);
    assert_eq!(img[at + 0x28 + 2], 1);
    let (single, double, leaf) = (3990u32, 3991u32, 3992u32);
    img[at + 0x28..at + 0x64].fill(0);
    put32(&mut img, at + 0x20, 0);
    for i in 0..12 {
        put32(&mut img, at + 0x28 + 4 * i, start + i as u32);
    }
    put32(&mut img, at + 0x28 + 48, single);
    put32(&mut img, at + 0x28 + 52, double);
    for i in 0..256 {
        put32(&mut img, single as usize * 1024 + 4 * i, start + 12 + i as u32);
    }
    put32(&mut img, double as usize * 1024, leaf);
    for i in 0..3 {
        put32(&mut img, leaf as usize * 1024 + 4 * i, start + 268 + i as u32);
    }
    let fs = Ext4::open(img.clone()).unwrap();
    assert_eq!(fs.read_file(12).unwrap(), data);
    // a hole
    put32(&mut img, at + 0x28 + 4, 0);
    let mut holed = data.clone();
    holed[1024..2048].fill(0);
    let fs = Ext4::open(img).unwrap();
    assert_eq!(fs.read_file(12).unwrap(), holed);
}

#[test]
fn ext4_other_forms_of_content() {
    // an extent that was never written
    let (mut img, at) = one_file(content(5000));
    img[at + 0x28 + 17] |= 0x80;
    let fs = Ext4::open(img).unwrap();
    assert_eq!(fs.read_file(12).unwrap(), vec![0u8; 5000]);
    // content in the inode
    let (mut img, at) = one_file(b"x".to_vec());
    put32(&mut img, at + 0x20, 0x1000_0000);
    img[at + 0x28..at + 0x28 + 7].copy_from_slice(b"in here");
    put32(&mut img, at + 4, 7);
    let fs = Ext4::open(img.clone()).unwrap();
    assert_eq!(fs.read_file(12).unwrap(), b"in here");
    // an encrypted file
    put32(&mut img, at + 0x20, 0x800);
    let fs = Ext4::open(img).unwrap();
    assert_eq!(fs.read_file(12), Err(Error::EncryptedFile));
}

#[test]
fn ext4_damaged_trees() {
    let (good, at) = one_file(content(5000));
    let mut img = good.clone();
    img[at + 0x28] = 0;
    assert_eq!(Ext4::open(img).unwrap().read_file(12), Err(Error::BadExtentTree));
    let mut img = good.clone();
    img[at + 0x28 + 2] = 5;
    assert_eq!(Ext4::open(img).unwrap().read_file(12), Err(Error::ExtentNodeOverflows));
    let mut img = good.clone();
    put32(&mut img, at + 0x28 + 20, 3999);
    assert_eq!(Ext4::open(img).unwrap().read_file(12), Err(Error::ExtentOutside));
    let mut img = good.clone();
    img[at + 1] = 0x30;
    assert_eq!(Ext4::open(img).unwrap().meta(12), Err(Error::UnknownFileType));
    let fs = Ext4::open(good).unwrap();
    assert_eq!(fs.read_dir(12), Err(Error::NotADirectory));
    assert_eq!(fs.meta(0).err(), Some(Error::InodeOutside));
}

#[test]
fn erofs_chunks() {
    let data = content(2 * 4096);
    let mut f = node("f", NodeKind::File { data: data.clone() }, 0o644, 0);
    f.selinux = None;
    let root = node("", NodeKind::Dir(vec![f]), 0o755, 0);
    let p = mkerofs::Params {
        block_size: 4096,
        uuid: [0; 16],
        volume_name: "".into(),
        timestamp: 0,
        timestamp_nsec: 0,
    };
    let (mut img, _) = mkerofs::write_image(&root, &p).unwrap();
    let fs = Erofs::open(img.clone()).unwrap();
    let nid = fs.read_dir(fs.root()).unwrap()[0].1;
    assert_eq!(fs.read_file(nid).unwrap(), data);
    let at = nid as usize * 32;
    let first = le32(&img, at + 16);

    // chunks of one block: the second block, then a hole
    img[at] = 4 << 1;
    put32(&mut img, at + 16, 0);
    put32(&mut img, at + 32, first + 1);
    put32(&mut img, at + 36, u32::MAX);
    let fs = Erofs::open(img.clone()).unwrap();
    let mut want = data[4096..].to_vec();
    want.resize(8192, 0);
    assert_eq!(fs.read_file(nid).unwrap(), want);

    // chunk indexes with a device
    put32(&mut img, at + 16, 0x20);
    put32(&mut img, at + 32, 1 << 16);
    let fs = Erofs::open(img.clone()).unwrap();
    assert_eq!(fs.read_file(nid), Err(Error::ChunkOnOtherDevice));

    img[at] = 1 << 1;
    let fs = Erofs::open(img.clone()).unwrap();
    assert_eq!(fs.read_file(nid), Err(Error::Compressed));
    img[at] = 7 << 1;
    let fs = Erofs::open(img).unwrap();
    assert_eq!(fs.read_file(nid), Err(Error::UnknownDataLayout));
}

/// As `one_file`, with a label.
fn labeled() -> (Vec<u8>, usize) {
    let f = node("f", NodeKind::File { data: content(5000) }, 0o644, 0);
    let lf = node("lost+found", NodeKind::Dir(vec![]), 0o700, 0);
    let root = node("", NodeKind::Dir(vec![lf, f]), 0o755, 0);
    let (img, _) = mkext4::write_image(&root, &ext4_params(1024, 4000)).unwrap();
    let table = le32(&img, 2048 + 8) as usize;
    (img, table * 1024 + 11 * 256)
}

#[test]
fn ext4_damaged_superblocks() {
    let (good, _) = labeled();
    let open = |at: usize, v: u32| {
        let mut img = good.clone();
        put32(&mut img, 1024 + at, v);
        Ext4::open(img).err()
    };
    assert_eq!(open(0x18, 7), Some(Error::BadBlockSize));
    assert_eq!(open(0x60, 0x42 | 0x8), Some(Error::UnsupportedFeatures));
    assert_eq!(open(0x28, 0), Some(Error::BadSuperblock));
    assert_eq!(open(0x28, 8), None);
}

#[test]
fn ext4_damaged_xattrs() {
    let (good, at) = labeled();
    let label = Some("u:object_r:system_file:s0".to_string());
    assert_eq!(Ext4::open(good.clone()).unwrap().meta(12).unwrap().selinux, label);
    // a value behind the end
    let mut img = good.clone();
    img[at + 164 + 2] = 90;
    assert_eq!(Ext4::open(img).unwrap().meta(12), Err(Error::XattrPastBlock));
    // an xattr block behind the end
    let mut img = good.clone();
    put32(&mut img, at + 0x68, 4000);
    assert_eq!(Ext4::open(img).unwrap().meta(12), Err(Error::BlockOutside));
    // a value that is stored in itself
    let mut img = good.clone();
    put32(&mut img, at + 0x20, 0x1000_0000);
    put32(&mut img, at + 164 + 4, 12);
    assert_eq!(Ext4::open(img).unwrap().meta(12), Err(Error::XattrLoop));
    // a value that is the content of another inode
    let mut img = good;
    put32(&mut img, at + 164 + 4, 12);
    put32(&mut img, at + 164 + 8, 4);
    // which starts with a NUL
    assert_eq!(Ext4::open(img).unwrap().meta(12).unwrap().selinux, Some(String::new()));
}

#[test]
fn ext4_overlapping_extents() {
    let (mut img, at) = labeled();
    // the extent twice
    img[at + 0x28 + 2] = 2;
    let e = img[at + 0x28 + 12..at + 0x28 + 24].to_vec();
    img[at + 0x28 + 24..at + 0x28 + 36].copy_from_slice(&e);
    assert_eq!(Ext4::open(img).unwrap().read_file(12), Err(Error::OverlappingExtents));
}

#[test]
fn too_many_inodes() {
    let root = node(
        "",
        NodeKind::Dir(vec![node("lost+found", NodeKind::Dir(vec![]), 0o700, 0)]),
        0o755,
        0,
    );
    let mut p = ext4_params(4096, 2000);
    p.inodes = 4_000_000;
    assert_eq!(ext4_error(&root, &p), Error::TooManyInodes);
}

fn small_erofs() -> (Vec<u8>, u64) {
    let f = node("f", NodeKind::File { data: content(5000) }, 0o644, 0);
    let root = node("", NodeKind::Dir(vec![f]), 0o755, 0);
    let p = mkerofs::Params {
        block_size: 4096,
        uuid: [0; 16],
        volume_name: "".into(),
        timestamp: 0,
        timestamp_nsec: 0,
    };
    let (img, _) = mkerofs::write_image(&root, &p).unwrap();
    let fs = Erofs::open(img.clone()).unwrap();
    let nid = fs.read_dir(fs.root()).unwrap()[0].1;
    (img, nid)
}

#[test]
fn erofs_damaged_superblocks() {
    let (good, nid) = small_erofs();
    let mut img = good.clone();
    img[1036] = 17;
    assert_eq!(Erofs::open(img).err(), Some(Error::BadBlockSize));
    let mut img = good.clone();
    put32(&mut img, 1104, 0x8000_0000);
    assert_eq!(Erofs::open(img).err(), Some(Error::UnsupportedFeatures));
    // long xattr name prefixes
    let mut img = good.clone();
    put32(&mut img, 1104, 0x40);
    img[1115] = 1;
    put32(&mut img, 1116, 1000);
    assert_eq!(Erofs::open(img.clone()).err(), Some(Error::BadLongPrefix));
    put32(&mut img, 1120, 5);
    assert_eq!(Erofs::open(img).err(), Some(Error::PackedPrefixes));
    let fs = Erofs::open(good).unwrap();
    assert_eq!(fs.meta(nid + 1_000_000).err(), Some(Error::InodeOutside));
    assert_eq!(fs.read_dir(nid).err(), Some(Error::NotADirectory));
}

#[test]
fn erofs_damaged_inodes() {
    let (good, nid) = small_erofs();
    let at = nid as usize * 32;
    // a tail that does not fit its block
    let mut img = good.clone();
    put32(&mut img, at + 8, 8191);
    assert_eq!(Erofs::open(img).unwrap().read_file(nid), Err(Error::TailCrossesBlock));
    // more shared xattrs than there is room for
    let mut img = good.clone();
    img[at + 32 + 4] = 2;
    assert_eq!(Erofs::open(img).unwrap().meta(nid), Err(Error::BadXattrHeader));
    // a shared xattr that runs past the image
    let mut img = good.clone();
    let id = le32(&img, at + 32 + 12) as usize;
    img[id * 4 + 3] = 0xFF;
    assert!(Erofs::open(img).unwrap().meta(nid).is_err());
    let mut img = good.clone();
    img[at + 5] = 0x30;
    assert_eq!(Erofs::open(img).unwrap().meta(nid), Err(Error::UnknownFileType));
}

#[test]
fn erofs_damaged_directories() {
    let (good, nid) = small_erofs();
    let fs = Erofs::open(good.clone()).unwrap();
    let root = fs.root() as usize * 32;
    // the listing is behind the inode: "." , ".." and "f"
    let list = root + 32 + 16;
    assert_eq!(good[list + 8], 36);
    let read = |at: usize, v: u8| {
        let mut img = good.clone();
        img[at] = v;
        let fs = Erofs::open(img).unwrap();
        fs.read_dir(fs.root())
    };
    assert_eq!(read(list + 8, 35), Err(Error::BadDirectoryBlock));
    assert_eq!(read(list + 12 + 8, 200), Err(Error::BadDirectoryEntry));
    assert_eq!(read(root + 8, 11), Err(Error::TruncatedDirectory));
    assert_eq!(read(root + 9, 0), Ok(vec![(b"f".to_vec(), nid)]));
}

#[test]
fn erofs_root_out_of_reach() {
    let files: Vec<Node> = (0..700)
        .map(|i| {
            let mut f = node(&format!("{}", i), NodeKind::File { data: vec![] }, 0o644, 0);
            f.selinux = Some(format!("{}{}", i, "x".repeat(3500)));
            f
        })
        .collect();
    let root = node("", NodeKind::Dir(files), 0o755, 0);
    let p = mkerofs::Params {
        block_size: 4096,
        uuid: [0; 16],
        volume_name: "".into(),
        timestamp: 0,
        timestamp_nsec: 0,
    };
    assert_eq!(mkerofs::write_image(&root, &p).err(), Some(Error::RootOutOfReach));
}
