use jancox::build::folder::{in_bin_dir, HostEntry, HostKind};
use jancox::build::image::{made_up_uuid, parse_hex16};
use jancox::build::{build, Size};
use jancox::error::Error;
use jancox::extract::{
    config_path, device_path, mount_point, open_image, regex_escape, regex_unescape, sum_up,
    write_config, write_info, Extraction, Step,
};
use jancox::factory::{
    check_groups, disable_verification, find_image_zip, is_image_zip, strip_slot, super_groups,
    Group,
};
use jancox::fs::Filesystem;
use jancox::rom::repack::build_partition;
use jancox::text::uuid;

#[test]
fn sizes() {
    assert_eq!("auto".parse(), Ok(Size::Auto));
    assert_eq!("4096".parse(), Ok(Size::Bytes(4096)));
    assert_eq!("2G".parse(), Ok(Size::Bytes(2 << 30)));
    assert_eq!("512m".parse(), Ok(Size::Bytes(512 << 20)));
    assert!("12X".parse::<Size>().is_err());
}

#[test]
fn odd_sizes() {
    assert_eq!(Size::parse("AUTO"), Ok(Size::Auto));
    assert_eq!(Size::parse("1k"), Ok(Size::Bytes(1024)));
    assert_eq!(Size::parse(""), Err(Error::BadSize));
    assert_eq!(Size::parse("G"), Err(Error::BadSize));
    assert_eq!(Size::parse("18446744073709551616"), Err(Error::BadSize));
    assert_eq!(Size::parse("18446744073709551615G"), Err(Error::BadSize));
}

#[test]
fn bin_dirs() {
    assert!(in_bin_dir("bin/sh"));
    assert!(in_bin_dir("system/bin/sh"));
    assert!(in_bin_dir("system/xbin/su"));
    assert!(!in_bin_dir("system/lib/libc.so"));
    assert!(!in_bin_dir("cabin/x"));
}

#[test]
fn hex16() {
    let u = parse_hex16(Some(&"30dc3fef-c49c-53e2-9bae-38d5480ae009".to_string())).unwrap();
    assert_eq!(u[0], 0x30);
    assert_eq!(u[15], 0x09);
    assert!(parse_hex16(Some(&"xyz".to_string())).is_none());
}

#[test]
fn made_up_uuids() {
    let a = made_up_uuid("system", 1);
    assert_eq!(a[6] >> 4, 4);
    assert_eq!(a[8] >> 6, 2);
    assert_eq!(made_up_uuid("system", 1), a);
    assert_ne!(made_up_uuid("system", 2), a);
    assert_ne!(made_up_uuid("vendor", 1), a);
    assert!(parse_hex16(None).is_none());
    assert_eq!(parse_hex16(Some(&uuid(&a))), Some(a));
}

#[test]
fn mount_points() {
    assert_eq!(mount_point("/", "system"), "/");
    assert_eq!(mount_point("vendor", "vendor"), "/vendor");
    assert_eq!(mount_point("", "product"), "/product");
    assert_eq!(mount_point("/odm", "x"), "/odm");
}

#[test]
fn escape() {
    assert_eq!(
        regex_escape("/system/lib/libc++.so"),
        "/system/lib/libc\\+\\+\\.so"
    );
    assert_eq!(regex_escape("/a(b)[c]"), "/a\\(b\\)\\[c\\]");
}

#[test]
fn escape_and_back() {
    for path in ["/system/lib/libc++.so", "/a(b)[c]", "/x\\y", "/^$*?|{}."] {
        let escaped: Vec<char> = regex_escape(path).chars().collect();
        let back: String = regex_unescape(&escaped).into_iter().collect();
        assert_eq!(back, path);
    }
}

#[test]
fn device_paths() {
    assert_eq!(device_path("/", ""), "/");
    assert_eq!(device_path("/", "system/bin"), "/system/bin");
    assert_eq!(device_path("/vendor", ""), "/vendor");
    assert_eq!(device_path("/vendor", "bin/x"), "/vendor/bin/x");
    assert_eq!(config_path("/"), "/");
    assert_eq!(config_path("/vendor/bin"), "vendor/bin");
}

#[test]
fn image_zip_names() {
    let outer = [
        "cubs-cd1a/flash-all.sh",
        "cubs-cd1a/image-cubs-cd1a.zip",
        "cubs-cd1a/radio-cubs.img",
    ];
    assert_eq!(find_image_zip(&outer), Some("cubs-cd1a/image-cubs-cd1a.zip"));
    assert_eq!(find_image_zip(&["system.new.dat.br"]), None);
    assert!(is_image_zip(&["android-info.txt", "boot.img"]));
    assert!(!is_image_zip(&["android-info.txt", "a/boot.img"]));
}

fn put32(b: &mut Vec<u8>, at: usize, v: u32) {
    b[at..at + 4].copy_from_slice(&v.to_le_bytes());
}

/// liblp metadata with these groups, and partitions with the place of their
/// group.
fn super_image(groups: &[(&str, u64)], parts: &[(&str, u32)]) -> Vec<u8> {
    let mut b = vec![0u8; 4096 + 256];
    put32(&mut b, 0, 0x616c_4467);
    put32(&mut b, 4096, 0x414c_5030);
    put32(&mut b, 4096 + 8, 256);
    let descs = [
        (0, parts.len(), 52),
        (0, 0, 24),
        (parts.len() * 52, groups.len(), 48),
        (0, 0, 64),
    ];
    for (i, (off, n, size)) in descs.into_iter().enumerate() {
        put32(&mut b, 4096 + 80 + i * 12, off as u32);
        put32(&mut b, 4096 + 84 + i * 12, n as u32);
        put32(&mut b, 4096 + 88 + i * 12, size);
    }
    for (name, group) in parts {
        let mut e = vec![0u8; 52];
        e[..name.len()].copy_from_slice(name.as_bytes());
        put32(&mut e, 48, *group);
        b.extend(e);
    }
    for (name, max) in groups {
        let mut e = vec![0u8; 48];
        e[..name.len()].copy_from_slice(name.as_bytes());
        e[40..48].copy_from_slice(&max.to_le_bytes());
        b.extend(e);
    }
    b
}

#[test]
fn pixel_super_empty() {
    // the groups and partitions of a Pixel (cubs)
    let image = super_image(
        &[
            ("default", 0),
            ("google_dynamic_partitions_a", 8_527_020_032),
            ("google_dynamic_partitions_b", 8_527_020_032),
        ],
        &[
            ("system_a", 1),
            ("system_b", 2),
            ("system_dlkm_a", 1),
            ("system_dlkm_b", 2),
            ("system_ext_a", 1),
            ("system_ext_b", 2),
            ("product_a", 1),
            ("product_b", 2),
            ("vendor_a", 1),
            ("vendor_b", 2),
            ("vendor_dlkm_a", 1),
            ("vendor_dlkm_b", 2),
        ],
    );
    let groups = super_groups(&image).unwrap();
    let names: Vec<&str> = groups.iter().map(|g| g.name.as_str()).collect();
    assert_eq!(
        names,
        [
            "default",
            "google_dynamic_partitions_a",
            "google_dynamic_partitions_b"
        ]
    );
    let a = &groups[1];
    assert!(a.max_size > 0);
    assert_eq!(
        a.partitions,
        [
            "system_a",
            "system_dlkm_a",
            "system_ext_a",
            "product_a",
            "vendor_a",
            "vendor_dlkm_a"
        ]
    );
    assert!(super_groups(&[0u8; 8192]).is_err());
}

#[test]
fn super_errors() {
    assert_eq!(super_groups(&[0u8; 8192]), Err(Error::NoGeometry));
    assert_eq!(super_groups(&[0u8; 10]), Err(Error::NoGeometry));
    let good = super_image(&[("g", 5)], &[("p", 0)]);
    assert_eq!(
        super_groups(&good).unwrap(),
        [Group { name: "g".into(), max_size: 5, partitions: vec!["p".into()] }]
    );
    assert_eq!(super_groups(&good[..100]), Err(Error::NoMetadata));
    assert_eq!(super_groups(&good[..4096 + 127]), Err(Error::NoHeader));
    assert_eq!(super_groups(&good[..4096 + 200]), Err(Error::TruncatedMetadata));
    assert_eq!(super_groups(&good[..good.len() - 1]), Err(Error::TruncatedTable));
    let bad = super_image(&[("g", 5)], &[("p", 1)]);
    assert_eq!(super_groups(&bad), Err(Error::BadGroupIndex));
}

#[test]
fn vbmeta_flags() {
    let mut img = vec![0u8; 256];
    img[..4].copy_from_slice(b"AVB0");
    img[123] = 0x10;
    assert!(disable_verification(&mut img).unwrap());
    assert!(!disable_verification(&mut img).unwrap());
    assert_eq!(&img[120..124], &[0, 0, 0, 0x13]);
    assert!(disable_verification(&mut vec![0u8; 256]).is_err());
}

#[test]
fn no_vbmeta() {
    assert_eq!(disable_verification(&mut vec![0u8; 256]), Err(Error::NotVbmeta));
    let mut short = b"AVB0".to_vec();
    assert_eq!(disable_verification(&mut short), Err(Error::NotVbmeta));
    assert_eq!(short, b"AVB0");
}

#[test]
fn group_limits() {
    let groups = [Group {
        name: "main_a".into(),
        max_size: 100,
        partitions: vec!["system_a".into(), "vendor_a".into()],
    }];
    let mut sizes = vec![("system".to_string(), 60u64), ("vendor".to_string(), 40)];
    sizes.push(("odm".into(), 500));
    assert!(check_groups(&groups, &sizes).is_ok());
    sizes.push(("vendor".into(), 41));
    assert!(check_groups(&groups, &sizes).is_err());
    assert_eq!(strip_slot("system_b"), "system");
    assert_eq!(strip_slot("vendor_dlkm"), "vendor_dlkm");
}

#[test]
fn groups_without_limit() {
    let mut g = Group { name: "x".into(), max_size: 0, partitions: vec!["p".into()] };
    let sizes = vec![("p".to_string(), u64::MAX)];
    assert_eq!(check_groups(&[g.clone()], &sizes), Ok(()));
    g.max_size = u64::MAX;
    g.partitions.push("p".into());
    assert_eq!(check_groups(&[g], &sizes), Err(Error::GroupFull));
}

fn entry(name: &str, kind: HostKind) -> HostEntry {
    HostEntry { name: name.as_bytes().to_vec(), kind }
}

fn file(name: &str, data: &[u8], executable: bool) -> HostEntry {
    entry(name, HostKind::File { data: data.to_vec(), executable })
}

fn folder() -> HostEntry {
    entry(
        "",
        HostKind::Dir(vec![
            entry("bin", HostKind::Dir(vec![file("sh", b"#!", false)])),
            file("build.prop", b"a=b\n", false),
            file("c++ (1)", b"new", false),
            entry("link", HostKind::Symlink(b"bin/sh".to_vec())),
            entry("pipe", HostKind::Other),
        ]),
    )
}

const FS_CONFIG: &str = "vendor 0 2000 0755\n\
    vendor/bin 0 2000 0751\n\
    vendor/bin/sh 0 2000 0755 capabilities=0xc0\n\
    vendor/build.prop 0 0 0600\n\
    vendor/gone 0 0 0644\n";
const CONTEXTS: &str = "/vendor u:object_r:vendor_file:s0\n\
    /vendor/build\\.prop u:object_r:prop_file:s0\n";
const LINKS: &str = "vendor/lib/x.so y.so\nvendor/bin/ls toybox\n";
const INFO: &str = "part=vendor\nmount_point=/vendor\nblock_size=4096\nblocks=2000\ninodes=200\n\
    uuid=30dc3fef-c49c-53e2-9bae-38d5480ae009\nvolume_name=vendor\ncreated=1230768000\n";

#[test]
fn build_then_extract() {
    let (image, sum) =
        build("vendor", FS_CONFIG, CONTEXTS, LINKS, INFO, &folder(), Size::Original, 5).unwrap();
    assert_eq!(sum.mount_point, "/vendor");
    assert_eq!((sum.files, sum.symlinks), (3, 2));
    assert_eq!(sum.removed, 1);
    assert!(sum.warnings.iter().any(|w| w == "symlink lib/x.so: its directory is gone, skipped"));
    assert!(sum.new_entries.iter().any(|e| e.contains("c++ (1)")));
    assert_eq!(sum.stats.blocks, 2000);
    assert_eq!(image.len(), 2000 * 4096);

    let fs = open_image(image).unwrap();
    assert_eq!(fs.volume_name(), "vendor");
    let mut x = Extraction::new(fs.root());
    let mut seen = Vec::new();
    while let Some((rel, step)) = x.step(&fs).unwrap() {
        let what = match step {
            Step::Dir => "dir".to_string(),
            Step::File(b) => String::from_utf8(b).unwrap(),
            Step::Symlink(t) => format!("-> {}", String::from_utf8(t).unwrap()),
            Step::Special => "special".to_string(),
        };
        seen.push((String::from_utf8(rel).unwrap(), what));
    }
    let seen: Vec<(&str, &str)> = seen.iter().map(|(a, b)| (a.as_str(), b.as_str())).collect();
    assert_eq!(
        seen,
        [
            ("", "dir"),
            ("bin", "dir"),
            ("bin/ls", "-> toybox"),
            ("bin/sh", "#!"),
            ("build.prop", "a=b\n"),
            ("c++ (1)", "new"),
            ("link", "-> bin/sh"),
        ]
    );
    let config = write_config("/vendor", &x.visits);
    assert!(config.fs_config.contains("vendor/bin/sh 0 2000 0755 capabilities=0xc0\n"));
    assert!(config.fs_config.contains("vendor/build.prop 0 0 0600\n"));
    assert!(config.file_contexts.contains("/vendor/build\\.prop u:object_r:prop_file:s0\n"));
    assert!(config.file_contexts.contains("/vendor/c\\+\\+ \\(1\\) u:object_r:vendor_file:s0\n"));
    assert_eq!(config.symlinks, "vendor/bin/ls toybox\nvendor/link bin/sh\n");
    // a path with white space
    assert_eq!(config.warnings.len(), 1);
    let s = sum_up(&x.visits, fs.fs_type(), "vendor", "/vendor");
    assert_eq!((s.dirs, s.files, s.symlinks, s.special), (2, 3, 2, 0));
    assert_eq!(s.bytes, 2 + 4 + 3);
    let info = write_info("vendor", "/vendor", &fs.info());
    assert!(info.starts_with("part=vendor\nmount_point=/vendor\n"));
    assert!(info.contains("\nuuid=30dc3fef-c49c-53e2-9bae-38d5480ae009\n"));
}

/// Puts an entry into a folder by its path.
fn put(dir: &mut HostEntry, rel: &[u8], kind: HostKind) {
    let HostKind::Dir(children) = &mut dir.kind else {
        panic!("not a directory");
    };
    match rel.iter().position(|&c| c == b'/') {
        None => children.push(HostEntry { name: rel.to_vec(), kind }),
        Some(i) => {
            let next = children.iter_mut().find(|c| c.name == rel[..i]).unwrap();
            put(next, &rel[i + 1..], kind);
        }
    }
}

#[test]
fn a_rebuild_is_identical() {
    let mut root = folder();
    let HostKind::Dir(children) = &mut root.kind else {
        panic!("not a directory");
    };
    children.retain(|c| !c.name.contains(&b' '));
    let (image, _) =
        build("vendor", FS_CONFIG, CONTEXTS, LINKS, INFO, &root, Size::Original, 5).unwrap();
    let fs = open_image(image.clone()).unwrap();
    let mut x = Extraction::new(fs.root());
    let mut copy = entry("", HostKind::Dir(vec![]));
    while let Some((rel, step)) = x.step(&fs).unwrap() {
        match step {
            Step::Dir if rel.is_empty() => {}
            Step::Dir => put(&mut copy, &rel, HostKind::Dir(vec![])),
            Step::File(data) => {
                put(&mut copy, &rel, HostKind::File { data, executable: false })
            }
            // the folder cannot hold symlinks
            Step::Symlink(_) => {}
            Step::Special => panic!("nothing special"),
        }
    }
    let config = write_config("/vendor", &x.visits);
    let info = write_info("vendor", "/vendor", &fs.info());
    let again = build(
        "vendor",
        &config.fs_config,
        &config.file_contexts,
        &config.symlinks,
        &info,
        &copy,
        Size::Original,
        77,
    );
    let (image2, sum) = again.unwrap();
    assert_eq!(sum.symlinks, 2);
    assert!(sum.new_entries.is_empty());
    assert!(image == image2);
}

#[test]
fn full_partitions_grow() {
    let big = entry("", HostKind::Dir(vec![file("big", &vec![7u8; 3000 * 4096], false)]));
    let full = build("vendor", "", "", "", INFO, &big, Size::Original, 0);
    assert_eq!(full.err(), Some(Error::StorageFull));
    let fixed = build_partition("vendor", "", "", "", INFO, &big, false, 0);
    assert_eq!(fixed.err(), Some(Error::StorageFull));
    let (_, s, grew) = build_partition("vendor", "", "", "", INFO, &big, true, 0).unwrap();
    assert!(grew && s.stats.blocks > 3000);
    let (_, _, grew) = build_partition("vendor", "", "", "", INFO, &folder(), true, 0).unwrap();
    assert!(!grew);
}

#[test]
fn build_errors() {
    let bad = build("v", "vendor x 0 0755\n", "", "", INFO, &folder(), Size::Auto, 0);
    assert_eq!(bad.err(), Some(Error::BadFsConfig));
    let leaf = file("x", b"", false);
    let bad = build("v", "", "", "", INFO, &leaf, Size::Auto, 0);
    assert_eq!(bad.err(), Some(Error::NotADirectory));
    let bad = build("v", "", "", "", "block_size=512\n", &folder(), Size::Auto, 0);
    assert_eq!(bad.err(), Some(Error::UnsupportedBlockSize));
    let bad = build("v", "", "", "", INFO, &folder(), Size::Bytes(1 << 50), 0);
    assert_eq!(bad.err(), Some(Error::ImageTooBig));
}

#[test]
fn images_that_cannot_be_extracted() {
    let mut b = vec![0u8; 4096];
    assert_eq!(open_image(b.clone()).err(), Some(Error::UnknownFilesystem));
    b[1024..1028].copy_from_slice(&0xE0F5_E1E2u32.to_le_bytes());
    assert_eq!(open_image(b.clone()).err(), Some(Error::ErofsImage));
    b[..4].copy_from_slice(&0xED26_FF3Au32.to_le_bytes());
    assert_eq!(open_image(b).err(), Some(Error::SparseImage));
}

#[test]
fn names_that_are_not_text() {
    let odd = HostEntry {
        name: vec![b'a', 0xFF],
        kind: HostKind::File { data: vec![1], executable: false },
    };
    let root = entry("", HostKind::Dir(vec![odd]));
    let (image, _) = build("vendor", "", "", "", INFO, &root, Size::Auto, 0).unwrap();
    let fs = open_image(image).unwrap();
    let mut x = Extraction::new(fs.root());
    while x.step(&fs).unwrap().is_some() {}
    let config = write_config("/vendor", &x.visits);
    assert!(config.fs_config.contains("vendor/a\u{FFFD} 0 "));
    assert_eq!(config.warnings.len(), 1);
}
