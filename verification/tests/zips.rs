use jancox::archive::{list_names, list_zip, zip_file, Packing, ZipOut};
use jancox::br;
use jancox::error::Error;
use jancox::factory::{open_window, range_of, stored_range};
use jancox::rom::config::RepackOptions;
use jancox::rom::repack::{
    collect_files, fs_bytes, repack, BuiltPart, Repack, RomEntry, RomKind,
};
use jancox::rom::state::Partition;
use jancox::rom::unpack::{file_named, partition_data, sum_up, unpack, UnpackStep};
use std::io::{Cursor, Write};

fn file(name: &str, data: &[u8], executable: bool) -> RomEntry {
    RomEntry {
        name: name.as_bytes().to_vec(),
        kind: RomKind::File { data: data.to_vec(), executable },
    }
}

fn dir(name: &str, children: Vec<RomEntry>) -> RomEntry {
    RomEntry { name: name.as_bytes().to_vec(), kind: RomKind::Dir(children) }
}

fn part(name: &str, brotli: bool, size: u64) -> Partition {
    Partition { name: name.to_string(), version: 4, brotli, size }
}

fn data(n: usize) -> Vec<u8> {
    (0..n).map(|i| (i * 31 % 251) as u8).collect()
}

fn built(name: &str, brotli: bool, size: u64, fs_bytes: u64) -> BuiltPart {
    BuiltPart {
        partition: part(name, brotli, size),
        fs_bytes,
        transfer_list: format!("4\n{}\n", name).into_bytes(),
        new_data: data(10_000 + name.len()),
    }
}

const OPS: &str = "add_group qti 8000\nadd system qti\nresize system 3000\n";

fn rom() -> RomEntry {
    dir(
        "",
        vec![
            file("dynamic_partitions_op_list", OPS.as_bytes(), false),
            dir("META-INF", vec![file("update-binary", b"#!/sbin/sh\n", true)]),
            file("boot.img", &data(5000), false),
        ],
    )
}

#[test]
fn zip_gives_back_its_files() {
    let mut z = ZipOut::new();
    z.add_file("a/b.txt", b"hello hello hello hello", Packing::Deflated(9), 0o644, false).unwrap();
    z.add_file("c", b"stored", Packing::Stored, 0o755, false).unwrap();
    z.add_file("\u{e9}", b"", Packing::Deflated(1), 0o600, true).unwrap();
    let bytes = z.finish().unwrap();

    assert_eq!(list_names(&bytes).unwrap(), ["a/b.txt", "c", "\u{e9}"]);
    let entries = list_zip(&bytes).unwrap();
    assert_eq!(entries.len(), 3);
    assert!(!entries[0].stored && entries[1].stored);
    assert_eq!(entries[0].size, 23);
    assert_eq!(entries[1].mode.map(|m| m & 0o777), Some(0o755));
    assert_eq!(entries[0].path.as_deref(), Some("a/b.txt"));
    assert_eq!(zip_file(&bytes, 0).unwrap(), b"hello hello hello hello");
    assert_eq!(zip_file(&bytes, 1).unwrap(), b"stored");
    assert_eq!(zip_file(&bytes, 2).unwrap(), b"");
    assert_eq!(zip_file(&bytes, 3), Err(Error::BadZip));
}

#[test]
fn zip_refuses_a_second_file_of_a_name() {
    let mut z = ZipOut::new();
    z.add_file("a", b"1", Packing::Stored, 0o644, false).unwrap();
    assert_eq!(
        z.add_file("a", b"2", Packing::Stored, 0o644, false),
        Err(Error::ZipRefused)
    );
}

#[test]
fn empty_zip() {
    let bytes = ZipOut::new().finish().unwrap();
    assert!(list_zip(&bytes).unwrap().is_empty());
    assert_eq!(unpack(&bytes).err(), Some(Error::NoPartitions));
}

#[test]
fn not_a_zip() {
    assert_eq!(list_names(b"no zip").err(), Some(Error::BadZip));
    assert_eq!(list_zip(b"no zip").err(), Some(Error::BadZip));
    assert_eq!(unpack(b"no zip").err(), Some(Error::BadZip));
    assert_eq!(file_named(b"no zip", "a").err(), Some(Error::BadZip));
    assert_eq!(stored_range(&b"no zip".to_vec(), 0), Err(Error::BadZip));
}

#[test]
fn stored_entries_are_windows() {
    let mut z = ZipOut::new();
    z.add_file("x", b"squeezed", Packing::Deflated(1), 0o644, false).unwrap();
    z.add_file("y", b"plain", Packing::Stored, 0o644, false).unwrap();
    let bytes = z.finish().unwrap();
    assert_eq!(stored_range(&bytes, 0), Ok(None));
    let (start, len) = stored_range(&bytes, 1).unwrap().unwrap();
    assert_eq!(len, 5);
    assert_eq!(open_window(&bytes, start, len).unwrap(), b"plain");
    assert_eq!(open_window(&bytes, start, u64::MAX), Err(Error::TruncatedZip));
    let mut e = list_zip(&bytes).unwrap().remove(1);
    assert_eq!(range_of(&e), Ok(Some((start, len))));
    e.start = None;
    assert_eq!(range_of(&e), Err(Error::NoDataOffset));
    e.encrypted = true;
    assert_eq!(range_of(&e), Ok(None));
}

#[test]
fn rom_files_sorted() {
    let root = dir(
        "",
        vec![
            file("b", b"", false),
            dir("a", vec![file("z", b"1", true), file("y", b"2", false), dir("e", vec![])]),
            file("A", b"", false),
        ],
    );
    let paths: Vec<String> = collect_files(&root).into_iter().map(|f| f.path).collect();
    assert_eq!(paths, ["A", "a/y", "a/z", "b"]);
}

#[test]
fn repacked_rom_is_unpacked() {
    let parts = vec![built("system", true, 3000, 4096), built("vendor", false, 8192, 8192)];
    let opts = RepackOptions { brotli_quality: 5, zip_level: 9 };
    let bytes = repack(opts, &parts, &rom(), Some(OPS)).unwrap();
    assert_eq!(
        list_names(&bytes).unwrap(),
        [
            "system.transfer.list",
            "system.new.dat.br",
            "system.patch.dat",
            "vendor.transfer.list",
            "vendor.new.dat",
            "vendor.patch.dat",
            "META-INF/update-binary",
            "boot.img",
            "dynamic_partitions_op_list"
        ]
    );
    let entries = list_zip(&bytes).unwrap();
    let stored: Vec<bool> = entries.iter().map(|e| e.stored).collect();
    assert_eq!(stored, [false, true, true, false, false, true, false, false, false]);

    let plan = unpack(&bytes).unwrap();
    let found: Vec<(&str, bool)> =
        plan.partitions.iter().map(|p| (p.name.as_str(), p.brotli)).collect();
    assert_eq!(found, [("system", true), ("vendor", false)]);
    for (p, b) in plan.partitions.iter().zip(&parts) {
        let (list, plain) = partition_data(&bytes, p).unwrap();
        assert_eq!(list, b.transfer_list);
        assert_eq!(plain, b.new_data);
    }
    // the block data of the first is compressed in the zip
    let raw = file_named(&bytes, "system.new.dat.br").unwrap();
    assert_ne!(raw, parts[0].new_data);
    assert_eq!(br::decoder(&raw).unwrap(), parts[0].new_data);

    assert!(plan.steps[..6].iter().all(|s| matches!(s, UnpackStep::PartFile)));
    match &plan.steps[6] {
        UnpackStep::File { path, mode } => {
            assert_eq!(path, "META-INF/update-binary");
            assert_eq!(*mode, Some(0o755));
        }
        other => panic!("{:?}", other),
    }
    let sum = sum_up(plan.partitions, &plan.steps, vec![]);
    assert_eq!(sum.other_files, 3);
    assert_eq!(file_named(&bytes, "boot.img").unwrap(), data(5000));
    assert_eq!(
        file_named(&bytes, "dynamic_partitions_op_list").unwrap(),
        b"add_group qti 8000\nadd system qti\nresize system 4096\n"
    );
    assert_eq!(file_named(&bytes, "nothing"), Err(Error::NoSuchEntry));
}

#[test]
fn repack_refuses() {
    let opts = RepackOptions::default();
    let bad = RepackOptions { brotli_quality: 12, ..opts };
    assert_eq!(repack(bad, &vec![], &rom(), None), Err(Error::BadOptions));
    let bad = RepackOptions { zip_level: -1, ..opts };
    assert_eq!(Repack::new(bad).err(), Some(Error::BadOptions));
    // the group of the partition is too small for its new size
    let parts = vec![built("system", true, 3000, 8192)];
    assert_eq!(repack(opts, &parts, &rom(), Some(OPS)), Err(Error::OpListFull));
    // without a list that is packed there is nothing to check
    assert!(repack(opts, &parts, &dir("", vec![]), Some(OPS)).is_ok());
    assert!(repack(opts, &parts, &rom(), None).is_ok());
    // two files of one name
    let twice = dir("", vec![file("system.patch.dat", b"", false)]);
    assert_eq!(repack(opts, &parts, &twice, None), Err(Error::ZipRefused));
}

#[test]
fn level_zero_stores() {
    let opts = RepackOptions { brotli_quality: 0, zip_level: 0 };
    let bytes = repack(opts, &vec![built("a", false, 1, 1)], &rom(), None).unwrap();
    assert!(list_zip(&bytes).unwrap().iter().all(|e| e.stored));
    assert_eq!(file_named(&bytes, "boot.img").unwrap(), data(5000));
}

#[test]
fn grown_partitions_are_noted() {
    let mut r = Repack::new(RepackOptions::default()).unwrap();
    r.add_partition(&part("a", false, 10), 10, b"l", b"d").unwrap();
    r.add_partition(&part("b", false, 10), 11, b"l", b"d").unwrap();
    assert_eq!(r.new_sizes, [("b".to_string(), 11)]);
    let bytes = r.finish().unwrap();
    assert_eq!(list_names(&bytes).unwrap().len(), 6);
}

#[test]
fn filesystem_bytes() {
    let mut s = jancox::build::Summary::default();
    s.stats.blocks = 3;
    s.block_size = 4096;
    assert_eq!(fs_bytes(&s), 12288);
}

#[test]
fn unsafe_and_other_entries() {
    let mut w = zip::ZipWriter::new(Cursor::new(Vec::new()));
    let o = zip::write::SimpleFileOptions::default();
    w.start_file("p.transfer.list", o).unwrap();
    w.start_file("p.new.dat", o).unwrap();
    w.add_directory("folder", o).unwrap();
    w.start_file("../out", o).unwrap();
    w.write_all(b"x").unwrap();
    w.start_file("p.new.dat.old", o.unix_permissions(0o640)).unwrap();
    let bytes = w.finish().unwrap().into_inner();
    let plan = unpack(&bytes).unwrap();
    assert!(matches!(&plan.steps[0], UnpackStep::PartFile));
    assert!(matches!(&plan.steps[1], UnpackStep::PartFile));
    assert!(matches!(&plan.steps[2], UnpackStep::Dir(p) if p.trim_end_matches('/') == "folder"));
    assert!(matches!(&plan.steps[3], UnpackStep::Unsafe(n) if n == "../out"));
    assert!(matches!(&plan.steps[4], UnpackStep::File { path, mode: Some(0o640) } if path == "p.new.dat.old"));
}

#[test]
fn payload_and_corrupt_data() {
    let mut z = ZipOut::new();
    z.add_file("payload.bin", b"", Packing::Stored, 0o644, false).unwrap();
    assert_eq!(unpack(&z.finish().unwrap()).err(), Some(Error::PayloadRom));

    let mut z = ZipOut::new();
    z.add_file("a.transfer.list", b"4\n", Packing::Stored, 0o644, false).unwrap();
    z.add_file("a.new.dat.br", b"\x0bnot brotli", Packing::Stored, 0o644, false).unwrap();
    let bytes = z.finish().unwrap();
    assert_eq!(partition_data(&bytes, &part("a", true, 0)), Err(Error::CorruptBrotli));
    assert_eq!(
        partition_data(&bytes, &part("a", false, 0)),
        Err(Error::NoSuchEntry)
    );
    assert_eq!(
        partition_data(&bytes, &part("b", false, 0)),
        Err(Error::NoSuchEntry)
    );
}

/// The step for an entry of this name beside a partition.
fn step_of(name: &str) -> UnpackStep {
    let mut w = zip::ZipWriter::new(Cursor::new(Vec::new()));
    let o = zip::write::SimpleFileOptions::default();
    w.start_file("p.transfer.list", o).unwrap();
    w.start_file("p.new.dat", o).unwrap();
    w.start_file(name, o).unwrap();
    let bytes = w.finish().unwrap().into_inner();
    unpack(&bytes).unwrap().steps.remove(2)
}

fn parts_of(path: &str) -> Vec<&str> {
    path.split(['/', '\\']).filter(|p| !p.is_empty()).collect()
}

#[test]
fn other_entries_go_where_their_names_say() {
    for (name, want) in [
        ("boot.img", vec!["boot.img"]),
        ("META-INF/com/google/android/update-binary", vec![
            "META-INF",
            "com",
            "google",
            "android",
            "update-binary",
        ]),
        ("a//b/./c", vec!["a", "b", "c"]),
        ("a/b/../c", vec!["a", "c"]),
        ("./x.y.z", vec!["x.y.z"]),
        ("command.com", vec!["command.com"]),
        ("\u{e9}/\u{1f600}", vec!["\u{e9}", "\u{1f600}"]),
    ] {
        match step_of(name) {
            UnpackStep::File { path, .. } => assert_eq!(parts_of(&path), want, "{}", name),
            other => panic!("{}: {:?}", name, other),
        }
    }
    match step_of("firmware-update/") {
        UnpackStep::Dir(path) => assert_eq!(parts_of(&path), ["firmware-update"]),
        other => panic!("{:?}", other),
    }
}

#[test]
fn entries_that_lead_out() {
    for name in ["..", "../x", "a/../../x", "a/b/../../../a", "./..", "x\0y"] {
        assert!(matches!(step_of(name), UnpackStep::Unsafe(n) if n == name), "{:?}", name);
    }
}
