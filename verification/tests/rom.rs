use jancox::error::Error;
use jancox::rom::config::{load_config, RepackOptions, DEFAULT_CONFIG};
use jancox::rom::name::{date_of, rom_name, Date};
use jancox::rom::op_list::update_op_list;
use jancox::rom::state::{read_state, write_state, Partition};
use jancox::rom::unpack::{find_partitions, prop, rom_info};
use jancox::rom::{cleanup, find_input, init, partition_dir};

const OPS: &str = "remove_all_groups\n\
    add_group qti 8000\n\
    add system qti\n\
    add vendor qti\n\
    resize system 3000\n\
    resize vendor 1000\n";

#[test]
fn op_list_resize() {
    let sizes = vec![("system".to_string(), 4000u64)];
    let out = update_op_list(OPS, &sizes).unwrap();
    assert!(out.contains("resize system 4000\n"));
    assert!(out.contains("resize vendor 1000\n"));
    assert!(out.starts_with("remove_all_groups\nadd_group qti 8000\n"));
}

#[test]
fn op_list_group_limit() {
    let sizes = vec![("system".to_string(), 7500u64)];
    assert!(update_op_list(OPS, &sizes).is_err());
}

#[test]
fn op_list_exact_limit() {
    let fits = vec![("system".to_string(), 7000u64)];
    assert!(update_op_list(OPS, &fits).is_ok());
    let over = vec![("system".to_string(), 7001u64)];
    assert_eq!(update_op_list(OPS, &over), Err(Error::OpListFull));
}

#[test]
fn op_list_keeps_other_lines() {
    let text = "# comment  with  spaces\r\nadd_group big max\nadd p big\n resize  p  12x \nresize q 7";
    let out = update_op_list(text, &vec![]).unwrap();
    assert_eq!(
        out,
        "# comment  with  spaces\nadd_group big max\nadd p big\nresize p 0\nresize q 7\n"
    );
}

#[test]
fn op_list_last_one_counts() {
    // a partition that is moved to another group counts there alone
    let text = "add_group a 10\nadd_group b 100\nadd p a\nadd p b\nresize p 50\n";
    assert!(update_op_list(text, &vec![]).is_ok());
    // so does the last maximum of a group, and the last size
    let text = "add_group a 100\nadd_group a 10\nadd p a\nresize p 5\nresize p 50\n";
    assert_eq!(update_op_list(text, &vec![]), Err(Error::OpListFull));
    // the last of two sizes for a name counts
    let sizes = vec![("p".to_string(), 50u64), ("p".to_string(), 10u64)];
    let text = "add_group a 10\nadd p a\nresize p 5\n";
    assert_eq!(
        update_op_list(text, &sizes).unwrap(),
        "add_group a 10\nadd p a\nresize p 10\n"
    );
}

#[test]
fn op_list_twice_is_once() {
    let sizes = vec![("system".to_string(), 4000u64)];
    let once = update_op_list(OPS, &sizes).unwrap();
    assert_eq!(update_op_list(&once, &sizes).unwrap(), once);
    assert_eq!(once.lines().count(), OPS.lines().count());
    assert_eq!(update_op_list(&once, &vec![]).unwrap(), once);
}

#[test]
fn config_file() {
    // missing file: defaults
    let d = load_config(None).unwrap();
    assert_eq!((d.brotli_quality, d.zip_level), (1, 1));

    let made = init(false, false, false);
    assert_eq!(made.len(), 3);
    assert!(init(true, true, true).is_empty(), "init keeps what exists");
    let d = load_config(Some(DEFAULT_CONFIG)).unwrap();
    assert_eq!((d.brotli_quality, d.zip_level), (1, 1));

    let c = load_config(Some("# x\nbrotli.level = 6\nzip.level=9\nnew.key=1\n")).unwrap();
    assert_eq!((c.brotli_quality, c.zip_level), (6, 9));
    assert!(load_config(Some("brotli.level=12\n")).is_err());
}

#[test]
fn config_errors() {
    assert_eq!(load_config(Some("brotli.level=12\n")), Err(Error::BadConfig(1)));
    assert_eq!(load_config(Some("\n# x\nzip.level\n")), Err(Error::BadConfig(3)));
    assert_eq!(load_config(Some("zip.level=10")), Err(Error::BadConfig(1)));
    assert_eq!(load_config(Some("zip.level=-1")), Err(Error::BadConfig(1)));
    assert_eq!(load_config(Some("zip.level=")), Err(Error::BadConfig(1)));
    assert_eq!(load_config(Some("zip.level=-0")).unwrap().zip_level, 0);
    assert_eq!(load_config(Some(" zip.level = +3 ")).unwrap().zip_level, 3);
    assert_eq!(load_config(Some("")).unwrap(), RepackOptions::default());
}

#[test]
fn what_init_makes() {
    assert_eq!(init(false, false, false), ["input", "output", "jancox.prop"]);
    assert_eq!(init(true, false, true), ["output"]);
}

#[test]
fn rom_name_format() {
    let secs = std::time::SystemTime::now()
        .duration_since(std::time::UNIX_EPOCH)
        .unwrap()
        .as_secs();
    let n = rom_name(secs);
    assert!(n.starts_with("NewROM-20"));
    assert_eq!(n.len(), "NewROM-20260925-171500".len());
}

#[test]
fn rom_name_values() {
    assert_eq!(rom_name(0), "NewROM-19700101-000000");
    assert_eq!(rom_name(951_782_400), "NewROM-20000229-000000");
    assert_eq!(rom_name(951_868_799), "NewROM-20000229-235959");
    assert_eq!(rom_name(1_790_356_500), "NewROM-20260925-171500");
    assert_eq!(rom_name(4_107_542_399), "NewROM-21000228-235959");
    assert_eq!(rom_name(4_107_542_400), "NewROM-21000301-000000");
    assert_eq!(rom_name(253_402_300_799), "NewROM-99991231-235959");
    assert_eq!(rom_name(253_402_300_800), "NewROM-100000101-000000");
}

#[test]
fn dates_in_order() {
    let mut last = date_of(0);
    assert_eq!(last, Date { year: 1970, month: 1, day: 1 });
    for d in 1..200_000u64 {
        let next = date_of(d);
        assert!((last.year, last.month, last.day) < (next.year, next.month, next.day));
        last = next;
    }
    assert_eq!(last, Date { year: 2517, month: 7, day: 31 });
}

fn part(name: &str, version: u32, brotli: bool, size: u64) -> Partition {
    Partition { name: name.to_string(), version, brotli, size }
}

#[test]
fn state_text() {
    let parts = vec![part("system", 4, true, 4096), part("vendor", 3, false, 1 << 33)];
    let text = write_state("/sdcard/a=b.zip", &parts);
    assert_eq!(
        text,
        "input=/sdcard/a=b.zip\npartitions=system vendor\nsystem.version=4\nsystem.brotli=true\n\
         system.size=4096\nvendor.version=3\nvendor.brotli=false\nvendor.size=8589934592\n"
    );
    assert_eq!(read_state(Some(&text)), Ok(Some(parts)));
    assert_eq!(read_state(None), Ok(None));
}

#[test]
fn state_errors() {
    assert_eq!(read_state(Some("input=x\n")), Err(Error::MissingState));
    assert_eq!(read_state(Some("partitions=a\n")), Err(Error::MissingState));
    assert_eq!(
        read_state(Some("partitions=a\na.version=x\n")),
        Err(Error::BadState)
    );
    assert_eq!(
        read_state(Some("partitions=a\na.version=1\n")),
        Err(Error::MissingState)
    );
    assert_eq!(
        read_state(Some("partitions=a\na.version=1\na.brotli=true\na.size=-1\n")),
        Err(Error::BadState)
    );
    // a long version is cut to 32 bits, and anything but "true" is no
    assert_eq!(
        read_state(Some("partitions= a \na.version=4294967300\na.brotli=yes\na.size=+7\n")),
        Ok(Some(vec![part("a", 4, false, 7)]))
    );
    assert_eq!(read_state(Some("partitions=\n")), Ok(Some(vec![])));
}

fn texts(v: &[&str]) -> Vec<String> {
    v.iter().map(|s| s.to_string()).collect()
}

#[test]
fn partitions_by_name() {
    let names = texts(&[
        "boot.img",
        "system.transfer.list",
        "system.new.dat.br",
        "system.patch.dat",
        "vendor.new.dat",
        "vendor.transfer.list",
        "odm.transfer.list",
    ]);
    assert_eq!(
        find_partitions(&names),
        Ok(vec![part("system", 0, true, 0), part("vendor", 0, false, 0)])
    );
    assert_eq!(find_partitions(&texts(&["boot.img"])), Err(Error::NoPartitions));
    assert_eq!(
        find_partitions(&texts(&["payload.bin", "system.transfer.list"])),
        Err(Error::PayloadRom)
    );
}

#[test]
fn build_props() {
    let text = "# x\nro.build.version.release_or=9\nro.build.version.release=15\nro.build.version.release=16\n";
    assert_eq!(prop(text, "ro.build.version.release"), Some("15".to_string()));
    assert_eq!(prop(text, "ro.build"), None);
    assert_eq!(
        rom_info(Some((text, true)), Some("ro.product.vendor.device=cubs\r\n")),
        [
            ("Android version".to_string(), "15".to_string()),
            ("System-as-root".to_string(), "true".to_string()),
            ("Device".to_string(), "cubs".to_string())
        ]
    );
    assert_eq!(
        rom_info(Some(("ro.build.display.id=A=B\n", false)), None),
        [
            ("ROM".to_string(), "A=B".to_string()),
            ("System-as-root".to_string(), "false".to_string())
        ]
    );
    assert!(rom_info(None, None).is_empty());
}

#[test]
fn input_zips() {
    let names: Vec<Vec<u8>> = ["b.zip", "a.ZIP", "a.txt", ".zip", "0zip"]
        .iter()
        .map(|s| s.as_bytes().to_vec())
        .collect();
    assert_eq!(find_input(&names), Some(1));
    assert_eq!(find_input(&vec![b".zip".to_vec()]), None);
}

#[test]
fn what_cleanup_removes() {
    let parts = vec![part("system", 4, true, 1)];
    assert_eq!(cleanup(None, false, false), ["rom", "tmp", "partition", "jancox_rom"]);
    assert_eq!(
        cleanup(Some(&parts), true, true),
        ["rom", "tmp", "partition", "jancox_rom", "output"]
    );
    assert_eq!(
        cleanup(Some(&parts), false, false),
        ["rom", "tmp", "partition", "system", "config", "jancox_rom"]
    );
    assert!(!cleanup(Some(&parts), false, true).contains(&"input".to_string()));
}

#[test]
fn cleanup_leaves_input_and_output() {
    for name in ["input", "output", "input/x", "./output/a", "..", "../x", ".", "", "/", "/etc"] {
        let parts = vec![part(name, 4, true, 1), part("vendor", 4, true, 1)];
        assert_eq!(
            cleanup(Some(&parts), false, false),
            ["rom", "tmp", "partition", "vendor", "config", "jancox_rom"],
            "{}",
            name
        );
        assert_eq!(
            cleanup(Some(&parts), false, true),
            ["rom", "tmp", "partition", "vendor", "config", "jancox_rom", "output"]
        );
    }
    let parts = vec![part("inputs", 4, true, 1)];
    assert!(cleanup(Some(&parts), false, false).contains(&"inputs".to_string()));
}

#[test]
fn partition_folder() {
    assert_eq!(partition_dir("."), "./partition");
    assert_eq!(partition_dir("/work/"), "/work/partition");
    assert_eq!(partition_dir(""), "partition");
}
