use jancox::build::Size;
use jancox::cli::{
    brotli_args, build_args, cleanup_args, command, extract_args, img2sdat_args, init_args,
    repack_args, sdat2img_args, unpack_args, workdir, ArgError, Command,
};
use jancox::rom::config::RepackOptions;

fn args(text: &str) -> Vec<String> {
    text.split(' ').filter(|s| !s.is_empty()).map(|s| s.to_string()).collect()
}

#[test]
fn commands() {
    assert_eq!(command("init"), Command::Init);
    assert_eq!(command("unpack"), Command::Unpack);
    assert_eq!(command("repack"), Command::Repack);
    assert_eq!(command("cleanup"), Command::Cleanup);
    assert_eq!(command("sdat2img"), Command::Sdat2img);
    assert_eq!(command("img2sdat"), Command::Img2sdat);
    assert_eq!(command("brotli"), Command::Brotli);
    assert_eq!(command("extract"), Command::Extract);
    assert_eq!(command("build"), Command::Build);
    assert_eq!(command("--version"), Command::Version);
    assert_eq!(command("-h"), Command::Help);
    assert_eq!(command("Init"), Command::Unknown);
}

#[test]
fn sdat2img_arguments() {
    let a = sdat2img_args(&args("l d")).unwrap();
    assert_eq!((a.transfer_list.as_str(), a.new_dat.as_str()), ("l", "d"));
    assert_eq!(a.output, "system.img");
    assert_eq!(sdat2img_args(&args("l d o")).unwrap().output, "o");
    assert_eq!(sdat2img_args(&args("l")).err(), Some(ArgError::Usage));
    assert_eq!(sdat2img_args(&args("l d o x")).err(), Some(ArgError::Usage));
}

#[test]
fn img2sdat_arguments() {
    let a = img2sdat_args(&args("i.img")).unwrap();
    assert_eq!(a.image.as_deref(), Some("i.img"));
    assert_eq!((a.out_dir.as_str(), a.version, a.prefix.as_str()), (".", 4, "system"));
    assert_eq!(a.brotli, None);
    let a = img2sdat_args(&args("-o out i.img --version 3 -p vendor -b 6")).unwrap();
    assert_eq!((a.out_dir.as_str(), a.version, a.prefix.as_str()), ("out", 3, "vendor"));
    assert_eq!(a.brotli, Some(6));
    assert_eq!(img2sdat_args(&args("")).err(), Some(ArgError::Usage));
    assert_eq!(img2sdat_args(&args("i -v")).err(), Some(ArgError::NeedsValue(1)));
    assert_eq!(img2sdat_args(&args("i -v x")).err(), Some(ArgError::BadValue(1)));
    assert_eq!(img2sdat_args(&args("i j")).err(), Some(ArgError::Unexpected(1)));
    assert_eq!(img2sdat_args(&args("--x i")).err(), Some(ArgError::Unexpected(0)));
}

#[test]
fn brotli_arguments() {
    let a = brotli_args(&args("f")).unwrap();
    assert_eq!((a.quality, a.lgwin), (1, 24));
    assert_eq!(a.output.as_deref(), Some("f.br"));
    let a = brotli_args(&args("-d -j -f x.br")).unwrap();
    assert!(a.decompress && a.remove_input && a.force);
    assert_eq!(a.output.as_deref(), Some("x"));
    let a = brotli_args(&args("-11 -w 20 f -o out")).unwrap();
    assert_eq!((a.quality, a.lgwin), (11, 20));
    assert_eq!(a.output.as_deref(), Some("out"));
    assert_eq!(brotli_args(&args("-q 3 -5 f")).unwrap().quality, 5);
    assert_eq!(brotli_args(&args("-d x")).err(), Some(ArgError::NoExtension));
    assert_eq!(brotli_args(&args("-d")).err(), Some(ArgError::Usage));
    assert_eq!(brotli_args(&args("f -q")).err(), Some(ArgError::NeedsValue(1)));
    assert_eq!(brotli_args(&args("f -q z")).err(), Some(ArgError::BadValue(1)));
    assert_eq!(brotli_args(&args("f -z")).err(), Some(ArgError::Unexpected(1)));
    assert_eq!(brotli_args(&args("f -")).err(), Some(ArgError::Unexpected(1)));
}

#[test]
fn extract_arguments() {
    let a = extract_args(&args("-p p i -o o")).unwrap();
    assert_eq!(a.image.as_deref(), Some("i"));
    assert_eq!((a.out_dir.as_str(), a.part.as_deref()), ("o", Some("p")));
    assert_eq!(extract_args(&args("i")).unwrap().out_dir, ".");
    assert_eq!(extract_args(&args("-o o")).err(), Some(ArgError::Usage));
    assert_eq!(extract_args(&args("i -p")).err(), Some(ArgError::NeedsValue(1)));
    assert_eq!(extract_args(&args("i -q")).err(), Some(ArgError::Unexpected(1)));
}

#[test]
fn build_arguments() {
    let a = build_args(&args("w system")).unwrap();
    assert_eq!((a.work.as_str(), a.part.as_str()), ("w", "system"));
    assert_eq!(a.output, "w/system.img");
    assert_eq!((a.size, a.force), (Size::Original, false));
    let a = build_args(&args("w system -o x.img -s 2G -f")).unwrap();
    assert_eq!(a.output, "x.img");
    assert_eq!((a.size, a.force), (Size::Bytes(2 << 30), true));
    assert_eq!(build_args(&args("w system -s auto")).unwrap().size, Size::Auto);
    assert_eq!(build_args(&args("w")).err(), Some(ArgError::Usage));
    assert_eq!(build_args(&args("w p q")).err(), Some(ArgError::Usage));
    assert_eq!(build_args(&args("w p -s x")).err(), Some(ArgError::BadValue(2)));
    assert_eq!(build_args(&args("w p -s")).err(), Some(ArgError::NeedsValue(2)));
    assert_eq!(build_args(&args("-x w p")).err(), Some(ArgError::Unexpected(0)));
    assert_eq!(build_args(&args("w /p")).unwrap().output, "/p.img");
}

#[test]
fn rom_arguments() {
    assert_eq!(workdir(&args("a b")).unwrap(), (".".to_string(), args("a b")));
    assert_eq!(
        workdir(&args("a -w x b --workdir y")).unwrap(),
        ("y".to_string(), args("a b"))
    );
    assert_eq!(workdir(&args("a -w")).err(), Some(ArgError::NeedsValue(1)));

    assert_eq!(unpack_args(&args("")), Ok(None));
    assert_eq!(unpack_args(&args("a.zip")), Ok(Some("a.zip".to_string())));
    assert_eq!(unpack_args(&args("-a")), Err(ArgError::Usage));
    assert_eq!(unpack_args(&args("a b")), Err(ArgError::Usage));

    let given = RepackOptions { brotli_quality: 2, zip_level: 3 };
    assert_eq!(repack_args(&args(""), given), Ok((None, given)));
    assert_eq!(
        repack_args(&args("-z -5 -b 7 -o o.zip"), given),
        Ok((Some("o.zip".to_string()), RepackOptions { brotli_quality: 7, zip_level: -5 }))
    );
    assert_eq!(repack_args(&args("-b x"), given), Err(ArgError::Usage));
    assert_eq!(repack_args(&args("-z --5"), given), Err(ArgError::Usage));
    assert_eq!(repack_args(&args("-o"), given), Err(ArgError::NeedsValue(0)));
    assert_eq!(repack_args(&args("x"), given), Err(ArgError::Unexpected(0)));

    assert_eq!(init_args(&args("")), Ok(()));
    assert_eq!(init_args(&args("x")), Err(ArgError::Usage));
    assert_eq!(cleanup_args(&args("")), Ok(false));
    assert_eq!(cleanup_args(&args("--all")), Ok(true));
    assert_eq!(cleanup_args(&args("all")), Err(ArgError::Usage));
}
