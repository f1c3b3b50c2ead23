//! The arguments of the commands.
use vstd::prelude::*;
use vstd::string::StringExecFns;
use crate::br::{DEFAULT_LGWIN, DEFAULT_QUALITY};
use crate::build::{size_in, Size};
use crate::extract::strings_view;
use crate::fs::text_view;
use crate::rom::config::RepackOptions;
use crate::text::{chars_of, same_text, string_of};
use crate::words::{ends, has_suffix, join_path, number_upto, parse_number, parse_signed, part,
    path_in, signed_in};

verus! {

/// Why arguments are refused; the place is that of the argument at fault.
#[derive(Debug, Clone, Copy, PartialEq, Eq, Structural)]
pub enum ArgError {
    /// Too few or too many of them.
    Usage,
    /// An option at the end that needs a value.
    NeedsValue(usize),
    /// The value of an option is wrong.
    BadValue(usize),
    Unexpected(usize),
    /// The output of a decompression cannot be named after its input.
    NoExtension,
}

/// A command of the program.
#[derive(Debug, Clone, Copy, PartialEq, Eq, Structural)]
pub enum Command {
    Init,
    Unpack,
    Repack,
    Cleanup,
    Sdat2img,
    Img2sdat,
    Brotli,
    Extract,
    Build,
    Version,
    Help,
    Unknown,
}

/// The command that an argument names.
pub open spec fn command_for(arg: Seq<char>) -> Command {
    if arg == "init"@ {
        Command::Init
    } else if arg == "unpack"@ {
        Command::Unpack
    } else if arg == "repack"@ {
        Command::Repack
    } else if arg == "cleanup"@ {
        Command::Cleanup
    } else if arg == "sdat2img"@ {
        Command::Sdat2img
    } else if arg == "img2sdat"@ {
        Command::Img2sdat
    } else if arg == "brotli"@ {
        Command::Brotli
    } else if arg == "extract"@ {
        Command::Extract
    } else if arg == "build"@ {
        Command::Build
    } else if arg == "-V"@ || arg == "--version"@ || arg == "version"@ {
        Command::Version
    } else if arg == "-h"@ || arg == "--help"@ || arg == "help"@ {
        Command::Help
    } else {
        Command::Unknown
    }
}

/// The command that an argument names.
pub fn command(arg: &str) -> (r: Command)
    ensures
        r == command_for(arg@),
{
    if same_text(arg, "init") {
        Command::Init
    } else if same_text(arg, "unpack") {
        Command::Unpack
    } else if same_text(arg, "repack") {
        Command::Repack
    } else if same_text(arg, "cleanup") {
        Command::Cleanup
    } else if same_text(arg, "sdat2img") {
        Command::Sdat2img
    } else if same_text(arg, "img2sdat") {
        Command::Img2sdat
    } else if same_text(arg, "brotli") {
        Command::Brotli
    } else if same_text(arg, "extract") {
        Command::Extract
    } else if same_text(arg, "build") {
        Command::Build
    } else if same_text(arg, "-V") || same_text(arg, "--version") || same_text(arg, "version") {
        Command::Version
    } else if same_text(arg, "-h") || same_text(arg, "--help") || same_text(arg, "help") {
        Command::Help
    } else {
        Command::Unknown
    }
}

/// An argument that starts with a dash.
pub open spec fn is_option(arg: Seq<char>) -> bool {
    arg.len() > 0 && arg[0] == '-'
}

fn dashed(arg: &str) -> (r: bool)
    ensures
        r == is_option(arg@),
{
    let c: Vec<char> = chars_of(arg);
    c.len() > 0 && c[0] == '-'
}

/// One of the two names of an option.
pub open spec fn is_one(arg: Seq<char>, short: Seq<char>, long: Seq<char>) -> bool {
    arg == short || arg == long
}

fn one_of(arg: &str, short: &str, long: &str) -> (r: bool)
    ensures
        r == is_one(arg@, short@, long@),
{
    same_text(arg, short) || same_text(arg, long)
}

fn text(args: &[String], i: usize) -> (r: String)
    requires
        i < args.len(),
    ensures
        r@ == strings_view(args@)[i as int],
{
    args[i].as_str().to_string()
}

/// A number of 32 bits.
pub open spec fn small_in(s: Seq<char>) -> Option<u32> {
    match number_upto(s, 10, u32::MAX as int) {
        Some(n) => Some(n as u32),
        None => None,
    }
}

fn parse_small(s: &str) -> (r: Option<u32>)
    ensures
        r == small_in(s@),
{
    match parse_number(&chars_of(s), 10, u32::MAX as u64) {
        Some(n) => Some(n as u32),
        None => None,
    }
}

/// The arguments of `sdat2img`.
#[derive(Debug, Clone)]
pub struct Sdat2imgArgs {
    pub transfer_list: String,
    pub new_dat: String,
    pub output: String,
}

/// The arguments of `sdat2img`: a transfer list, the block data and the image
/// to write.
pub fn sdat2img_args(args: &[String]) -> (r: Result<Sdat2imgArgs, ArgError>)
    ensures
        ({
            let all = strings_view(args@);
            match r {
                Ok(a) => {
                    &&& 2 <= all.len() <= 3
                    &&& a.transfer_list@ == all[0]
                    &&& a.new_dat@ == all[1]
                    &&& a.output@ == if all.len() == 3 {
                        all[2]
                    } else {
                        "system.img"@
                    }
                },
                Err(e) => e == ArgError::Usage && !(2 <= all.len() <= 3),
            }
        }),
{
    if args.len() < 2 || args.len() > 3 {
        return Err(ArgError::Usage);
    }
    let output: String = if args.len() == 3 {
        text(args, 2)
    } else {
        "system.img".to_string()
    };
    Ok(Sdat2imgArgs { transfer_list: text(args, 0), new_dat: text(args, 1), output })
}

/// The arguments of `img2sdat` as they are read.
#[derive(Debug, Clone)]
pub struct Img2sdatArgs {
    pub image: Option<String>,
    pub out_dir: String,
    pub version: u32,
    pub prefix: String,
    pub brotli: Option<u32>,
}

pub struct Img2sdatView {
    pub image: Option<Seq<char>>,
    pub out_dir: Seq<char>,
    pub version: u32,
    pub prefix: Seq<char>,
    pub brotli: Option<u32>,
}

impl View for Img2sdatArgs {
    type V = Img2sdatView;

    open spec fn view(&self) -> Img2sdatView {
        Img2sdatView {
            image: text_view(self.image),
            out_dir: self.out_dir@,
            version: self.version,
            prefix: self.prefix@,
            brotli: self.brotli,
        }
    }
}

/// The arguments from `i` on, after those before were read as `o`.
pub open spec fn img2sdat_from(args: Seq<Seq<char>>, i: int, o: Img2sdatView) -> Result<
    Img2sdatView,
    ArgError,
>
    decreases args.len() - i,
{
    if i >= args.len() {
        if o.image is None {
            Err(ArgError::Usage)
        } else {
            Ok(o)
        }
    } else if is_one(args[i], "-o"@, "--outdir"@) || is_one(args[i], "-v"@, "--version"@) || is_one(
        args[i],
        "-p"@,
        "--prefix"@,
    ) || is_one(args[i], "-b"@, "--brotli"@) {
        if i + 1 >= args.len() {
            Err(ArgError::NeedsValue(i as usize))
        } else if is_one(args[i], "-o"@, "--outdir"@) {
            img2sdat_from(args, i + 2, Img2sdatView { out_dir: args[i + 1], ..o })
        } else if is_one(args[i], "-p"@, "--prefix"@) {
            img2sdat_from(args, i + 2, Img2sdatView { prefix: args[i + 1], ..o })
        } else {
            match small_in(args[i + 1]) {
                None => Err(ArgError::BadValue(i as usize)),
                Some(n) => if is_one(args[i], "-v"@, "--version"@) {
                    img2sdat_from(args, i + 2, Img2sdatView { version: n, ..o })
                } else {
                    img2sdat_from(args, i + 2, Img2sdatView { brotli: Some(n), ..o })
                },
            }
        }
    } else if o.image is None && !is_option(args[i]) {
        img2sdat_from(args, i + 1, Img2sdatView { image: Some(args[i]), ..o })
    } else {
        Err(ArgError::Unexpected(i as usize))
    }
}

pub open spec fn img2sdat_default() -> Img2sdatView {
    Img2sdatView { image: None, out_dir: "."@, version: 4, prefix: "system"@, brotli: None }
}

/// The arguments of `img2sdat`; there is an image.
pub fn img2sdat_args(args: &[String]) -> (r: Result<Img2sdatArgs, ArgError>)
    ensures
        match r {
            Ok(a) => a.image is Some && img2sdat_from(strings_view(args@), 0, img2sdat_default())
                == Ok::<Img2sdatView, ArgError>(a@),
            Err(e) => img2sdat_from(strings_view(args@), 0, img2sdat_default()) == Err::<
                Img2sdatView,
                ArgError,
            >(e),
        },
{
    let ghost all = strings_view(args@);
    let ghost want = img2sdat_from(all, 0, img2sdat_default());
    let mut o: Img2sdatArgs = Img2sdatArgs {
        image: None,
        out_dir: ".".to_string(),
        version: 4,
        prefix: "system".to_string(),
        brotli: None,
    };
    let n: usize = args.len();
    let mut i: usize = 0;
    while i < n
        invariant
            i <= n,
            n == args@.len(),
            all == strings_view(args@),
            want == img2sdat_from(all, 0, img2sdat_default()),
            img2sdat_from(all, i as int, o@) == want,
        decreases n - i,
    {
        let arg: &str = args[i].as_str();
        assert(arg@ == all[i as int]);
        let is_dir: bool = one_of(arg, "-o", "--outdir");
        let is_version: bool = one_of(arg, "-v", "--version");
        let is_prefix: bool = one_of(arg, "-p", "--prefix");
        let is_brotli: bool = one_of(arg, "-b", "--brotli");
        if is_dir || is_version || is_prefix || is_brotli {
            if i + 1 >= n {
                return Err(ArgError::NeedsValue(i));
            }
            if is_dir {
                o.out_dir = text(args, i + 1);
            } else if is_prefix {
                o.prefix = text(args, i + 1);
            } else {
                match parse_small(args[i + 1].as_str()) {
                    None => {
                        return Err(ArgError::BadValue(i));
                    },
                    Some(x) => {
                        if is_version {
                            o.version = x;
                        } else {
                            o.brotli = Some(x);
                        }
                    },
                }
            }
            i += 2;
        } else if o.image.is_none() && !dashed(arg) {
            o.image = Some(text(args, i));
            i += 1;
        } else {
            return Err(ArgError::Unexpected(i));
        }
    }
    if o.image.is_none() {
        return Err(ArgError::Usage);
    }
    Ok(o)
}

/// The arguments of `brotli` as they are read.
#[derive(Debug, Clone)]
pub struct BrotliArgs {
    pub decompress: bool,
    pub remove_input: bool,
    pub force: bool,
    pub quality: u32,
    pub lgwin: u32,
    pub input: Option<String>,
    pub output: Option<String>,
}

pub struct BrotliView {
    pub decompress: bool,
    pub remove_input: bool,
    pub force: bool,
    pub quality: u32,
    pub lgwin: u32,
    pub input: Option<Seq<char>>,
    pub output: Option<Seq<char>>,
}

impl View for BrotliArgs {
    type V = BrotliView;

    open spec fn view(&self) -> BrotliView {
        BrotliView {
            decompress: self.decompress,
            remove_input: self.remove_input,
            force: self.force,
            quality: self.quality,
            lgwin: self.lgwin,
            input: text_view(self.input),
            output: text_view(self.output),
        }
    }
}

/// A quality as an option, like `-5`.
pub open spec fn dash_number(arg: Seq<char>) -> Option<u32> {
    if arg.len() > 1 && arg[0] == '-' {
        small_in(arg.skip(1))
    } else {
        None
    }
}

fn parse_dash(arg: &str) -> (r: Option<u32>)
    ensures
        r == dash_number(arg@),
{
    let c: Vec<char> = chars_of(arg);
    if c.len() > 1 && c[0] == '-' {
        let d: Vec<char> = part(&c, 1, c.len());
        assert(d@ =~= arg@.skip(1));
        parse_small(string_of(&d).as_str())
    } else {
        None
    }
}

/// Where the output goes: where it was asked for, else beside the input, with
/// `.br` added to its name or taken off.
pub open spec fn brotli_output(o: BrotliView) -> Option<Seq<char>> {
    match o.output {
        Some(p) => Some(p),
        None => if !o.decompress {
            Some(o.input->Some_0 + ".br"@)
        } else if has_suffix(o.input->Some_0, ".br"@) {
            Some(o.input->Some_0.take(o.input->Some_0.len() - ".br"@.len()))
        } else {
            None
        },
    }
}

/// The arguments from `i` on, after those before were read as `o`.
pub open spec fn brotli_from(args: Seq<Seq<char>>, i: int, o: BrotliView) -> Result<
    BrotliView,
    ArgError,
>
    decreases args.len() - i,
{
    if i >= args.len() {
        if o.input is None {
            Err(ArgError::Usage)
        } else {
            match brotli_output(o) {
                Some(p) => Ok(BrotliView { output: Some(p), ..o }),
                None => Err(ArgError::NoExtension),
            }
        }
    } else if is_one(args[i], "-d"@, "--decompress"@) {
        brotli_from(args, i + 1, BrotliView { decompress: true, ..o })
    } else if is_one(args[i], "-j"@, "--rm"@) {
        brotli_from(args, i + 1, BrotliView { remove_input: true, ..o })
    } else if is_one(args[i], "-f"@, "--force"@) {
        brotli_from(args, i + 1, BrotliView { force: true, ..o })
    } else if is_one(args[i], "-q"@, "--quality"@) || is_one(args[i], "-w"@, "--lgwin"@) || is_one(
        args[i],
        "-o"@,
        "--output"@,
    ) {
        if i + 1 >= args.len() {
            Err(ArgError::NeedsValue(i as usize))
        } else if is_one(args[i], "-o"@, "--output"@) {
            brotli_from(args, i + 2, BrotliView { output: Some(args[i + 1]), ..o })
        } else {
            match small_in(args[i + 1]) {
                None => Err(ArgError::BadValue(i as usize)),
                Some(n) => if is_one(args[i], "-q"@, "--quality"@) {
                    brotli_from(args, i + 2, BrotliView { quality: n, ..o })
                } else {
                    brotli_from(args, i + 2, BrotliView { lgwin: n, ..o })
                },
            }
        }
    } else if dash_number(args[i]) is Some {
        brotli_from(args, i + 1, BrotliView { quality: dash_number(args[i])->Some_0, ..o })
    } else if o.input is None && !is_option(args[i]) {
        brotli_from(args, i + 1, BrotliView { input: Some(args[i]), ..o })
    } else {
        Err(ArgError::Unexpected(i as usize))
    }
}

pub open spec fn brotli_default() -> BrotliView {
    BrotliView {
        decompress: false,
        remove_input: false,
        force: false,
        quality: DEFAULT_QUALITY,
        lgwin: DEFAULT_LGWIN,
        input: None,
        output: None,
    }
}

fn name_output(o: &BrotliArgs, input: &str) -> (r: Option<String>)
    requires
        o@.input == Some(input@),
    ensures
        text_view(r) == brotli_output(o@),
{
    match &o.output {
        Some(p) => Some(p.as_str().to_string()),
        None => {
            if !o.decompress {
                let mut s: String = input.to_string();
                s.append(".br");
                return Some(s);
            }
            let c: Vec<char> = chars_of(input);
            let end: Vec<char> = chars_of(".br");
            if ends(&c, &end) {
                let stem: Vec<char> = part(&c, 0, c.len() - end.len());
                assert(stem@ =~= input@.take(input@.len() - end@.len()));
                Some(string_of(&stem))
            } else {
                None
            }
        },
    }
}

/// The arguments of `brotli`; there is an input and an output.
pub fn brotli_args(args: &[String]) -> (r: Result<BrotliArgs, ArgError>)
    ensures
        match r {
            Ok(a) => a.input is Some && a.output is Some && brotli_from(
                strings_view(args@),
                0,
                brotli_default(),
            ) == Ok::<BrotliView, ArgError>(a@),
            Err(e) => brotli_from(strings_view(args@), 0, brotli_default()) == Err::<
                BrotliView,
                ArgError,
            >(e),
        },
{
    let ghost all = strings_view(args@);
    let ghost want = brotli_from(all, 0, brotli_default());
    let mut o: BrotliArgs = BrotliArgs {
        decompress: false,
        remove_input: false,
        force: false,
        quality: DEFAULT_QUALITY,
        lgwin: DEFAULT_LGWIN,
        input: None,
        output: None,
    };
    let n: usize = args.len();
    let mut i: usize = 0;
    while i < n
        invariant
            i <= n,
            n == args@.len(),
            all == strings_view(args@),
            want == brotli_from(all, 0, brotli_default()),
            brotli_from(all, i as int, o@) == want,
        decreases n - i,
    {
        let arg: &str = args[i].as_str();
        assert(arg@ == all[i as int]);
        if one_of(arg, "-d", "--decompress") {
            o.decompress = true;
            i += 1;
        } else if one_of(arg, "-j", "--rm") {
            o.remove_input = true;
            i += 1;
        } else if one_of(arg, "-f", "--force") {
            o.force = true;
            i += 1;
        } else {
            let is_quality: bool = one_of(arg, "-q", "--quality");
            let is_window: bool = one_of(arg, "-w", "--lgwin");
            let is_output: bool = one_of(arg, "-o", "--output");
            if is_quality || is_window || is_output {
                if i + 1 >= n {
                    return Err(ArgError::NeedsValue(i));
                }
                if is_output {
                    o.output = Some(text(args, i + 1));
                } else {
                    match parse_small(args[i + 1].as_str()) {
                        None => {
                            return Err(ArgError::BadValue(i));
                        },
                        Some(x) => {
                            if is_quality {
                                o.quality = x;
                            } else {
                                o.lgwin = x;
                            }
                        },
                    }
                }
                i += 2;
            } else {
                // -0 .. -11, like the brotli command
                match parse_dash(arg) {
                    Some(q) => {
                        o.quality = q;
                    },
                    None => {
                        if o.input.is_none() && !dashed(arg) {
                            o.input = Some(text(args, i));
                        } else {
                            return Err(ArgError::Unexpected(i));
                        }
                    },
                }
                i += 1;
            }
        }
    }
    let input: String = match &o.input {
        Some(p) => p.as_str().to_string(),
        None => {
            return Err(ArgError::Usage);
        },
    };
    match name_output(&o, input.as_str()) {
        Some(p) => {
            o.output = Some(p);
            Ok(o)
        },
        None => Err(ArgError::NoExtension),
    }
}

/// The arguments of `extract` as they are read.
#[derive(Debug, Clone)]
pub struct ExtractArgs {
    pub image: Option<String>,
    pub out_dir: String,
    pub part: Option<String>,
}

pub struct ExtractView {
    pub image: Option<Seq<char>>,
    pub out_dir: Seq<char>,
    pub part: Option<Seq<char>>,
}

impl View for ExtractArgs {
    type V = ExtractView;

    open spec fn view(&self) -> ExtractView {
        ExtractView {
            image: text_view(self.image),
            out_dir: self.out_dir@,
            part: text_view(self.part),
        }
    }
}

/// The arguments from `i` on, after those before were read as `o`.
pub open spec fn extract_from(args: Seq<Seq<char>>, i: int, o: ExtractView) -> Result<
    ExtractView,
    ArgError,
>
    decreases args.len() - i,
{
    if i >= args.len() {
        if o.image is None {
            Err(ArgError::Usage)
        } else {
            Ok(o)
        }
    } else if is_one(args[i], "-o"@, "--outdir"@) || is_one(args[i], "-p"@, "--part"@) {
        if i + 1 >= args.len() {
            Err(ArgError::NeedsValue(i as usize))
        } else if is_one(args[i], "-o"@, "--outdir"@) {
            extract_from(args, i + 2, ExtractView { out_dir: args[i + 1], ..o })
        } else {
            extract_from(args, i + 2, ExtractView { part: Some(args[i + 1]), ..o })
        }
    } else if o.image is None && !is_option(args[i]) {
        extract_from(args, i + 1, ExtractView { image: Some(args[i]), ..o })
    } else {
        Err(ArgError::Unexpected(i as usize))
    }
}

pub open spec fn extract_default() -> ExtractView {
    ExtractView { image: None, out_dir: "."@, part: None }
}

/// The arguments of `extract`; there is an image.
pub fn extract_args(args: &[String]) -> (r: Result<ExtractArgs, ArgError>)
    ensures
        match r {
            Ok(a) => a.image is Some && extract_from(strings_view(args@), 0, extract_default()) == Ok::<
                ExtractView,
                ArgError,
            >(a@),
            Err(e) => extract_from(strings_view(args@), 0, extract_default()) == Err::<
                ExtractView,
                ArgError,
            >(e),
        },
{
    let ghost all = strings_view(args@);
    let ghost want = extract_from(all, 0, extract_default());
    let mut o: ExtractArgs = ExtractArgs { image: None, out_dir: ".".to_string(), part: None };
    let n: usize = args.len();
    let mut i: usize = 0;
    while i < n
        invariant
            i <= n,
            n == args@.len(),
            all == strings_view(args@),
            want == extract_from(all, 0, extract_default()),
            extract_from(all, i as int, o@) == want,
        decreases n - i,
    {
        let arg: &str = args[i].as_str();
        assert(arg@ == all[i as int]);
        let is_dir: bool = one_of(arg, "-o", "--outdir");
        if is_dir || one_of(arg, "-p", "--part") {
            if i + 1 >= n {
                return Err(ArgError::NeedsValue(i));
            }
            if is_dir {
                o.out_dir = text(args, i + 1);
            } else {
                o.part = Some(text(args, i + 1));
            }
            i += 2;
        } else if o.image.is_none() && !dashed(arg) {
            o.image = Some(text(args, i));
            i += 1;
        } else {
            return Err(ArgError::Unexpected(i));
        }
    }
    if o.image.is_none() {
        return Err(ArgError::Usage);
    }
    Ok(o)
}

/// The arguments of `build`.
#[derive(Debug, Clone)]
pub struct BuildArgs {
    pub work: String,
    pub part: String,
    pub output: String,
    pub size: Size,
    pub force: bool,
}

pub struct BuildView {
    pub work: Seq<char>,
    pub part: Seq<char>,
    pub output: Seq<char>,
    pub size: Size,
    pub force: bool,
}

impl View for BuildArgs {
    type V = BuildView;

    open spec fn view(&self) -> BuildView {
        BuildView {
            work: self.work@,
            part: self.part@,
            output: self.output@,
            size: self.size,
            force: self.force,
        }
    }
}

/// The arguments of `build` as they are read.
pub struct BuildRead {
    pub names: Seq<Seq<char>>,
    pub output: Option<Seq<char>>,
    pub size: Size,
    pub force: bool,
}

/// The arguments from `i` on, after those before were read as `o`.
pub open spec fn build_from(args: Seq<Seq<char>>, i: int, o: BuildRead) -> Result<
    BuildView,
    ArgError,
>
    decreases args.len() - i,
{
    if i >= args.len() {
        if o.names.len() != 2 {
            Err(ArgError::Usage)
        } else {
            Ok(
                BuildView {
                    work: o.names[0],
                    part: o.names[1],
                    output: match o.output {
                        Some(p) => p,
                        None => path_in(o.names[0], o.names[1] + ".img"@),
                    },
                    size: o.size,
                    force: o.force,
                },
            )
        }
    } else if is_one(args[i], "-o"@, "--output"@) || is_one(args[i], "-s"@, "--size"@) {
        if i + 1 >= args.len() {
            Err(ArgError::NeedsValue(i as usize))
        } else if is_one(args[i], "-o"@, "--output"@) {
            build_from(args, i + 2, BuildRead { output: Some(args[i + 1]), ..o })
        } else {
            match size_in(args[i + 1]) {
                Ok(size) => build_from(args, i + 2, BuildRead { size, ..o }),
                Err(_) => Err(ArgError::BadValue(i as usize)),
            }
        }
    } else if is_one(args[i], "-f"@, "--force"@) {
        build_from(args, i + 1, BuildRead { force: true, ..o })
    } else if !is_option(args[i]) {
        build_from(args, i + 1, BuildRead { names: o.names.push(args[i]), ..o })
    } else {
        Err(ArgError::Unexpected(i as usize))
    }
}

pub open spec fn build_default() -> BuildRead {
    BuildRead { names: Seq::empty(), output: None, size: Size::Original, force: false }
}

pub open spec fn build_view(r: Result<BuildArgs, ArgError>) -> Result<BuildView, ArgError> {
    match r {
        Ok(a) => Ok(a@),
        Err(e) => Err(e),
    }
}

/// The arguments of `build`: a folder and a partition.
pub fn build_args(args: &[String]) -> (r: Result<BuildArgs, ArgError>)
    ensures
        build_view(r) == build_from(strings_view(args@), 0, build_default()),
{
    let ghost all = strings_view(args@);
    let ghost want = build_from(all, 0, build_default());
    let mut names: Vec<String> = Vec::new();
    let mut output: Option<String> = None;
    let mut size: Size = Size::Original;
    let mut force: bool = false;
    let n: usize = args.len();
    let mut i: usize = 0;
    assert(strings_view(names@) =~= Seq::<Seq<char>>::empty());
    while i < n
        invariant
            i <= n,
            n == args@.len(),
            all == strings_view(args@),
            want == build_from(all, 0, build_default()),
            build_from(
                all,
                i as int,
                BuildRead {
                    names: strings_view(names@),
                    output: text_view(output),
                    size,
                    force,
                },
            ) == want,
        decreases n - i,
    {
        let arg: &str = args[i].as_str();
        assert(arg@ == all[i as int]);
        let is_output: bool = one_of(arg, "-o", "--output");
        if is_output || one_of(arg, "-s", "--size") {
            if i + 1 >= n {
                return Err(ArgError::NeedsValue(i));
            }
            if is_output {
                output = Some(text(args, i + 1));
            } else {
                match Size::parse(args[i + 1].as_str()) {
                    Ok(s) => {
                        size = s;
                    },
                    Err(_) => {
                        return Err(ArgError::BadValue(i));
                    },
                }
            }
            i += 2;
        } else if one_of(arg, "-f", "--force") {
            force = true;
            i += 1;
        } else if !dashed(arg) {
            let ghost was = names@;
            names.push(text(args, i));
            assert(strings_view(names@) =~= strings_view(was).push(all[i as int]));
            i += 1;
        } else {
            return Err(ArgError::Unexpected(i));
        }
    }
    if names.len() != 2 {
        return Err(ArgError::Usage);
    }
    let work: String = text(&names, 0);
    let part: String = text(&names, 1);
    let output: String = match output {
        Some(p) => p,
        None => {
            let mut image: String = part.as_str().to_string();
            image.append(".img");
            join_path(work.as_str(), image.as_str())
        },
    };
    Ok(BuildArgs { work, part, output, size, force })
}

/// The work folder and the other arguments, from `i` on.
pub open spec fn workdir_from(
    args: Seq<Seq<char>>,
    i: int,
    work: Seq<char>,
    rest: Seq<Seq<char>>,
) -> Result<(Seq<char>, Seq<Seq<char>>), ArgError>
    decreases args.len() - i,
{
    if i >= args.len() {
        Ok((work, rest))
    } else if is_one(args[i], "-w"@, "--workdir"@) {
        if i + 1 >= args.len() {
            Err(ArgError::NeedsValue(i as usize))
        } else {
            workdir_from(args, i + 2, args[i + 1], rest)
        }
    } else {
        workdir_from(args, i + 1, work, rest.push(args[i]))
    }
}

/// The work folder and the other arguments. The default is the folder that
/// the program is run in.
pub open spec fn workdir_in(args: Seq<Seq<char>>) -> Result<(Seq<char>, Seq<Seq<char>>), ArgError> {
    workdir_from(args, 0, "."@, Seq::empty())
}

pub open spec fn workdir_view(r: Result<(String, Vec<String>), ArgError>) -> Result<
    (Seq<char>, Seq<Seq<char>>),
    ArgError,
> {
    match r {
        Ok((work, rest)) => Ok((work@, strings_view(rest@))),
        Err(e) => Err(e),
    }
}

/// Splits `-w/--workdir` off the arguments.
pub fn workdir(args: &[String]) -> (r: Result<(String, Vec<String>), ArgError>)
    ensures
        workdir_view(r) == workdir_in(strings_view(args@)),
{
    let ghost all = strings_view(args@);
    let ghost want = workdir_in(all);
    let mut work: String = ".".to_string();
    let mut rest: Vec<String> = Vec::new();
    let n: usize = args.len();
    let mut i: usize = 0;
    assert(strings_view(rest@) =~= Seq::<Seq<char>>::empty());
    while i < n
        invariant
            i <= n,
            n == args@.len(),
            all == strings_view(args@),
            want == workdir_in(all),
            workdir_from(all, i as int, work@, strings_view(rest@)) == want,
        decreases n - i,
    {
        let arg: &str = args[i].as_str();
        assert(arg@ == all[i as int]);
        if one_of(arg, "-w", "--workdir") {
            if i + 1 >= n {
                return Err(ArgError::NeedsValue(i));
            }
            work = text(args, i + 1);
            i += 2;
        } else {
            let ghost was = rest@;
            rest.push(text(args, i));
            assert(strings_view(rest@) =~= strings_view(was).push(all[i as int]));
            i += 1;
        }
    }
    Ok((work, rest))
}

/// The ROM zip to unpack, where the arguments beside the work folder name one.
pub fn unpack_args(rest: &[String]) -> (r: Result<Option<String>, ArgError>)
    ensures
        ({
            let all = strings_view(rest@);
            match r {
                Ok(None) => all.len() == 0,
                Ok(Some(zip)) => all.len() == 1 && !is_option(all[0]) && zip@ == all[0],
                Err(e) => e == ArgError::Usage && (all.len() > 1 || (all.len() == 1 && is_option(
                    all[0],
                ))),
            }
        }),
{
    if rest.len() == 0 {
        return Ok(None);
    }
    if rest.len() == 1 && !dashed(rest[0].as_str()) {
        return Ok(Some(text(rest, 0)));
    }
    Err(ArgError::Usage)
}

/// The output and the options of `repack` from argument `i` on.
pub open spec fn repack_from(
    args: Seq<Seq<char>>,
    i: int,
    output: Option<Seq<char>>,
    opts: RepackOptions,
) -> Result<(Option<Seq<char>>, RepackOptions), ArgError>
    decreases args.len() - i,
{
    if i >= args.len() {
        Ok((output, opts))
    } else if is_one(args[i], "-o"@, "--output"@) || is_one(args[i], "-b"@, "--brotli"@) || is_one(
        args[i],
        "-z"@,
        "--zip-level"@,
    ) {
        if i + 1 >= args.len() {
            Err(ArgError::NeedsValue(i as usize))
        } else if is_one(args[i], "-o"@, "--output"@) {
            repack_from(args, i + 2, Some(args[i + 1]), opts)
        } else if is_one(args[i], "-b"@, "--brotli"@) {
            match small_in(args[i + 1]) {
                Some(q) => repack_from(
                    args,
                    i + 2,
                    output,
                    RepackOptions { brotli_quality: q, ..opts },
                ),
                None => Err(ArgError::Usage),
            }
        } else {
            match signed_in(args[i + 1]) {
                Some(z) => repack_from(
                    args,
                    i + 2,
                    output,
                    RepackOptions { zip_level: z as i64, ..opts },
                ),
                None => Err(ArgError::Usage),
            }
        }
    } else {
        Err(ArgError::Unexpected(i as usize))
    }
}

pub open spec fn repack_view(r: Result<(Option<String>, RepackOptions), ArgError>) -> Result<
    (Option<Seq<char>>, RepackOptions),
    ArgError,
> {
    match r {
        Ok((output, opts)) => Ok((text_view(output), opts)),
        Err(e) => Err(e),
    }
}

/// The output and the options of `repack`, by the arguments beside the work
/// folder. They win over the given options.
pub fn repack_args(rest: &[String], given: RepackOptions) -> (r: Result<
    (Option<String>, RepackOptions),
    ArgError,
>)
    ensures
        repack_view(r) == repack_from(strings_view(rest@), 0, None, given),
{
    let ghost all = strings_view(rest@);
    let ghost want = repack_from(all, 0, None, given);
    let mut output: Option<String> = None;
    let mut opts: RepackOptions = given;
    let n: usize = rest.len();
    let mut i: usize = 0;
    while i < n
        invariant
            i <= n,
            n == rest@.len(),
            all == strings_view(rest@),
            want == repack_from(all, 0, None, given),
            repack_from(all, i as int, text_view(output), opts) == want,
        decreases n - i,
    {
        let arg: &str = rest[i].as_str();
        assert(arg@ == all[i as int]);
        let is_output: bool = one_of(arg, "-o", "--output");
        let is_brotli: bool = one_of(arg, "-b", "--brotli");
        if is_output || is_brotli || one_of(arg, "-z", "--zip-level") {
            if i + 1 >= n {
                return Err(ArgError::NeedsValue(i));
            }
            if is_output {
                output = Some(text(rest, i + 1));
            } else if is_brotli {
                match parse_small(rest[i + 1].as_str()) {
                    Some(q) => {
                        opts = RepackOptions { brotli_quality: q, ..opts };
                    },
                    None => {
                        return Err(ArgError::Usage);
                    },
                }
            } else {
                match parse_signed(&chars_of(rest[i + 1].as_str())) {
                    Some(z) => {
                        opts = RepackOptions { zip_level: z, ..opts };
                    },
                    None => {
                        return Err(ArgError::Usage);
                    },
                }
            }
            i += 2;
        } else {
            return Err(ArgError::Unexpected(i));
        }
    }
    Ok((output, opts))
}

/// `init` takes no arguments beside the work folder.
pub fn init_args(rest: &[String]) -> (r: Result<(), ArgError>)
    ensures
        r == if rest@.len() == 0 {
            Ok::<(), ArgError>(())
        } else {
            Err::<(), ArgError>(ArgError::Usage)
        },
{
    if rest.len() == 0 {
        Ok(())
    } else {
        Err(ArgError::Usage)
    }
}

/// Whether `cleanup` removes the output too, by the arguments beside the work
/// folder.
pub fn cleanup_args(rest: &[String]) -> (r: Result<bool, ArgError>)
    ensures
        ({
            let all = strings_view(rest@);
            r == if all.len() == 0 {
                Ok::<bool, ArgError>(false)
            } else if all.len() == 1 && all[0] == "--all"@ {
                Ok::<bool, ArgError>(true)
            } else {
                Err::<bool, ArgError>(ArgError::Usage)
            }
        }),
{
    if rest.len() == 0 {
        return Ok(false);
    }
    if rest.len() == 1 && same_text(rest[0].as_str(), "--all") {
        return Ok(true);
    }
    Err(ArgError::Usage)
}

} // verus!
