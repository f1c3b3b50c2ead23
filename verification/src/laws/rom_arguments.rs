//! What the arguments of the commands on a ROM are read as, and which command
//! an argument names.
use vstd::prelude::*;
use crate::cli::{command_for, is_one, repack_from, small_in, workdir_from, workdir_in, ArgError,
    Command};
use crate::laws::texts::decimal_reads_back;
use crate::rom::config::RepackOptions;
use crate::text::decimal;
use crate::words::{number, signed_in};

verus! {

proof fn lemma_workdir_names()
    ensures
        "-w"@.len() == 2 && "-w"@[1] == 'w',
        "--workdir"@.len() == 9 && "--workdir"@[1] == '-',
{
    reveal_strlit("-w");
    reveal_strlit("--workdir");
}

proof fn lemma_workdir_front(
    a: Seq<Seq<char>>,
    more: Seq<Seq<char>>,
    i: int,
    work: Seq<char>,
    rest: Seq<Seq<char>>,
)
    requires
        0 <= i <= a.len(),
        workdir_from(a, i, work, rest) is Ok,
    ensures
        workdir_from(a + more, i, work, rest) == workdir_from(
            a + more,
            a.len() as int,
            workdir_from(a, i, work, rest)->Ok_0.0,
            workdir_from(a, i, work, rest)->Ok_0.1,
        ),
    decreases a.len() - i,
{
    if i < a.len() {
        assert((a + more)[i] == a[i]);
        if is_one(a[i], "-w"@, "--workdir"@) {
            assert((a + more)[i + 1] == a[i + 1]);
            lemma_workdir_front(a, more, i + 2, a[i + 1], rest);
        } else {
            lemma_workdir_front(a, more, i + 1, work, rest.push(a[i]));
        }
    }
}

/// The last `-w` or `--workdir` names the work folder, which is `.` where there
/// is none. All other arguments stay, in their order. An option without a
/// folder is refused.
pub proof fn workdir_is_split_off(args: Seq<Seq<char>>, name: Seq<char>, dir: Seq<char>,
    other: Seq<char>)
    requires
        workdir_in(args) is Ok,
        name == "-w"@ || name == "--workdir"@,
        other != "-w"@,
        other != "--workdir"@,
    ensures
        workdir_in(Seq::empty()) == Ok::<(Seq<char>, Seq<Seq<char>>), ArgError>(
            ("."@, Seq::empty()),
        ),
        workdir_in(args + seq![name, dir]) == Ok::<(Seq<char>, Seq<Seq<char>>), ArgError>(
            (dir, workdir_in(args)->Ok_0.1),
        ),
        workdir_in(args + seq![other]) == Ok::<(Seq<char>, Seq<Seq<char>>), ArgError>(
            (workdir_in(args)->Ok_0.0, workdir_in(args)->Ok_0.1.push(other)),
        ),
        workdir_in(args + seq![name]) == Err::<(Seq<char>, Seq<Seq<char>>), ArgError>(
            ArgError::NeedsValue(args.len() as usize),
        ),
{
    lemma_workdir_names();
    let n = args.len() as int;
    reveal_with_fuel(workdir_from, 2);
    lemma_workdir_front(args, seq![name, dir], 0, "."@, Seq::empty());
    lemma_workdir_front(args, seq![other], 0, "."@, Seq::empty());
    lemma_workdir_front(args, seq![name], 0, "."@, Seq::empty());
    assert((args + seq![name, dir])[n] == name && (args + seq![name, dir])[n + 1] == dir);
    assert((args + seq![other])[n] == other);
    assert((args + seq![name])[n] == name);
}

proof fn lemma_repack_names()
    ensures
        "-o"@.len() == 2 && "-o"@[1] == 'o',
        "--output"@.len() == 8 && "--output"@[1] == '-' && "--output"@[2] == 'o',
        "-b"@.len() == 2 && "-b"@[1] == 'b',
        "--brotli"@.len() == 8 && "--brotli"@[1] == '-' && "--brotli"@[2] == 'b',
        "-z"@.len() == 2 && "-z"@[1] == 'z',
        "--zip-level"@.len() == 11 && "--zip-level"@[1] == '-' && "--zip-level"@[2] == 'z',
{
    reveal_strlit("-o");
    reveal_strlit("--output");
    reveal_strlit("-b");
    reveal_strlit("--brotli");
    reveal_strlit("-z");
    reveal_strlit("--zip-level");
}

proof fn lemma_repack_front(
    a: Seq<Seq<char>>,
    more: Seq<Seq<char>>,
    i: int,
    output: Option<Seq<char>>,
    opts: RepackOptions,
)
    requires
        0 <= i <= a.len(),
        repack_from(a, i, output, opts) is Ok,
    ensures
        repack_from(a + more, i, output, opts) == repack_from(
            a + more,
            a.len() as int,
            repack_from(a, i, output, opts)->Ok_0.0,
            repack_from(a, i, output, opts)->Ok_0.1,
        ),
    decreases a.len() - i,
{
    if i < a.len() {
        assert((a + more)[i] == a[i]);
        assert((a + more)[i + 1] == a[i + 1]);
        if is_one(a[i], "-o"@, "--output"@) {
            lemma_repack_front(a, more, i + 2, Some(a[i + 1]), opts);
        } else if is_one(a[i], "-b"@, "--brotli"@) {
            let q = small_in(a[i + 1])->Some_0;
            lemma_repack_front(
                a,
                more,
                i + 2,
                output,
                RepackOptions { brotli_quality: q, ..opts },
            );
        } else {
            let z = signed_in(a[i + 1])->Some_0;
            lemma_repack_front(
                a,
                more,
                i + 2,
                output,
                RepackOptions { zip_level: z as i64, ..opts },
            );
        }
    }
}

/// The decimal text of a number, with a dash in front where it is negative.
pub open spec fn signed_text(n: int) -> Seq<char> {
    if n < 0 {
        seq!['-'] + decimal((-n) as nat)
    } else {
        decimal(n as nat)
    }
}

/// The text of a number reads back as that number.
pub proof fn signed_reads_back(n: i64)
    ensures
        signed_in(signed_text(n as int)) == Some(n as int),
{
    if n < 0 {
        let d = decimal((-n) as nat);
        decimal_reads_back((-n) as nat);
        let s = signed_text(n as int);
        assert(s.skip(1) =~= d);
        assert(d[0] != '+');
    } else {
        decimal_reads_back(n as nat);
    }
}

/// Without arguments nothing is named and the given options stay. Each option
/// sets what it names and nothing else, the last one of a kind wins, and
/// anything else is refused.
pub proof fn repack_options_are_read(
    args: Seq<Seq<char>>,
    given: RepackOptions,
    name: Seq<char>,
    value: Seq<char>,
    q: u32,
    z: i64,
)
    requires
        repack_from(args, 0, None, given) is Ok,
    ensures
        ({
            let (output, opts) = repack_from(args, 0, None, given)->Ok_0;
            let n = args.len() as usize;
            &&& repack_from(Seq::empty(), 0, None, given) == Ok::<
                (Option<Seq<char>>, RepackOptions),
                ArgError,
            >((None, given))
            &&& name == "-o"@ || name == "--output"@ ==> repack_from(
                args + seq![name, value],
                0,
                None,
                given,
            ) == Ok::<(Option<Seq<char>>, RepackOptions), ArgError>((Some(value), opts))
            &&& name == "-b"@ || name == "--brotli"@ ==> repack_from(
                args + seq![name, decimal(q as nat)],
                0,
                None,
                given,
            ) == Ok::<(Option<Seq<char>>, RepackOptions), ArgError>(
                (output, RepackOptions { brotli_quality: q, zip_level: opts.zip_level }),
            )
            &&& name == "-z"@ || name == "--zip-level"@ ==> repack_from(
                args + seq![name, signed_text(z as int)],
                0,
                None,
                given,
            ) == Ok::<(Option<Seq<char>>, RepackOptions), ArgError>(
                (output, RepackOptions { brotli_quality: opts.brotli_quality, zip_level: z }),
            )
            &&& (name == "-b"@ || name == "--brotli"@) && (number(value, 10) is None || number(
                value,
                10,
            )->Some_0 > u32::MAX) ==> repack_from(args + seq![name, value], 0, None, given)
                == Err::<
                (Option<Seq<char>>, RepackOptions),
                ArgError,
            >(ArgError::Usage)
            &&& repack_from(args + seq![name], 0, None, given) == Err::<
                (Option<Seq<char>>, RepackOptions),
                ArgError,
            >(
                if name == "-o"@ || name == "--output"@ || name == "-b"@ || name == "--brotli"@
                    || name == "-z"@ || name == "--zip-level"@ {
                    ArgError::NeedsValue(n)
                } else {
                    ArgError::Unexpected(n)
                },
            )
        }),
{
    lemma_repack_names();
    decimal_reads_back(q as nat);
    signed_reads_back(z);
    reveal_with_fuel(repack_from, 2);
    let n = args.len() as int;
    let d = decimal(q as nat);
    let s = signed_text(z as int);
    lemma_repack_front(args, seq![name, value], 0, None, given);
    lemma_repack_front(args, seq![name, d], 0, None, given);
    lemma_repack_front(args, seq![name, s], 0, None, given);
    lemma_repack_front(args, seq![name], 0, None, given);
    assert((args + seq![name, value])[n] == name && (args + seq![name, value])[n + 1] == value);
    assert((args + seq![name, d])[n] == name && (args + seq![name, d])[n + 1] == d);
    assert((args + seq![name, s])[n] == name && (args + seq![name, s])[n + 1] == s);
    assert((args + seq![name])[n] == name);
}

/// The name of each command, and what else names the version and the help.
pub open spec fn command_names() -> Seq<(Seq<char>, Command)> {
    seq![
        ("init"@, Command::Init),
        ("unpack"@, Command::Unpack),
        ("repack"@, Command::Repack),
        ("cleanup"@, Command::Cleanup),
        ("sdat2img"@, Command::Sdat2img),
        ("img2sdat"@, Command::Img2sdat),
        ("brotli"@, Command::Brotli),
        ("extract"@, Command::Extract),
        ("build"@, Command::Build),
        ("version"@, Command::Version),
        ("--version"@, Command::Version),
        ("-V"@, Command::Version),
        ("help"@, Command::Help),
        ("--help"@, Command::Help),
        ("-h"@, Command::Help),
    ]
}

/// Every command has its name, and nothing else names one.
pub proof fn commands_have_names(arg: Seq<char>, i: int)
    ensures
        0 <= i < command_names().len() && arg == command_names()[i].0 ==> command_for(arg)
            == command_names()[i].1,
        (forall|k: int| 0 <= k < command_names().len() ==> arg != (#[trigger] command_names()[k]).0)
            ==> command_for(arg) == Command::Unknown,
{
    let t = command_names();
    reveal_strlit("init");
    reveal_strlit("unpack");
    reveal_strlit("repack");
    reveal_strlit("cleanup");
    reveal_strlit("sdat2img");
    reveal_strlit("img2sdat");
    reveal_strlit("brotli");
    reveal_strlit("extract");
    reveal_strlit("build");
    reveal_strlit("version");
    reveal_strlit("--version");
    reveal_strlit("-V");
    reveal_strlit("help");
    reveal_strlit("--help");
    reveal_strlit("-h");
    assert("init"@[0] == 'i' && "init"@.len() == 4);
    assert("unpack"@[0] == 'u' && "repack"@[0] == 'r' && "cleanup"@[0] == 'c');
    assert("sdat2img"@[0] == 's' && "img2sdat"@[0] == 'i' && "img2sdat"@.len() == 8);
    assert("brotli"@[0] == 'b' && "brotli"@.len() == 6 && "build"@[0] == 'b' && "build"@.len()
        == 5);
    assert("extract"@[0] == 'e' && "version"@[0] == 'v' && "help"@[0] == 'h');
    assert("--version"@[0] == '-' && "--version"@.len() == 9 && "--help"@.len() == 6);
    assert("-V"@.len() == 2 && "-V"@[1] == 'V' && "-h"@.len() == 2 && "-h"@[1] == 'h');
    assert("--help"@[0] == '-' && "-V"@[0] == '-' && "-h"@[0] == '-');
    assert(t[0].0 == "init"@ && t[1].0 == "unpack"@ && t[2].0 == "repack"@ && t[3].0 == "cleanup"@);
    assert(t[4].0 == "sdat2img"@ && t[5].0 == "img2sdat"@ && t[6].0 == "brotli"@);
    assert(t[7].0 == "extract"@ && t[8].0 == "build"@ && t[9].0 == "version"@);
    assert(t[10].0 == "--version"@ && t[11].0 == "-V"@ && t[12].0 == "help"@);
    assert(t[13].0 == "--help"@ && t[14].0 == "-h"@);
}

} // verus!
