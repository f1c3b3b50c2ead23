//! What the arguments of `build` are read as.
use vstd::prelude::*;
use crate::build::{size_in, Size};
use crate::cli::{build_default, build_from, is_one, is_option, ArgError, BuildRead, BuildView};
use crate::error::Error;
use crate::words::path_in;

verus! {

/// What is read where nothing is wrong.
pub open spec fn build_ok(r: Result<BuildView, ArgError>) -> Option<BuildView> {
    match r {
        Ok(a) => Some(a),
        Err(_) => None,
    }
}

/// Arguments that no option without its value ends, and with nothing wrong so
/// far.
pub open spec fn build_whole(r: Result<BuildView, ArgError>) -> bool {
    match r {
        Ok(_) => true,
        Err(e) => e == ArgError::Usage || e == ArgError::NoExtension,
    }
}

proof fn lemma_build_shift(front: Seq<Seq<char>>, rest: Seq<Seq<char>>, i: int, o: BuildRead)
    requires
        0 <= i,
    ensures
        build_ok(build_from(front + rest, front.len() + i, o)) == build_ok(build_from(rest, i, o)),
    decreases rest.len() - i,
{
    let all = front + rest;
    let a = rest;
    if i < rest.len() {
        assert(all[front.len() + i] == rest[i]);
        if i + 1 < rest.len() {
            assert(all[front.len() + i + 1] == rest[i + 1]);
        }
        if is_one(a[i], "-o"@, "--output"@) {
            if i + 1 < a.len() {
                lemma_build_shift(front, rest, i + 2, BuildRead { output: Some(a[i + 1]), ..o });
            }
        } else if is_one(a[i], "-s"@, "--size"@) {
            if i + 1 < a.len() {
                if let Ok(x) = size_in(a[i + 1]) {
                    lemma_build_shift(front, rest, i + 2, BuildRead { size: x, ..o });
                }
            }
        } else if is_one(a[i], "-f"@, "--force"@) {
            lemma_build_shift(front, rest, i + 1, BuildRead { force: true, ..o });
        } else if !is_option(a[i]) {
            lemma_build_shift(front, rest, i + 1, BuildRead { names: o.names.push(a[i]), ..o });
        }
    }
}

proof fn lemma_build_front(a: Seq<Seq<char>>, i: int, o: BuildRead) -> (p: BuildRead)
    requires
        0 <= i <= a.len(),
        build_whole(build_from(a, i, o)),
    ensures
        build_from(a, a.len() as int, p) == build_from(a, i, o),
        forall|rest: Seq<Seq<char>>| #[trigger]
            build_from(a + rest, i, o) == build_from(a + rest, a.len() as int, p) && build_ok(
                build_from(a + rest, i, o),
            ) == build_ok(build_from(rest, 0, p)),
    decreases a.len() - i,
{
    if i >= a.len() {
        assert forall|rest: Seq<Seq<char>>| #[trigger]
            build_from(a + rest, i, o) == build_from(a + rest, a.len() as int, o) && build_ok(
            build_from(a + rest, i, o),
        ) == build_ok(build_from(rest, 0, o)) by {
            lemma_build_shift(a, rest, 0, o);
        }
        o
    } else {
        let mut p = o;
        if is_one(a[i], "-o"@, "--output"@) {
            if i + 1 < a.len() {
                let q = BuildRead { output: Some(a[i + 1]), ..o };
                p = lemma_build_front(a, i + 2, q);
                let r = p;
                assert forall|rest: Seq<Seq<char>>| #[trigger]
                    build_from(a + rest, i, o) == build_from(a + rest, a.len() as int, r)
                        && build_ok(
                    build_from(a + rest, i, o),
                ) == build_ok(build_from(rest, 0, r)) by {
                    assert((a + rest)[i] == a[i]);
                    if i + 1 < a.len() {
                        assert((a + rest)[i + 1] == a[i + 1]);
                    }
                    assert(build_from(a + rest, i + 2, q)
                        == build_from(a + rest, a.len() as int, r));
                }
            }
        } else if is_one(a[i], "-s"@, "--size"@) {
            if i + 1 < a.len() {
                if let Ok(x) = size_in(a[i + 1]) {
                    let q = BuildRead { size: x, ..o };
                    p = lemma_build_front(a, i + 2, q);
                    let r = p;
                    assert forall|rest: Seq<Seq<char>>| #[trigger]
                        build_from(a + rest, i, o) == build_from(a + rest, a.len() as int, r)
                            && build_ok(
                        build_from(a + rest, i, o),
                    ) == build_ok(build_from(rest, 0, r)) by {
                        assert((a + rest)[i] == a[i]);
                        if i + 1 < a.len() {
                            assert((a + rest)[i + 1] == a[i + 1]);
                        }
                        assert(build_from(a + rest, i + 2, q)
                            == build_from(a + rest, a.len() as int, r));
                    }
                }
            }
        } else if is_one(a[i], "-f"@, "--force"@) {
            let q = BuildRead { force: true, ..o };
            p = lemma_build_front(a, i + 1, q);
            let r = p;
            assert forall|rest: Seq<Seq<char>>| #[trigger]
                build_from(a + rest, i, o) == build_from(a + rest, a.len() as int, r) && build_ok(
                build_from(a + rest, i, o),
            ) == build_ok(build_from(rest, 0, r)) by {
                assert((a + rest)[i] == a[i]);
                if i + 1 < a.len() {
                    assert((a + rest)[i + 1] == a[i + 1]);
                }
                assert(build_from(a + rest, i + 1, q) == build_from(a + rest, a.len() as int, r));
            }
        } else if !is_option(a[i]) {
            let q = BuildRead { names: o.names.push(a[i]), ..o };
            p = lemma_build_front(a, i + 1, q);
            let r = p;
            assert forall|rest: Seq<Seq<char>>| #[trigger]
                build_from(a + rest, i, o) == build_from(a + rest, a.len() as int, r) && build_ok(
                build_from(a + rest, i, o),
            ) == build_ok(build_from(rest, 0, r)) by {
                assert((a + rest)[i] == a[i]);
                if i + 1 < a.len() {
                    assert((a + rest)[i + 1] == a[i + 1]);
                }
                assert(build_from(a + rest, i + 1, q) == build_from(a + rest, a.len() as int, r));
            }
        }
        p
    }
}

/// The names of the options, letter by letter.
proof fn lemma_build_names()
    ensures
        "-o"@.len() == 2 && "-o"@[0] == '-' && "-o"@[1] == 'o',
        "--output"@.len() == 8 && "--output"@[0] == '-' && "--output"@[1] == '-' && "--output"@[2]
            == 'o',
        "-s"@.len() == 2 && "-s"@[0] == '-' && "-s"@[1] == 's',
        "--size"@.len() == 6 && "--size"@[0] == '-' && "--size"@[1] == '-' && "--size"@[2] == 's',
        "-f"@.len() == 2 && "-f"@[0] == '-' && "-f"@[1] == 'f',
        "--force"@.len() == 7 && "--force"@[0] == '-' && "--force"@[1] == '-' && "--force"@[2]
            == 'f',
{
    reveal_strlit("-o");
    reveal_strlit("--output");
    reveal_strlit("-s");
    reveal_strlit("--size");
    reveal_strlit("-f");
    reveal_strlit("--force");
}

/// No argument sets the option.
pub open spec fn build_without_output(a: Seq<Seq<char>>, i: int) -> bool {
    forall|k: int|
        i <= k < a.len() ==> #[trigger] a[k] != "-o"@ && a[k] != "--output"@
}

proof fn lemma_build_output(a: Seq<Seq<char>>, i: int, o: BuildRead, v: Option<Seq<char>>)
    requires
        0 <= i,
        build_without_output(a, i),
        v is Some,
    ensures
        match build_ok(build_from(a, i, o)) {
            Some(b) => build_from(a, i, BuildRead { output: v, ..o }) == Ok::<BuildView, ArgError>(
                BuildView { output: v->Some_0, ..b },
            ),
            None => true,
        },
    decreases a.len() - i,
{
    if i < a.len() {
        assert(a[i] != "-o"@);
        if is_one(a[i], "-o"@, "--output"@) {
            if i + 1 < a.len() {
                lemma_build_output(a, i + 2, BuildRead { output: Some(a[i + 1]), ..o }, v);
            }
        } else if is_one(a[i], "-s"@, "--size"@) {
            if i + 1 < a.len() {
                if let Ok(x) = size_in(a[i + 1]) {
                    lemma_build_output(a, i + 2, BuildRead { size: x, ..o }, v);
                }
            }
        } else if is_one(a[i], "-f"@, "--force"@) {
            lemma_build_output(a, i + 1, BuildRead { force: true, ..o }, v);
        } else if !is_option(a[i]) {
            lemma_build_output(a, i + 1, BuildRead { names: o.names.push(a[i]), ..o }, v);
        }
    }
}

/// The option sets `output` to its value, wherever it stands before no other that
/// does. Without one the default stays.
pub proof fn build_takes_output(front: Seq<Seq<char>>, name: Seq<char>, value: Seq<char>,
    rest: Seq<Seq<char>>)
    requires
        build_whole(build_from(front, 0, build_default())),
        name == "-o"@ || name == "--output"@,
        build_without_output(rest, 0),
    ensures
        match build_ok(build_from(front + rest, 0, build_default())) {
            Some(b) => build_from(front + seq![name, value] + rest, 0, build_default())
                == Ok::<BuildView, ArgError>(
                BuildView { output: value, ..b },
            ),
            None => true,
        },
        build_without_output(front, 0) && build_from(front, 0, build_default()) is Ok ==> ({
            let a = build_from(front, 0, build_default())->Ok_0;
            a.output == path_in(a.work, a.part + ".img"@)
        }),
{
    let p = lemma_build_front(front, 0, build_default());
    let here = seq![name, value];
    let more = here + rest;
    assert(front + here + rest =~= front + more);
    assert(more[0] == here[0]);
    lemma_build_names();
    assert(more[1] == here[1]);
    lemma_build_shift(here, rest, 0, BuildRead { output: Some(value), ..p });
    lemma_build_output(rest, 0, p, Some(value));
    if build_without_output(front, 0) {
        if build_from(front, 0, build_default()) is Ok {
            lemma_build_named(front, 0, build_default());
        }
    }
    assert(build_ok(build_from(front + more, 0, build_default()))
        == build_ok(build_from(more, 0, p)));
    assert(build_ok(build_from(front + rest, 0, build_default()))
        == build_ok(build_from(rest, 0, p)));
}

/// No argument sets the option.
pub open spec fn build_without_size(a: Seq<Seq<char>>, i: int) -> bool {
    forall|k: int|
        i <= k < a.len() ==> #[trigger] a[k] != "-s"@ && a[k] != "--size"@
}

proof fn lemma_build_size(a: Seq<Seq<char>>, i: int, o: BuildRead, v: Size)
    requires
        0 <= i,
        build_without_size(a, i),
    ensures
        match build_ok(build_from(a, i, o)) {
            Some(b) => build_from(a, i, BuildRead { size: v, ..o }) == Ok::<BuildView, ArgError>(
                BuildView { size: v, ..b },
            ),
            None => build_from(a, i, BuildRead { size: v, ..o }) is Err,
        },
    decreases a.len() - i,
{
    if i < a.len() {
        assert(a[i] != "-s"@);
        if is_one(a[i], "-o"@, "--output"@) {
            if i + 1 < a.len() {
                lemma_build_size(a, i + 2, BuildRead { output: Some(a[i + 1]), ..o }, v);
            }
        } else if is_one(a[i], "-s"@, "--size"@) {
            if i + 1 < a.len() {
                if let Ok(x) = size_in(a[i + 1]) {
                    lemma_build_size(a, i + 2, BuildRead { size: x, ..o }, v);
                }
            }
        } else if is_one(a[i], "-f"@, "--force"@) {
            lemma_build_size(a, i + 1, BuildRead { force: true, ..o }, v);
        } else if !is_option(a[i]) {
            lemma_build_size(a, i + 1, BuildRead { names: o.names.push(a[i]), ..o }, v);
        }
    }
}

/// The option sets `size` to its value, wherever it stands before no other that
/// does. Without one the default stays.
pub proof fn build_takes_size(front: Seq<Seq<char>>, name: Seq<char>, text: Seq<char>, n: Size,
    rest: Seq<Seq<char>>)
    requires
        build_whole(build_from(front, 0, build_default())),
        name == "-s"@ || name == "--size"@,
        size_in(text) == Ok::<Size, Error>(n),
        build_without_size(rest, 0),
    ensures
        match build_ok(build_from(front + rest, 0, build_default())) {
            Some(b) => build_from(front + seq![name, text] + rest, 0, build_default())
                == Ok::<BuildView, ArgError>(
                BuildView { size: n, ..b },
            ),
            None => build_from(front + seq![name, text] + rest, 0, build_default()) is Err,
        },
        build_without_size(front, 0) && build_from(front, 0, build_default()) is Ok
            ==> build_from(front, 0, build_default())->Ok_0.size == Size::Original,
{
    let p = lemma_build_front(front, 0, build_default());
    let here = seq![name, text];
    let more = here + rest;
    assert(front + here + rest =~= front + more);
    assert(more[0] == here[0]);
    lemma_build_names();
    assert(more[1] == here[1]);
    lemma_build_shift(here, rest, 0, BuildRead { size: n, ..p });
    lemma_build_size(rest, 0, p, n);
    if build_without_size(front, 0) {
        lemma_build_size(front, 0, build_default(), build_default().size);
    }
    assert(build_ok(build_from(front + more, 0, build_default()))
        == build_ok(build_from(more, 0, p)));
    assert(build_ok(build_from(front + rest, 0, build_default()))
        == build_ok(build_from(rest, 0, p)));
}

/// No argument is one of the names of the option.
pub open spec fn build_without_force(a: Seq<Seq<char>>, i: int) -> bool {
    forall|k: int| i <= k < a.len() ==> #[trigger] a[k] != "-f"@ && a[k] != "--force"@
}

proof fn lemma_build_force(a: Seq<Seq<char>>, i: int, o: BuildRead)
    requires
        0 <= i,
    ensures
        match build_ok(build_from(a, i, o)) {
            Some(b) => build_from(a, i, BuildRead { force: true, ..o }) == Ok::<BuildView,
                ArgError>(
                BuildView { force: true, ..b },
            ) && (build_without_force(a, i) ==> b.force == o.force),
            None => build_from(a, i, BuildRead { force: true, ..o }) is Err,
        },
    decreases a.len() - i,
{
    if i < a.len() {
        if is_one(a[i], "-o"@, "--output"@) {
            if i + 1 < a.len() {
                lemma_build_force(a, i + 2, BuildRead { output: Some(a[i + 1]), ..o });
            }
        } else if is_one(a[i], "-s"@, "--size"@) {
            if i + 1 < a.len() {
                if let Ok(x) = size_in(a[i + 1]) {
                    lemma_build_force(a, i + 2, BuildRead { size: x, ..o });
                }
            }
        } else if is_one(a[i], "-f"@, "--force"@) {
            lemma_build_force(a, i + 1, BuildRead { force: true, ..o });
        } else if !is_option(a[i]) {
            lemma_build_force(a, i + 1, BuildRead { names: o.names.push(a[i]), ..o });
        }
    }
}

/// The option turns `force` on, wherever it stands, and nothing else does.
pub proof fn build_takes_force(front: Seq<Seq<char>>, name: Seq<char>, rest: Seq<Seq<char>>)
    requires
        build_whole(build_from(front, 0, build_default())),
        name == "-f"@ || name == "--force"@,
    ensures
        build_ok(build_from(front + seq![name] + rest, 0, build_default())) == match build_ok(
            build_from(front + rest, 0, build_default()),
        ) {
            Some(b) => Some(BuildView { force: true, ..b }),
            None => None,
        },
        build_without_force(front, 0) && build_from(front, 0, build_default()) is Ok
            ==> !build_from(
            front,
            0,
            build_default(),
        )->Ok_0.force,
{
    let p = lemma_build_front(front, 0, build_default());
    let more = seq![name] + rest;
    assert(front + seq![name] + rest =~= front + more);
    assert(more[0] == name);
    lemma_build_names();
    lemma_build_shift(seq![name], rest, 0, BuildRead { force: true, ..p });
    lemma_build_force(rest, 0, p);
    lemma_build_force(front, 0, build_default());
    assert(build_ok(build_from(front + more, 0, build_default()))
        == build_ok(build_from(more, 0, p)));
    assert(build_ok(build_from(front + rest, 0, build_default()))
        == build_ok(build_from(rest, 0, p)));
}

proof fn lemma_build_named(a: Seq<Seq<char>>, i: int, o: BuildRead)
    requires
        0 <= i,
        build_without_output(a, i),
        o.output is None,
        build_from(a, i, o) is Ok,
    ensures
        ({
            let r = build_from(a, i, o)->Ok_0;
            r.output == path_in(r.work, r.part + ".img"@)
        }),
    decreases a.len() - i,
{
    if i < a.len() {
        assert(a[i] != "-o"@);
        if is_one(a[i], "-o"@, "--output"@) {
            if i + 1 < a.len() {
                lemma_build_named(a, i + 2, BuildRead { output: Some(a[i + 1]), ..o });
            }
        } else if is_one(a[i], "-s"@, "--size"@) {
            if i + 1 < a.len() {
                if let Ok(x) = size_in(a[i + 1]) {
                    lemma_build_named(a, i + 2, BuildRead { size: x, ..o });
                }
            }
        } else if is_one(a[i], "-f"@, "--force"@) {
            lemma_build_named(a, i + 1, BuildRead { force: true, ..o });
        } else if !is_option(a[i]) {
            lemma_build_named(a, i + 1, BuildRead { names: o.names.push(a[i]), ..o });
        }
    }
}

/// A folder and a partition by themselves are read with the defaults: the
/// size stays, and the image goes into the folder.
pub proof fn build_reads_a_partition(work: Seq<char>, part: Seq<char>)
    requires
        !is_option(work),
        !is_option(part),
    ensures
        build_from(seq![work, part], 0, build_default()) == Ok::<BuildView, ArgError>(
            BuildView {
                work,
                part,
                output: path_in(work, part + ".img"@),
                size: Size::Original,
                force: false,
            },
        ),
        build_from(seq![work], 0, build_default()) == Err::<BuildView, ArgError>(ArgError::Usage),
        forall|more: Seq<char>|
            !is_option(more) ==> build_from(#[trigger] seq![work, part, more], 0, build_default())
                == Err::<BuildView, ArgError>(ArgError::Usage),
{
    lemma_build_names();
    reveal_with_fuel(build_from, 4);
    let one = seq![work];
    assert(one[0] == work);
    let two = seq![work, part];
    assert(two[0] == work && two[1] == part);
    let names = Seq::<Seq<char>>::empty().push(work).push(part);
    assert(names[0] == work && names[1] == part);
    assert forall|more: Seq<char>| !is_option(more) implies build_from(
        #[trigger] seq![work, part, more],
        0,
        build_default(),
    ) == Err::<BuildView, ArgError>(ArgError::Usage) by {
        let three = seq![work, part, more];
        assert(three[0] == work && three[1] == part && three[2] == more);
    }
}

/// The arguments are refused where an option has no value, where its value is
/// wrong and where an
/// option is unknown; the error tells the place. Without arguments
/// there is nothing to do.
pub proof fn build_refuses(
    front: Seq<Seq<char>>,
    name: Seq<char>,
    value: Seq<char>,
    file: Seq<char>,
    rest: Seq<Seq<char>>,
)
    requires
        build_whole(build_from(front, 0, build_default())),
    ensures
        name == "-o"@ || name == "--output"@ || name == "-s"@ || name == "--size"@
            ==> build_from(front + seq![name], 0, build_default()) == Err::<BuildView, ArgError>(
            ArgError::NeedsValue(front.len() as usize),
        ),
        (name == "-s"@ || name == "--size"@) && (size_in(value) is Err) ==> build_from(
            front + seq![name, value] + rest,
            0,
            build_default(),
        ) == Err::<BuildView, ArgError>(ArgError::BadValue(front.len() as usize)),
        file == "-"@ || file == "--unknown"@ ==> build_from(
            front + seq![file] + rest, 0, build_default())
            == Err::<BuildView, ArgError>(ArgError::Unexpected(front.len() as usize)),
        build_from(Seq::empty(), 0, build_default()) == Err::<BuildView, ArgError>(ArgError::Usage),
{
    lemma_build_names();
    reveal_strlit("-");
    reveal_strlit("--unknown");
    assert("--unknown"@[2] == 'u');
    assert("-"@.len() == 1);
    let d = build_default();
    let p = lemma_build_front(front, 0, d);
    let n = front.len() as int;
    let one = front + seq![name];
    assert(build_from(one, 0, d) == build_from(one, n, p));
    assert(one[n] == name);
    let two = front + (seq![name, value] + rest);
    assert(front + seq![name, value] + rest =~= two);
    assert(build_from(two, 0, d) == build_from(two, n, p));
    assert(two[n] == name && two[n + 1] == value);
    let three = front + (seq![file] + rest);
    assert(front + seq![file] + rest =~= three);
    assert(build_from(three, 0, d) == build_from(three, n, p));
    assert(three[n] == file);
}

} // verus!
