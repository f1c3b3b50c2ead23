//! What the arguments of `brotli` are read as.
use vstd::prelude::*;
use crate::cli::{brotli_default, brotli_from, dash_number, is_one, is_option, small_in, ArgError,
    BrotliView};
use crate::laws::texts::decimal_reads_back;
use crate::text::decimal;
use crate::words::{digits, has_suffix, number};

verus! {

/// What is read where nothing is wrong.
pub open spec fn brotli_ok(r: Result<BrotliView, ArgError>) -> Option<BrotliView> {
    match r {
        Ok(a) => Some(a),
        Err(_) => None,
    }
}

/// Arguments that no option without its value ends, and with nothing wrong so
/// far.
pub open spec fn brotli_whole(r: Result<BrotliView, ArgError>) -> bool {
    match r {
        Ok(_) => true,
        Err(e) => e == ArgError::Usage || e == ArgError::NoExtension,
    }
}

proof fn lemma_brotli_shift(front: Seq<Seq<char>>, rest: Seq<Seq<char>>, i: int, o: BrotliView)
    requires
        0 <= i,
    ensures
        brotli_ok(brotli_from(front + rest, front.len() + i, o))
            == brotli_ok(brotli_from(rest, i, o)),
    decreases rest.len() - i,
{
    let all = front + rest;
    let a = rest;
    if i < rest.len() {
        assert(all[front.len() + i] == rest[i]);
        if i + 1 < rest.len() {
            assert(all[front.len() + i + 1] == rest[i + 1]);
        }
        if is_one(a[i], "-d"@, "--decompress"@) {
            lemma_brotli_shift(front, rest, i + 1, BrotliView { decompress: true, ..o });
        } else if is_one(a[i], "-j"@, "--rm"@) {
            lemma_brotli_shift(front, rest, i + 1, BrotliView { remove_input: true, ..o });
        } else if is_one(a[i], "-f"@, "--force"@) {
            lemma_brotli_shift(front, rest, i + 1, BrotliView { force: true, ..o });
        } else if is_one(a[i], "-o"@, "--output"@) {
            if i + 1 < a.len() {
                lemma_brotli_shift(front, rest, i + 2, BrotliView { output: Some(a[i + 1]), ..o });
            }
        } else if is_one(a[i], "-q"@, "--quality"@) {
            if i + 1 < a.len() {
                if let Some(x) = small_in(a[i + 1]) {
                    lemma_brotli_shift(front, rest, i + 2, BrotliView { quality: x, ..o });
                }
            }
        } else if is_one(a[i], "-w"@, "--lgwin"@) {
            if i + 1 < a.len() {
                if let Some(x) = small_in(a[i + 1]) {
                    lemma_brotli_shift(front, rest, i + 2, BrotliView { lgwin: x, ..o });
                }
            }
        } else if dash_number(a[i]) is Some {
            lemma_brotli_shift(front, rest, i + 1, BrotliView { quality: dash_number(a[i])->Some_0,
                ..o });
        } else if o.input is None && !is_option(a[i]) {
            lemma_brotli_shift(front, rest, i + 1, BrotliView { input: Some(a[i]), ..o });
        }
    }
}

proof fn lemma_brotli_front(a: Seq<Seq<char>>, i: int, o: BrotliView) -> (p: BrotliView)
    requires
        0 <= i <= a.len(),
        brotli_whole(brotli_from(a, i, o)),
    ensures
        brotli_from(a, a.len() as int, p) == brotli_from(a, i, o),
        forall|rest: Seq<Seq<char>>| #[trigger]
            brotli_from(a + rest, i, o) == brotli_from(a + rest, a.len() as int, p) && brotli_ok(
                brotli_from(a + rest, i, o),
            ) == brotli_ok(brotli_from(rest, 0, p)),
    decreases a.len() - i,
{
    if i >= a.len() {
        assert forall|rest: Seq<Seq<char>>| #[trigger]
            brotli_from(a + rest, i, o) == brotli_from(a + rest, a.len() as int, o) && brotli_ok(
            brotli_from(a + rest, i, o),
        ) == brotli_ok(brotli_from(rest, 0, o)) by {
            lemma_brotli_shift(a, rest, 0, o);
        }
        o
    } else {
        let mut p = o;
        if is_one(a[i], "-d"@, "--decompress"@) {
            let q = BrotliView { decompress: true, ..o };
            p = lemma_brotli_front(a, i + 1, q);
            let r = p;
            assert forall|rest: Seq<Seq<char>>| #[trigger]
                brotli_from(a + rest, i, o) == brotli_from(a + rest, a.len() as int, r)
                    && brotli_ok(
                brotli_from(a + rest, i, o),
            ) == brotli_ok(brotli_from(rest, 0, r)) by {
                assert((a + rest)[i] == a[i]);
                if i + 1 < a.len() {
                    assert((a + rest)[i + 1] == a[i + 1]);
                }
                assert(brotli_from(a + rest, i + 1, q) == brotli_from(a + rest, a.len() as int, r));
            }
        } else if is_one(a[i], "-j"@, "--rm"@) {
            let q = BrotliView { remove_input: true, ..o };
            p = lemma_brotli_front(a, i + 1, q);
            let r = p;
            assert forall|rest: Seq<Seq<char>>| #[trigger]
                brotli_from(a + rest, i, o) == brotli_from(a + rest, a.len() as int, r)
                    && brotli_ok(
                brotli_from(a + rest, i, o),
            ) == brotli_ok(brotli_from(rest, 0, r)) by {
                assert((a + rest)[i] == a[i]);
                if i + 1 < a.len() {
                    assert((a + rest)[i + 1] == a[i + 1]);
                }
                assert(brotli_from(a + rest, i + 1, q) == brotli_from(a + rest, a.len() as int, r));
            }
        } else if is_one(a[i], "-f"@, "--force"@) {
            let q = BrotliView { force: true, ..o };
            p = lemma_brotli_front(a, i + 1, q);
            let r = p;
            assert forall|rest: Seq<Seq<char>>| #[trigger]
                brotli_from(a + rest, i, o) == brotli_from(a + rest, a.len() as int, r)
                    && brotli_ok(
                brotli_from(a + rest, i, o),
            ) == brotli_ok(brotli_from(rest, 0, r)) by {
                assert((a + rest)[i] == a[i]);
                if i + 1 < a.len() {
                    assert((a + rest)[i + 1] == a[i + 1]);
                }
                assert(brotli_from(a + rest, i + 1, q) == brotli_from(a + rest, a.len() as int, r));
            }
        } else if is_one(a[i], "-o"@, "--output"@) {
            if i + 1 < a.len() {
                let q = BrotliView { output: Some(a[i + 1]), ..o };
                p = lemma_brotli_front(a, i + 2, q);
                let r = p;
                assert forall|rest: Seq<Seq<char>>| #[trigger]
                    brotli_from(a + rest, i, o) == brotli_from(a + rest, a.len() as int, r)
                        && brotli_ok(
                    brotli_from(a + rest, i, o),
                ) == brotli_ok(brotli_from(rest, 0, r)) by {
                    assert((a + rest)[i] == a[i]);
                    if i + 1 < a.len() {
                        assert((a + rest)[i + 1] == a[i + 1]);
                    }
                    assert(brotli_from(a + rest, i + 2, q)
                        == brotli_from(a + rest, a.len() as int, r));
                }
            }
        } else if is_one(a[i], "-q"@, "--quality"@) {
            if i + 1 < a.len() {
                if let Some(x) = small_in(a[i + 1]) {
                    let q = BrotliView { quality: x, ..o };
                    p = lemma_brotli_front(a, i + 2, q);
                    let r = p;
                    assert forall|rest: Seq<Seq<char>>| #[trigger]
                        brotli_from(a + rest, i, o) == brotli_from(a + rest, a.len() as int, r)
                            && brotli_ok(
                        brotli_from(a + rest, i, o),
                    ) == brotli_ok(brotli_from(rest, 0, r)) by {
                        assert((a + rest)[i] == a[i]);
                        if i + 1 < a.len() {
                            assert((a + rest)[i + 1] == a[i + 1]);
                        }
                        assert(brotli_from(a + rest, i + 2, q)
                            == brotli_from(a + rest, a.len() as int, r));
                    }
                }
            }
        } else if is_one(a[i], "-w"@, "--lgwin"@) {
            if i + 1 < a.len() {
                if let Some(x) = small_in(a[i + 1]) {
                    let q = BrotliView { lgwin: x, ..o };
                    p = lemma_brotli_front(a, i + 2, q);
                    let r = p;
                    assert forall|rest: Seq<Seq<char>>| #[trigger]
                        brotli_from(a + rest, i, o) == brotli_from(a + rest, a.len() as int, r)
                            && brotli_ok(
                        brotli_from(a + rest, i, o),
                    ) == brotli_ok(brotli_from(rest, 0, r)) by {
                        assert((a + rest)[i] == a[i]);
                        if i + 1 < a.len() {
                            assert((a + rest)[i + 1] == a[i + 1]);
                        }
                        assert(brotli_from(a + rest, i + 2, q)
                            == brotli_from(a + rest, a.len() as int, r));
                    }
                }
            }
        } else if dash_number(a[i]) is Some {
            let q = BrotliView { quality: dash_number(a[i])->Some_0, ..o };
            p = lemma_brotli_front(a, i + 1, q);
            let r = p;
            assert forall|rest: Seq<Seq<char>>| #[trigger]
                brotli_from(a + rest, i, o) == brotli_from(a + rest, a.len() as int, r)
                    && brotli_ok(
                brotli_from(a + rest, i, o),
            ) == brotli_ok(brotli_from(rest, 0, r)) by {
                assert((a + rest)[i] == a[i]);
                if i + 1 < a.len() {
                    assert((a + rest)[i + 1] == a[i + 1]);
                }
                assert(brotli_from(a + rest, i + 1, q) == brotli_from(a + rest, a.len() as int, r));
            }
        } else if o.input is None && !is_option(a[i]) {
            let q = BrotliView { input: Some(a[i]), ..o };
            p = lemma_brotli_front(a, i + 1, q);
            let r = p;
            assert forall|rest: Seq<Seq<char>>| #[trigger]
                brotli_from(a + rest, i, o) == brotli_from(a + rest, a.len() as int, r)
                    && brotli_ok(
                brotli_from(a + rest, i, o),
            ) == brotli_ok(brotli_from(rest, 0, r)) by {
                assert((a + rest)[i] == a[i]);
                if i + 1 < a.len() {
                    assert((a + rest)[i + 1] == a[i + 1]);
                }
                assert(brotli_from(a + rest, i + 1, q) == brotli_from(a + rest, a.len() as int, r));
            }
        }
        p
    }
}

/// The names of the options, letter by letter.
proof fn lemma_brotli_names()
    ensures
        "-d"@.len() == 2 && "-d"@[0] == '-' && "-d"@[1] == 'd',
        "--decompress"@.len() == 12 && "--decompress"@[0] == '-' && "--decompress"@[1] == '-'
            && "--decompress"@[2] == 'd',
        "-j"@.len() == 2 && "-j"@[0] == '-' && "-j"@[1] == 'j',
        "--rm"@.len() == 4 && "--rm"@[0] == '-' && "--rm"@[1] == '-' && "--rm"@[2] == 'r',
        "-f"@.len() == 2 && "-f"@[0] == '-' && "-f"@[1] == 'f',
        "--force"@.len() == 7 && "--force"@[0] == '-' && "--force"@[1] == '-' && "--force"@[2]
            == 'f',
        "-o"@.len() == 2 && "-o"@[0] == '-' && "-o"@[1] == 'o',
        "--output"@.len() == 8 && "--output"@[0] == '-' && "--output"@[1] == '-' && "--output"@[2]
            == 'o',
        "-q"@.len() == 2 && "-q"@[0] == '-' && "-q"@[1] == 'q',
        "--quality"@.len() == 9 && "--quality"@[0] == '-' && "--quality"@[1] == '-'
            && "--quality"@[2] == 'q',
        "-w"@.len() == 2 && "-w"@[0] == '-' && "-w"@[1] == 'w',
        "--lgwin"@.len() == 7 && "--lgwin"@[0] == '-' && "--lgwin"@[1] == '-' && "--lgwin"@[2]
            == 'l',
{
    reveal_strlit("-d");
    reveal_strlit("--decompress");
    reveal_strlit("-j");
    reveal_strlit("--rm");
    reveal_strlit("-f");
    reveal_strlit("--force");
    reveal_strlit("-o");
    reveal_strlit("--output");
    reveal_strlit("-q");
    reveal_strlit("--quality");
    reveal_strlit("-w");
    reveal_strlit("--lgwin");
}

/// No argument is one of the names of the option.
pub open spec fn brotli_without_decompress(a: Seq<Seq<char>>, i: int) -> bool {
    forall|k: int| i <= k < a.len() ==> #[trigger] a[k] != "-d"@ && a[k] != "--decompress"@
}

proof fn lemma_brotli_no_decompress(a: Seq<Seq<char>>, i: int, o: BrotliView)
    requires
        0 <= i,
        brotli_without_decompress(a, i),
        brotli_from(a, i, o) is Ok,
    ensures
        brotli_from(a, i, o)->Ok_0.decompress == o.decompress,
    decreases a.len() - i,
{
    if i < a.len() {
        assert(a[i] != "-d"@);
        if is_one(a[i], "-d"@, "--decompress"@) {
            lemma_brotli_no_decompress(a, i + 1, BrotliView { decompress: true, ..o });
        } else if is_one(a[i], "-j"@, "--rm"@) {
            lemma_brotli_no_decompress(a, i + 1, BrotliView { remove_input: true, ..o });
        } else if is_one(a[i], "-f"@, "--force"@) {
            lemma_brotli_no_decompress(a, i + 1, BrotliView { force: true, ..o });
        } else if is_one(a[i], "-o"@, "--output"@) {
            if i + 1 < a.len() {
                lemma_brotli_no_decompress(a, i + 2, BrotliView { output: Some(a[i + 1]), ..o });
            }
        } else if is_one(a[i], "-q"@, "--quality"@) {
            if i + 1 < a.len() {
                if let Some(x) = small_in(a[i + 1]) {
                    lemma_brotli_no_decompress(a, i + 2, BrotliView { quality: x, ..o });
                }
            }
        } else if is_one(a[i], "-w"@, "--lgwin"@) {
            if i + 1 < a.len() {
                if let Some(x) = small_in(a[i + 1]) {
                    lemma_brotli_no_decompress(a, i + 2, BrotliView { lgwin: x, ..o });
                }
            }
        } else if dash_number(a[i]) is Some {
            lemma_brotli_no_decompress(a, i + 1, BrotliView { quality: dash_number(a[i])->Some_0,
                ..o });
        } else if o.input is None && !is_option(a[i]) {
            lemma_brotli_no_decompress(a, i + 1, BrotliView { input: Some(a[i]), ..o });
        }
    }
}

/// No argument is one of the names of the option.
pub open spec fn brotli_without_remove_input(a: Seq<Seq<char>>, i: int) -> bool {
    forall|k: int| i <= k < a.len() ==> #[trigger] a[k] != "-j"@ && a[k] != "--rm"@
}

proof fn lemma_brotli_remove_input(a: Seq<Seq<char>>, i: int, o: BrotliView)
    requires
        0 <= i,
    ensures
        match brotli_ok(brotli_from(a, i, o)) {
            Some(b) => brotli_from(a, i, BrotliView { remove_input: true, ..o }) == Ok::<BrotliView,
                ArgError>(
                BrotliView { remove_input: true, ..b },
            ) && (brotli_without_remove_input(a, i) ==> b.remove_input == o.remove_input),
            None => brotli_from(a, i, BrotliView { remove_input: true, ..o }) is Err,
        },
    decreases a.len() - i,
{
    if i < a.len() {
        if is_one(a[i], "-d"@, "--decompress"@) {
            lemma_brotli_remove_input(a, i + 1, BrotliView { decompress: true, ..o });
        } else if is_one(a[i], "-j"@, "--rm"@) {
            lemma_brotli_remove_input(a, i + 1, BrotliView { remove_input: true, ..o });
        } else if is_one(a[i], "-f"@, "--force"@) {
            lemma_brotli_remove_input(a, i + 1, BrotliView { force: true, ..o });
        } else if is_one(a[i], "-o"@, "--output"@) {
            if i + 1 < a.len() {
                lemma_brotli_remove_input(a, i + 2, BrotliView { output: Some(a[i + 1]), ..o });
            }
        } else if is_one(a[i], "-q"@, "--quality"@) {
            if i + 1 < a.len() {
                if let Some(x) = small_in(a[i + 1]) {
                    lemma_brotli_remove_input(a, i + 2, BrotliView { quality: x, ..o });
                }
            }
        } else if is_one(a[i], "-w"@, "--lgwin"@) {
            if i + 1 < a.len() {
                if let Some(x) = small_in(a[i + 1]) {
                    lemma_brotli_remove_input(a, i + 2, BrotliView { lgwin: x, ..o });
                }
            }
        } else if dash_number(a[i]) is Some {
            lemma_brotli_remove_input(a, i + 1, BrotliView { quality: dash_number(a[i])->Some_0,
                ..o });
        } else if o.input is None && !is_option(a[i]) {
            lemma_brotli_remove_input(a, i + 1, BrotliView { input: Some(a[i]), ..o });
        }
    }
}

/// The option turns `remove_input` on, wherever it stands, and nothing else does.
pub proof fn brotli_takes_remove_input(front: Seq<Seq<char>>, name: Seq<char>, rest: Seq<Seq<char>>)
    requires
        brotli_whole(brotli_from(front, 0, brotli_default())),
        name == "-j"@ || name == "--rm"@,
    ensures
        brotli_ok(brotli_from(front + seq![name] + rest, 0, brotli_default())) == match brotli_ok(
            brotli_from(front + rest, 0, brotli_default()),
        ) {
            Some(b) => Some(BrotliView { remove_input: true, ..b }),
            None => None,
        },
        brotli_without_remove_input(front, 0) && brotli_from(front, 0, brotli_default()) is Ok
            ==> !brotli_from(
            front,
            0,
            brotli_default(),
        )->Ok_0.remove_input,
{
    let p = lemma_brotli_front(front, 0, brotli_default());
    let more = seq![name] + rest;
    assert(front + seq![name] + rest =~= front + more);
    assert(more[0] == name);
    lemma_brotli_names();
    lemma_brotli_shift(seq![name], rest, 0, BrotliView { remove_input: true, ..p });
    lemma_brotli_remove_input(rest, 0, p);
    lemma_brotli_remove_input(front, 0, brotli_default());
    assert(brotli_ok(brotli_from(front + more, 0, brotli_default()))
        == brotli_ok(brotli_from(more, 0, p)));
    assert(brotli_ok(brotli_from(front + rest, 0, brotli_default()))
        == brotli_ok(brotli_from(rest, 0, p)));
}

/// No argument is one of the names of the option.
pub open spec fn brotli_without_force(a: Seq<Seq<char>>, i: int) -> bool {
    forall|k: int| i <= k < a.len() ==> #[trigger] a[k] != "-f"@ && a[k] != "--force"@
}

proof fn lemma_brotli_force(a: Seq<Seq<char>>, i: int, o: BrotliView)
    requires
        0 <= i,
    ensures
        match brotli_ok(brotli_from(a, i, o)) {
            Some(b) => brotli_from(a, i, BrotliView { force: true, ..o }) == Ok::<BrotliView,
                ArgError>(
                BrotliView { force: true, ..b },
            ) && (brotli_without_force(a, i) ==> b.force == o.force),
            None => brotli_from(a, i, BrotliView { force: true, ..o }) is Err,
        },
    decreases a.len() - i,
{
    if i < a.len() {
        if is_one(a[i], "-d"@, "--decompress"@) {
            lemma_brotli_force(a, i + 1, BrotliView { decompress: true, ..o });
        } else if is_one(a[i], "-j"@, "--rm"@) {
            lemma_brotli_force(a, i + 1, BrotliView { remove_input: true, ..o });
        } else if is_one(a[i], "-f"@, "--force"@) {
            lemma_brotli_force(a, i + 1, BrotliView { force: true, ..o });
        } else if is_one(a[i], "-o"@, "--output"@) {
            if i + 1 < a.len() {
                lemma_brotli_force(a, i + 2, BrotliView { output: Some(a[i + 1]), ..o });
            }
        } else if is_one(a[i], "-q"@, "--quality"@) {
            if i + 1 < a.len() {
                if let Some(x) = small_in(a[i + 1]) {
                    lemma_brotli_force(a, i + 2, BrotliView { quality: x, ..o });
                }
            }
        } else if is_one(a[i], "-w"@, "--lgwin"@) {
            if i + 1 < a.len() {
                if let Some(x) = small_in(a[i + 1]) {
                    lemma_brotli_force(a, i + 2, BrotliView { lgwin: x, ..o });
                }
            }
        } else if dash_number(a[i]) is Some {
            lemma_brotli_force(a, i + 1, BrotliView { quality: dash_number(a[i])->Some_0, ..o });
        } else if o.input is None && !is_option(a[i]) {
            lemma_brotli_force(a, i + 1, BrotliView { input: Some(a[i]), ..o });
        }
    }
}

/// The option turns `force` on, wherever it stands, and nothing else does.
pub proof fn brotli_takes_force(front: Seq<Seq<char>>, name: Seq<char>, rest: Seq<Seq<char>>)
    requires
        brotli_whole(brotli_from(front, 0, brotli_default())),
        name == "-f"@ || name == "--force"@,
    ensures
        brotli_ok(brotli_from(front + seq![name] + rest, 0, brotli_default())) == match brotli_ok(
            brotli_from(front + rest, 0, brotli_default()),
        ) {
            Some(b) => Some(BrotliView { force: true, ..b }),
            None => None,
        },
        brotli_without_force(front, 0) && brotli_from(front, 0, brotli_default()) is Ok
            ==> !brotli_from(
            front,
            0,
            brotli_default(),
        )->Ok_0.force,
{
    let p = lemma_brotli_front(front, 0, brotli_default());
    let more = seq![name] + rest;
    assert(front + seq![name] + rest =~= front + more);
    assert(more[0] == name);
    lemma_brotli_names();
    lemma_brotli_shift(seq![name], rest, 0, BrotliView { force: true, ..p });
    lemma_brotli_force(rest, 0, p);
    lemma_brotli_force(front, 0, brotli_default());
    assert(brotli_ok(brotli_from(front + more, 0, brotli_default()))
        == brotli_ok(brotli_from(more, 0, p)));
    assert(brotli_ok(brotli_from(front + rest, 0, brotli_default()))
        == brotli_ok(brotli_from(rest, 0, p)));
}

/// No argument sets the option.
pub open spec fn brotli_without_output(a: Seq<Seq<char>>, i: int) -> bool {
    forall|k: int|
        i <= k < a.len() ==> #[trigger] a[k] != "-o"@ && a[k] != "--output"@
}

proof fn lemma_brotli_output(a: Seq<Seq<char>>, i: int, o: BrotliView, v: Option<Seq<char>>)
    requires
        0 <= i,
        brotli_without_output(a, i),
        v is Some,
    ensures
        match brotli_ok(brotli_from(a, i, o)) {
            Some(b) => brotli_from(a, i, BrotliView { output: v, ..o }) == Ok::<BrotliView,
                ArgError>(
                BrotliView { output: v, ..b },
            ),
            None => true,
        },
    decreases a.len() - i,
{
    if i < a.len() {
        assert(a[i] != "-o"@);
        if is_one(a[i], "-d"@, "--decompress"@) {
            lemma_brotli_output(a, i + 1, BrotliView { decompress: true, ..o }, v);
        } else if is_one(a[i], "-j"@, "--rm"@) {
            lemma_brotli_output(a, i + 1, BrotliView { remove_input: true, ..o }, v);
        } else if is_one(a[i], "-f"@, "--force"@) {
            lemma_brotli_output(a, i + 1, BrotliView { force: true, ..o }, v);
        } else if is_one(a[i], "-o"@, "--output"@) {
            if i + 1 < a.len() {
                lemma_brotli_output(a, i + 2, BrotliView { output: Some(a[i + 1]), ..o }, v);
            }
        } else if is_one(a[i], "-q"@, "--quality"@) {
            if i + 1 < a.len() {
                if let Some(x) = small_in(a[i + 1]) {
                    lemma_brotli_output(a, i + 2, BrotliView { quality: x, ..o }, v);
                }
            }
        } else if is_one(a[i], "-w"@, "--lgwin"@) {
            if i + 1 < a.len() {
                if let Some(x) = small_in(a[i + 1]) {
                    lemma_brotli_output(a, i + 2, BrotliView { lgwin: x, ..o }, v);
                }
            }
        } else if dash_number(a[i]) is Some {
            lemma_brotli_output(a, i + 1, BrotliView { quality: dash_number(a[i])->Some_0, ..o },
                v);
        } else if o.input is None && !is_option(a[i]) {
            lemma_brotli_output(a, i + 1, BrotliView { input: Some(a[i]), ..o }, v);
        }
    }
}

/// The option sets `output` to its value, wherever it stands before no other that
/// does. Without one the default stays.
pub proof fn brotli_takes_output(front: Seq<Seq<char>>, name: Seq<char>, value: Seq<char>,
    rest: Seq<Seq<char>>)
    requires
        brotli_whole(brotli_from(front, 0, brotli_default())),
        name == "-o"@ || name == "--output"@,
        brotli_without_output(rest, 0),
    ensures
        match brotli_ok(brotli_from(front + rest, 0, brotli_default())) {
            Some(b) => brotli_from(front + seq![name, value] + rest, 0, brotli_default())
                == Ok::<BrotliView, ArgError>(
                BrotliView { output: Some(value), ..b },
            ),
            None => true,
        },
        brotli_without_output(front, 0) && brotli_from(front, 0, brotli_default()) is Ok
            ==> is_named_after(brotli_from(front, 0, brotli_default())->Ok_0),
{
    let p = lemma_brotli_front(front, 0, brotli_default());
    let here = seq![name, value];
    let more = here + rest;
    assert(front + here + rest =~= front + more);
    assert(more[0] == here[0]);
    lemma_brotli_names();
    assert(more[1] == here[1]);
    lemma_brotli_shift(here, rest, 0, BrotliView { output: Some(value), ..p });
    lemma_brotli_output(rest, 0, p, Some(value));
    if brotli_without_output(front, 0) {
        if brotli_from(front, 0, brotli_default()) is Ok {
            lemma_brotli_named(front, 0, brotli_default());
        }
    }
    assert(brotli_ok(brotli_from(front + more, 0, brotli_default()))
        == brotli_ok(brotli_from(more, 0, p)));
    assert(brotli_ok(brotli_from(front + rest, 0, brotli_default()))
        == brotli_ok(brotli_from(rest, 0, p)));
}

/// No argument sets the option.
pub open spec fn brotli_without_quality(a: Seq<Seq<char>>, i: int) -> bool {
    forall|k: int|
        i <= k < a.len() ==> #[trigger] a[k] != "-q"@ && a[k] != "--quality"@
            && dash_number(a[k]) is None
}

proof fn lemma_brotli_quality(a: Seq<Seq<char>>, i: int, o: BrotliView, v: u32)
    requires
        0 <= i,
        brotli_without_quality(a, i),
    ensures
        match brotli_ok(brotli_from(a, i, o)) {
            Some(b) => brotli_from(a, i, BrotliView { quality: v, ..o }) == Ok::<BrotliView,
                ArgError>(
                BrotliView { quality: v, ..b },
            ),
            None => brotli_from(a, i, BrotliView { quality: v, ..o }) is Err,
        },
    decreases a.len() - i,
{
    if i < a.len() {
        assert(a[i] != "-q"@);
        if is_one(a[i], "-d"@, "--decompress"@) {
            lemma_brotli_quality(a, i + 1, BrotliView { decompress: true, ..o }, v);
        } else if is_one(a[i], "-j"@, "--rm"@) {
            lemma_brotli_quality(a, i + 1, BrotliView { remove_input: true, ..o }, v);
        } else if is_one(a[i], "-f"@, "--force"@) {
            lemma_brotli_quality(a, i + 1, BrotliView { force: true, ..o }, v);
        } else if is_one(a[i], "-o"@, "--output"@) {
            if i + 1 < a.len() {
                lemma_brotli_quality(a, i + 2, BrotliView { output: Some(a[i + 1]), ..o }, v);
            }
        } else if is_one(a[i], "-q"@, "--quality"@) {
            if i + 1 < a.len() {
                if let Some(x) = small_in(a[i + 1]) {
                    lemma_brotli_quality(a, i + 2, BrotliView { quality: x, ..o }, v);
                }
            }
        } else if is_one(a[i], "-w"@, "--lgwin"@) {
            if i + 1 < a.len() {
                if let Some(x) = small_in(a[i + 1]) {
                    lemma_brotli_quality(a, i + 2, BrotliView { lgwin: x, ..o }, v);
                }
            }
        } else if dash_number(a[i]) is Some {
            lemma_brotli_quality(a, i + 1, BrotliView { quality: dash_number(a[i])->Some_0, ..o },
                v);
        } else if o.input is None && !is_option(a[i]) {
            lemma_brotli_quality(a, i + 1, BrotliView { input: Some(a[i]), ..o }, v);
        }
    }
}

/// The option sets `quality` to its value, wherever it stands before no other that
/// does. Without one the default stays.
pub proof fn brotli_takes_quality(front: Seq<Seq<char>>, name: Seq<char>, n: u32,
    rest: Seq<Seq<char>>)
    requires
        brotli_whole(brotli_from(front, 0, brotli_default())),
        name == "-q"@ || name == "--quality"@,
        brotli_without_quality(rest, 0),
    ensures
        match brotli_ok(brotli_from(front + rest, 0, brotli_default())) {
            Some(b) => brotli_from(front + seq![name, decimal(n as nat)] + rest, 0,
                brotli_default()) == Ok::<BrotliView, ArgError>(
                BrotliView { quality: n, ..b },
            ),
            None => brotli_from(front + seq![name, decimal(n as nat)] + rest, 0,
                brotli_default()) is Err,
        },
        brotli_without_quality(front, 0) && brotli_from(front, 0, brotli_default()) is Ok
            ==> brotli_from(front, 0, brotli_default())->Ok_0.quality == 1,
{
    let p = lemma_brotli_front(front, 0, brotli_default());
    let here = seq![name, decimal(n as nat)];
    let more = here + rest;
    assert(front + here + rest =~= front + more);
    assert(more[0] == here[0]);
    decimal_reads_back(n as nat);
    lemma_brotli_names();
    assert(more[1] == here[1]);
    lemma_brotli_shift(here, rest, 0, BrotliView { quality: n, ..p });
    lemma_brotli_quality(rest, 0, p, n);
    if brotli_without_quality(front, 0) {
        lemma_brotli_quality(front, 0, brotli_default(), brotli_default().quality);
    }
    assert(brotli_ok(brotli_from(front + more, 0, brotli_default()))
        == brotli_ok(brotli_from(more, 0, p)));
    assert(brotli_ok(brotli_from(front + rest, 0, brotli_default()))
        == brotli_ok(brotli_from(rest, 0, p)));
}

/// A number behind a dash sets `quality`, as the option does.
pub proof fn brotli_takes_dash_quality(front: Seq<Seq<char>>, n: u32, rest: Seq<Seq<char>>)
    requires
        brotli_whole(brotli_from(front, 0, brotli_default())),
        brotli_without_quality(rest, 0),
    ensures
        match brotli_ok(brotli_from(front + rest, 0, brotli_default())) {
            Some(b) => brotli_from(front + seq![seq!['-'] + decimal(n as nat)] + rest, 0,
                brotli_default()) == Ok::<BrotliView, ArgError>(
                BrotliView { quality: n, ..b },
            ),
            None => brotli_from(front + seq![seq!['-'] + decimal(n as nat)] + rest, 0,
                brotli_default()) is Err,
        },
        brotli_without_quality(front, 0) && brotli_from(front, 0, brotli_default()) is Ok
            ==> brotli_from(front, 0, brotli_default())->Ok_0.quality == 1,
{
    let p = lemma_brotli_front(front, 0, brotli_default());
    let here = seq![seq!['-'] + decimal(n as nat)];
    let more = here + rest;
    assert(front + here + rest =~= front + more);
    assert(more[0] == here[0]);
    decimal_reads_back(n as nat);
    lemma_brotli_names();
    assert(here[0].skip(1) =~= decimal(n as nat));
    assert(here[0][1] == decimal(n as nat)[0]);
    lemma_brotli_shift(here, rest, 0, BrotliView { quality: n, ..p });
    lemma_brotli_quality(rest, 0, p, n);
    if brotli_without_quality(front, 0) {
        lemma_brotli_quality(front, 0, brotli_default(), brotli_default().quality);
    }
    assert(brotli_ok(brotli_from(front + more, 0, brotli_default()))
        == brotli_ok(brotli_from(more, 0, p)));
    assert(brotli_ok(brotli_from(front + rest, 0, brotli_default()))
        == brotli_ok(brotli_from(rest, 0, p)));
}

/// No argument sets the option.
pub open spec fn brotli_without_lgwin(a: Seq<Seq<char>>, i: int) -> bool {
    forall|k: int|
        i <= k < a.len() ==> #[trigger] a[k] != "-w"@ && a[k] != "--lgwin"@
}

proof fn lemma_brotli_lgwin(a: Seq<Seq<char>>, i: int, o: BrotliView, v: u32)
    requires
        0 <= i,
        brotli_without_lgwin(a, i),
    ensures
        match brotli_ok(brotli_from(a, i, o)) {
            Some(b) => brotli_from(a, i, BrotliView { lgwin: v, ..o }) == Ok::<BrotliView,
                ArgError>(
                BrotliView { lgwin: v, ..b },
            ),
            None => brotli_from(a, i, BrotliView { lgwin: v, ..o }) is Err,
        },
    decreases a.len() - i,
{
    if i < a.len() {
        assert(a[i] != "-w"@);
        if is_one(a[i], "-d"@, "--decompress"@) {
            lemma_brotli_lgwin(a, i + 1, BrotliView { decompress: true, ..o }, v);
        } else if is_one(a[i], "-j"@, "--rm"@) {
            lemma_brotli_lgwin(a, i + 1, BrotliView { remove_input: true, ..o }, v);
        } else if is_one(a[i], "-f"@, "--force"@) {
            lemma_brotli_lgwin(a, i + 1, BrotliView { force: true, ..o }, v);
        } else if is_one(a[i], "-o"@, "--output"@) {
            if i + 1 < a.len() {
                lemma_brotli_lgwin(a, i + 2, BrotliView { output: Some(a[i + 1]), ..o }, v);
            }
        } else if is_one(a[i], "-q"@, "--quality"@) {
            if i + 1 < a.len() {
                if let Some(x) = small_in(a[i + 1]) {
                    lemma_brotli_lgwin(a, i + 2, BrotliView { quality: x, ..o }, v);
                }
            }
        } else if is_one(a[i], "-w"@, "--lgwin"@) {
            if i + 1 < a.len() {
                if let Some(x) = small_in(a[i + 1]) {
                    lemma_brotli_lgwin(a, i + 2, BrotliView { lgwin: x, ..o }, v);
                }
            }
        } else if dash_number(a[i]) is Some {
            lemma_brotli_lgwin(a, i + 1, BrotliView { quality: dash_number(a[i])->Some_0, ..o }, v);
        } else if o.input is None && !is_option(a[i]) {
            lemma_brotli_lgwin(a, i + 1, BrotliView { input: Some(a[i]), ..o }, v);
        }
    }
}

/// The option sets `lgwin` to its value, wherever it stands before no other that
/// does. Without one the default stays.
pub proof fn brotli_takes_lgwin(front: Seq<Seq<char>>, name: Seq<char>, n: u32,
    rest: Seq<Seq<char>>)
    requires
        brotli_whole(brotli_from(front, 0, brotli_default())),
        name == "-w"@ || name == "--lgwin"@,
        brotli_without_lgwin(rest, 0),
    ensures
        match brotli_ok(brotli_from(front + rest, 0, brotli_default())) {
            Some(b) => brotli_from(front + seq![name, decimal(n as nat)] + rest, 0,
                brotli_default()) == Ok::<BrotliView, ArgError>(
                BrotliView { lgwin: n, ..b },
            ),
            None => brotli_from(front + seq![name, decimal(n as nat)] + rest, 0,
                brotli_default()) is Err,
        },
        brotli_without_lgwin(front, 0) && brotli_from(front, 0, brotli_default()) is Ok
            ==> brotli_from(front, 0, brotli_default())->Ok_0.lgwin == 24,
{
    let p = lemma_brotli_front(front, 0, brotli_default());
    let here = seq![name, decimal(n as nat)];
    let more = here + rest;
    assert(front + here + rest =~= front + more);
    assert(more[0] == here[0]);
    decimal_reads_back(n as nat);
    lemma_brotli_names();
    assert(more[1] == here[1]);
    lemma_brotli_shift(here, rest, 0, BrotliView { lgwin: n, ..p });
    lemma_brotli_lgwin(rest, 0, p, n);
    if brotli_without_lgwin(front, 0) {
        lemma_brotli_lgwin(front, 0, brotli_default(), brotli_default().lgwin);
    }
    assert(brotli_ok(brotli_from(front + more, 0, brotli_default()))
        == brotli_ok(brotli_from(more, 0, p)));
    assert(brotli_ok(brotli_from(front + rest, 0, brotli_default()))
        == brotli_ok(brotli_from(rest, 0, p)));
}

/// The output stands beside the input: compressed it has `.br` added, and what
/// is decompressed is the output with `.br` added.
pub open spec fn is_named_after(a: BrotliView) -> bool {
    if a.decompress {
        a.input == Some(a.output->Some_0 + ".br"@)
    } else {
        a.output == Some(a.input->Some_0 + ".br"@)
    }
}

proof fn lemma_brotli_named(a: Seq<Seq<char>>, i: int, o: BrotliView)
    requires
        0 <= i,
        brotli_without_output(a, i),
        o.output is None,
        brotli_from(a, i, o) is Ok,
    ensures
        is_named_after(brotli_from(a, i, o)->Ok_0),
    decreases a.len() - i,
{
    if i < a.len() {
        assert(a[i] != "-o"@);
        if is_one(a[i], "-d"@, "--decompress"@) {
            lemma_brotli_named(a, i + 1, BrotliView { decompress: true, ..o });
        } else if is_one(a[i], "-j"@, "--rm"@) {
            lemma_brotli_named(a, i + 1, BrotliView { remove_input: true, ..o });
        } else if is_one(a[i], "-f"@, "--force"@) {
            lemma_brotli_named(a, i + 1, BrotliView { force: true, ..o });
        } else if is_one(a[i], "-o"@, "--output"@) {
            if i + 1 < a.len() {
                lemma_brotli_named(a, i + 2, BrotliView { output: Some(a[i + 1]), ..o });
            }
        } else if is_one(a[i], "-q"@, "--quality"@) {
            if i + 1 < a.len() {
                if let Some(x) = small_in(a[i + 1]) {
                    lemma_brotli_named(a, i + 2, BrotliView { quality: x, ..o });
                }
            }
        } else if is_one(a[i], "-w"@, "--lgwin"@) {
            if i + 1 < a.len() {
                if let Some(x) = small_in(a[i + 1]) {
                    lemma_brotli_named(a, i + 2, BrotliView { lgwin: x, ..o });
                }
            }
        } else if dash_number(a[i]) is Some {
            lemma_brotli_named(a, i + 1, BrotliView { quality: dash_number(a[i])->Some_0, ..o });
        } else if o.input is None && !is_option(a[i]) {
            lemma_brotli_named(a, i + 1, BrotliView { input: Some(a[i]), ..o });
        }
    } else if o.decompress {
        let f = o.input->Some_0;
        assert(f =~= f.take(f.len() - ".br"@.len()) + f.skip(f.len() - ".br"@.len()));
    }
}

/// What is read without an error names its input, which is one of the
/// arguments and no option. Without the option nothing is decompressed, and
/// with it something is.
pub proof fn brotli_reads_an_input(front: Seq<Seq<char>>, name: Seq<char>, rest: Seq<Seq<char>>)
    requires
        brotli_whole(brotli_from(front, 0, brotli_default())),
        name == "-d"@ || name == "--decompress"@,
    ensures
        match brotli_from(front, 0, brotli_default()) {
            Ok(a) => {
                &&& a.input is Some && !is_option(a.input->Some_0)
                &&& front.contains(a.input->Some_0)
                &&& brotli_without_decompress(front, 0) ==> !a.decompress
            },
            Err(_) => true,
        },
        match brotli_from(front + seq![name] + rest, 0, brotli_default()) {
            Ok(a) => {
                &&& a.decompress
                &&& match brotli_from(front + rest, 0, brotli_default()) {
                    Ok(b) => a == BrotliView { decompress: true, output: a.output, ..b } && (
                    !brotli_without_output(front + rest, 0) || is_named_after(a)),
                    Err(_) => true,
                }
            },
            Err(_) => true,
        },
{
    lemma_brotli_names();
    let d = brotli_default();
    let p = lemma_brotli_front(front, 0, d);
    let here = seq![name];
    let more = here + rest;
    assert(front + here + rest =~= front + more);
    assert(more[0] == here[0]);
    let q = BrotliView { decompress: true, ..p };
    lemma_brotli_shift(here, rest, 0, q);
    lemma_brotli_decompress(rest, 0, p);
    assert(brotli_ok(brotli_from(front + more, 0, d)) == brotli_ok(brotli_from(more, 0, p)));
    assert(brotli_ok(brotli_from(front + rest, 0, d)) == brotli_ok(brotli_from(rest, 0, p)));
    if brotli_from(front, 0, d) is Ok {
        lemma_brotli_input(front, 0, d);
        if brotli_without_decompress(front, 0) {
            lemma_brotli_no_decompress(front, 0, d);
        }
    }
    let all = front + more;
    if brotli_from(all, 0, d) is Ok && brotli_without_output(front + rest, 0) {
        assert forall|k: int| 0 <= k < all.len() implies #[trigger] all[k] != "-o"@ && all[k]
            != "--output"@ by {
            if k < front.len() {
                assert((front + rest)[k] == all[k]);
            } else if k > front.len() {
                assert((front + rest)[k - 1] == all[k]);
            }
        }
        lemma_brotli_named(all, 0, d);
    }
}

proof fn lemma_brotli_input(a: Seq<Seq<char>>, i: int, o: BrotliView)
    requires
        0 <= i,
        brotli_from(a, i, o) is Ok,
        o.input is Some ==> !is_option(o.input->Some_0) && a.contains(o.input->Some_0),
    ensures
        ({
            let r = brotli_from(a, i, o)->Ok_0;
            r.input is Some && !is_option(r.input->Some_0) && a.contains(r.input->Some_0)
        }),
    decreases a.len() - i,
{
    if i < a.len() {
        if is_one(a[i], "-d"@, "--decompress"@) {
            lemma_brotli_input(a, i + 1, BrotliView { decompress: true, ..o });
        } else if is_one(a[i], "-j"@, "--rm"@) {
            assert(a.contains(a[i]));
            lemma_brotli_input(a, i + 1, BrotliView { remove_input: true, ..o });
        } else if is_one(a[i], "-f"@, "--force"@) {
            lemma_brotli_input(a, i + 1, BrotliView { force: true, ..o });
        } else if is_one(a[i], "-o"@, "--output"@) {
            if i + 1 < a.len() {
                lemma_brotli_input(a, i + 2, BrotliView { output: Some(a[i + 1]), ..o });
            }
        } else if is_one(a[i], "-q"@, "--quality"@) {
            if i + 1 < a.len() {
                if let Some(x) = small_in(a[i + 1]) {
                    lemma_brotli_input(a, i + 2, BrotliView { quality: x, ..o });
                }
            }
        } else if is_one(a[i], "-w"@, "--lgwin"@) {
            if i + 1 < a.len() {
                if let Some(x) = small_in(a[i + 1]) {
                    lemma_brotli_input(a, i + 2, BrotliView { lgwin: x, ..o });
                }
            }
        } else if dash_number(a[i]) is Some {
            lemma_brotli_input(a, i + 1, BrotliView { quality: dash_number(a[i])->Some_0, ..o });
        } else if o.input is None && !is_option(a[i]) {
            assert(a.contains(a[i]));
            lemma_brotli_input(a, i + 1, BrotliView { input: Some(a[i]), ..o });
        }
    }
}

proof fn lemma_brotli_decompress(a: Seq<Seq<char>>, i: int, o: BrotliView)
    requires
        0 <= i,
    ensures
        match brotli_from(a, i, BrotliView { decompress: true, ..o }) {
            Ok(b) => b.decompress && match brotli_from(a, i, o) {
                Ok(c) => b == BrotliView { decompress: true, output: b.output, ..c },
                Err(_) => true,
            },
            Err(_) => true,
        },
    decreases a.len() - i,
{
    if i < a.len() {
        if is_one(a[i], "-d"@, "--decompress"@) {
            lemma_brotli_decompress(a, i + 1, BrotliView { decompress: true, ..o });
        } else if is_one(a[i], "-j"@, "--rm"@) {
            lemma_brotli_decompress(a, i + 1, BrotliView { remove_input: true, ..o });
        } else if is_one(a[i], "-f"@, "--force"@) {
            lemma_brotli_decompress(a, i + 1, BrotliView { force: true, ..o });
        } else if is_one(a[i], "-o"@, "--output"@) {
            if i + 1 < a.len() {
                lemma_brotli_decompress(a, i + 2, BrotliView { output: Some(a[i + 1]), ..o });
            }
        } else if is_one(a[i], "-q"@, "--quality"@) {
            if i + 1 < a.len() {
                if let Some(x) = small_in(a[i + 1]) {
                    lemma_brotli_decompress(a, i + 2, BrotliView { quality: x, ..o });
                }
            }
        } else if is_one(a[i], "-w"@, "--lgwin"@) {
            if i + 1 < a.len() {
                if let Some(x) = small_in(a[i + 1]) {
                    lemma_brotli_decompress(a, i + 2, BrotliView { lgwin: x, ..o });
                }
            }
        } else if dash_number(a[i]) is Some {
            lemma_brotli_decompress(a, i + 1, BrotliView { quality: dash_number(a[i])->Some_0,
                ..o });
        } else if o.input is None && !is_option(a[i]) {
            lemma_brotli_decompress(a, i + 1, BrotliView { input: Some(a[i]), ..o });
        }
    }
}

/// The arguments are refused where an option has no value, where the value is
/// no number of 32 bits, where an option is unknown and where there is a second
/// input; the error tells the place. Without an input there is nothing to do.
pub proof fn brotli_refuses(
    front: Seq<Seq<char>>,
    name: Seq<char>,
    value: Seq<char>,
    file: Seq<char>,
    rest: Seq<Seq<char>>,
)
    requires
        brotli_whole(brotli_from(front, 0, brotli_default())),
    ensures
        name == "-q"@ || name == "--quality"@ || name == "-w"@ || name == "--lgwin"@ || name
            == "-o"@ || name == "--output"@ ==> brotli_from(front + seq![name], 0, brotli_default())
            == Err::<BrotliView, ArgError>(ArgError::NeedsValue(front.len() as usize)),
        (name == "-q"@ || name == "--quality"@ || name == "-w"@ || name == "--lgwin"@) && (number(
            value,
            10,
        ) is None || number(value, 10)->Some_0 > u32::MAX) ==> brotli_from(
            front + seq![name, value] + rest,
            0,
            brotli_default(),
        ) == Err::<BrotliView, ArgError>(ArgError::BadValue(front.len() as usize)),
        file == "-"@ || file == "--unknown"@ || (!is_option(file) && brotli_from(
            front,
            0,
            brotli_default(),
        ) != Err::<BrotliView, ArgError>(ArgError::Usage)) ==> brotli_from(
            front + seq![file] + rest,
            0,
            brotli_default(),
        ) == Err::<BrotliView, ArgError>(ArgError::Unexpected(front.len() as usize)),
        brotli_from(Seq::empty(), 0, brotli_default()) == Err::<BrotliView, ArgError>(
            ArgError::Usage,
        ),
{
    lemma_brotli_names();
    reveal_strlit("-");
    reveal_strlit("--unknown");
    reveal_strlit(".br");
    assert("--unknown"@[2] == 'u');
    assert("-"@.len() == 1);
    let d = brotli_default();
    let p = lemma_brotli_front(front, 0, d);
    let n = front.len() as int;
    let one = front + seq![name];
    assert(brotli_from(one, 0, d) == brotli_from(one, n, p));
    assert(one[n] == name);
    let two = front + (seq![name, value] + rest);
    assert(front + seq![name, value] + rest =~= two);
    assert(brotli_from(two, 0, d) == brotli_from(two, n, p));
    assert(two[n] == name && two[n + 1] == value);
    let three = front + (seq![file] + rest);
    assert(front + seq![file] + rest =~= three);
    assert(brotli_from(three, 0, d) == brotli_from(three, n, p));
    assert(three[n] == file);
    if file == "--unknown"@ {
        let s = file.skip(1);
        assert(s[0] == '-');
        lemma_no_digits(s, s.len() as int);
    }
}

/// What is decompressed to no other place ends in `.br`, which the output does
/// without.
pub proof fn brotli_takes_the_ending_off(name: Seq<char>, file: Seq<char>)
    requires
        name == "-d"@ || name == "--decompress"@,
        !is_option(file),
    ensures
        match brotli_from(seq![name, file], 0, brotli_default()) {
            Ok(a) => exists|plain: Seq<char>| #[trigger]
                (plain + ".br"@) == file && a == (BrotliView {
                    decompress: true,
                    remove_input: false,
                    force: false,
                    quality: 1,
                    lgwin: 24,
                    input: Some(file),
                    output: Some(plain),
                }),
            Err(e) => e == ArgError::NoExtension && forall|plain: Seq<char>| #[trigger]
                (plain + ".br"@) != file,
        },
{
    lemma_brotli_names();
    reveal_strlit(".br");
    reveal_with_fuel(brotli_from, 3);
    let args = seq![name, file];
    assert(args[0] == name && args[1] == file);
    if has_suffix(file, ".br"@) {
        let plain = file.take(file.len() - 3);
        assert(file.skip(file.len() - 3) == ".br"@);
        assert(plain + ".br"@ =~= file);
    } else {
        assert forall|plain: Seq<char>| #[trigger] (plain + ".br"@) != file by {
            let f = plain + ".br"@;
            assert(f.skip(f.len() - 3) =~= ".br"@);
        }
    }
}

/// No number starts with a dash.
proof fn lemma_no_digits(s: Seq<char>, n: int)
    requires
        0 < n <= s.len(),
        s[0] == '-',
    ensures
        digits(s, 10, n) is None,
    decreases n,
{
    if n > 1 {
        lemma_no_digits(s, n - 1);
    }
}

/// One file is compressed beside itself with the default quality and window.
/// With a quality before it, that is taken.
pub proof fn brotli_reads_a_quality(name: Seq<char>, n: u32, file: Seq<char>)
    requires
        name == "-q"@ || name == "--quality"@,
        !is_option(file),
    ensures
        brotli_from(seq![file], 0, brotli_default()) == Ok::<BrotliView, ArgError>(
            BrotliView {
                decompress: false,
                remove_input: false,
                force: false,
                quality: 1,
                lgwin: 24,
                input: Some(file),
                output: Some(file + ".br"@),
            },
        ),
        brotli_from(seq![name, decimal(n as nat), file], 0, brotli_default()) == Ok::<
            BrotliView,
            ArgError,
        >(
            BrotliView {
                decompress: false,
                remove_input: false,
                force: false,
                quality: n,
                lgwin: 24,
                input: Some(file),
                output: Some(file + ".br"@),
            },
        ),
{
    let none = Seq::<Seq<char>>::empty();
    let args = seq![file];
    let here = seq![name, decimal(n as nat)];
    lemma_brotli_names();
    reveal_with_fuel(brotli_from, 2);
    assert(args[0] == file);
    brotli_takes_quality(none, name, n, args);
    assert(none + here + args =~= seq![name, decimal(n as nat), file]);
    assert(none + args =~= args);
}

} // verus!
