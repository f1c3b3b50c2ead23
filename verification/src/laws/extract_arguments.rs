//! What the arguments of `extract` are read as.
use vstd::prelude::*;
use crate::cli::{extract_default, extract_from, is_one, is_option, ArgError, ExtractView};

verus! {

/// What is read where nothing is wrong.
pub open spec fn extract_ok(r: Result<ExtractView, ArgError>) -> Option<ExtractView> {
    match r {
        Ok(a) => Some(a),
        Err(_) => None,
    }
}

/// Arguments that no option without its value ends, and with nothing wrong so
/// far.
pub open spec fn extract_whole(r: Result<ExtractView, ArgError>) -> bool {
    match r {
        Ok(_) => true,
        Err(e) => e == ArgError::Usage || e == ArgError::NoExtension,
    }
}

proof fn lemma_extract_shift(front: Seq<Seq<char>>, rest: Seq<Seq<char>>, i: int, o: ExtractView)
    requires
        0 <= i,
    ensures
        extract_ok(extract_from(front + rest, front.len() + i, o))
            == extract_ok(extract_from(rest, i, o)),
    decreases rest.len() - i,
{
    let all = front + rest;
    let a = rest;
    if i < rest.len() {
        assert(all[front.len() + i] == rest[i]);
        if i + 1 < rest.len() {
            assert(all[front.len() + i + 1] == rest[i + 1]);
        }
        if is_one(a[i], "-o"@, "--outdir"@) {
            if i + 1 < a.len() {
                lemma_extract_shift(front, rest, i + 2, ExtractView { out_dir: a[i + 1], ..o });
            }
        } else if is_one(a[i], "-p"@, "--part"@) {
            if i + 1 < a.len() {
                lemma_extract_shift(front, rest, i + 2, ExtractView { part: Some(a[i + 1]), ..o });
            }
        } else if o.image is None && !is_option(a[i]) {
            lemma_extract_shift(front, rest, i + 1, ExtractView { image: Some(a[i]), ..o });
        }
    }
}

proof fn lemma_extract_front(a: Seq<Seq<char>>, i: int, o: ExtractView) -> (p: ExtractView)
    requires
        0 <= i <= a.len(),
        extract_whole(extract_from(a, i, o)),
    ensures
        extract_from(a, a.len() as int, p) == extract_from(a, i, o),
        forall|rest: Seq<Seq<char>>| #[trigger]
            extract_from(a + rest, i, o) == extract_from(a + rest, a.len() as int, p) && extract_ok(
                extract_from(a + rest, i, o),
            ) == extract_ok(extract_from(rest, 0, p)),
    decreases a.len() - i,
{
    if i >= a.len() {
        assert forall|rest: Seq<Seq<char>>| #[trigger]
            extract_from(a + rest, i, o) == extract_from(a + rest, a.len() as int, o) && extract_ok(
            extract_from(a + rest, i, o),
        ) == extract_ok(extract_from(rest, 0, o)) by {
            lemma_extract_shift(a, rest, 0, o);
        }
        o
    } else {
        let mut p = o;
        if is_one(a[i], "-o"@, "--outdir"@) {
            if i + 1 < a.len() {
                let q = ExtractView { out_dir: a[i + 1], ..o };
                p = lemma_extract_front(a, i + 2, q);
                let r = p;
                assert forall|rest: Seq<Seq<char>>| #[trigger]
                    extract_from(a + rest, i, o) == extract_from(a + rest, a.len() as int, r)
                        && extract_ok(
                    extract_from(a + rest, i, o),
                ) == extract_ok(extract_from(rest, 0, r)) by {
                    assert((a + rest)[i] == a[i]);
                    if i + 1 < a.len() {
                        assert((a + rest)[i + 1] == a[i + 1]);
                    }
                    assert(extract_from(a + rest, i + 2, q)
                        == extract_from(a + rest, a.len() as int, r));
                }
            }
        } else if is_one(a[i], "-p"@, "--part"@) {
            if i + 1 < a.len() {
                let q = ExtractView { part: Some(a[i + 1]), ..o };
                p = lemma_extract_front(a, i + 2, q);
                let r = p;
                assert forall|rest: Seq<Seq<char>>| #[trigger]
                    extract_from(a + rest, i, o) == extract_from(a + rest, a.len() as int, r)
                        && extract_ok(
                    extract_from(a + rest, i, o),
                ) == extract_ok(extract_from(rest, 0, r)) by {
                    assert((a + rest)[i] == a[i]);
                    if i + 1 < a.len() {
                        assert((a + rest)[i + 1] == a[i + 1]);
                    }
                    assert(extract_from(a + rest, i + 2, q)
                        == extract_from(a + rest, a.len() as int, r));
                }
            }
        } else if o.image is None && !is_option(a[i]) {
            let q = ExtractView { image: Some(a[i]), ..o };
            p = lemma_extract_front(a, i + 1, q);
            let r = p;
            assert forall|rest: Seq<Seq<char>>| #[trigger]
                extract_from(a + rest, i, o) == extract_from(a + rest, a.len() as int, r)
                    && extract_ok(
                extract_from(a + rest, i, o),
            ) == extract_ok(extract_from(rest, 0, r)) by {
                assert((a + rest)[i] == a[i]);
                if i + 1 < a.len() {
                    assert((a + rest)[i + 1] == a[i + 1]);
                }
                assert(extract_from(a + rest, i + 1, q)
                    == extract_from(a + rest, a.len() as int, r));
            }
        }
        p
    }
}

/// The names of the options, letter by letter.
proof fn lemma_extract_names()
    ensures
        "-o"@.len() == 2 && "-o"@[0] == '-' && "-o"@[1] == 'o',
        "--outdir"@.len() == 8 && "--outdir"@[0] == '-' && "--outdir"@[1] == '-' && "--outdir"@[2]
            == 'o',
        "-p"@.len() == 2 && "-p"@[0] == '-' && "-p"@[1] == 'p',
        "--part"@.len() == 6 && "--part"@[0] == '-' && "--part"@[1] == '-' && "--part"@[2] == 'p',
{
    reveal_strlit("-o");
    reveal_strlit("--outdir");
    reveal_strlit("-p");
    reveal_strlit("--part");
}

/// No argument sets the option.
pub open spec fn extract_without_out_dir(a: Seq<Seq<char>>, i: int) -> bool {
    forall|k: int|
        i <= k < a.len() ==> #[trigger] a[k] != "-o"@ && a[k] != "--outdir"@
}

proof fn lemma_extract_out_dir(a: Seq<Seq<char>>, i: int, o: ExtractView, v: Seq<char>)
    requires
        0 <= i,
        extract_without_out_dir(a, i),
    ensures
        match extract_ok(extract_from(a, i, o)) {
            Some(b) => extract_from(a, i, ExtractView { out_dir: v, ..o }) == Ok::<ExtractView,
                ArgError>(
                ExtractView { out_dir: v, ..b },
            ),
            None => extract_from(a, i, ExtractView { out_dir: v, ..o }) is Err,
        },
    decreases a.len() - i,
{
    if i < a.len() {
        assert(a[i] != "-o"@);
        if is_one(a[i], "-o"@, "--outdir"@) {
            if i + 1 < a.len() {
                lemma_extract_out_dir(a, i + 2, ExtractView { out_dir: a[i + 1], ..o }, v);
            }
        } else if is_one(a[i], "-p"@, "--part"@) {
            if i + 1 < a.len() {
                lemma_extract_out_dir(a, i + 2, ExtractView { part: Some(a[i + 1]), ..o }, v);
            }
        } else if o.image is None && !is_option(a[i]) {
            lemma_extract_out_dir(a, i + 1, ExtractView { image: Some(a[i]), ..o }, v);
        }
    }
}

/// The option sets `out_dir` to its value, wherever it stands before no other that
/// does. Without one the default stays.
pub proof fn extract_takes_out_dir(front: Seq<Seq<char>>, name: Seq<char>, value: Seq<char>,
    rest: Seq<Seq<char>>)
    requires
        extract_whole(extract_from(front, 0, extract_default())),
        name == "-o"@ || name == "--outdir"@,
        extract_without_out_dir(rest, 0),
    ensures
        match extract_ok(extract_from(front + rest, 0, extract_default())) {
            Some(b) => extract_from(front + seq![name, value] + rest, 0, extract_default())
                == Ok::<ExtractView, ArgError>(
                ExtractView { out_dir: value, ..b },
            ),
            None => extract_from(front + seq![name, value] + rest, 0, extract_default()) is Err,
        },
        extract_without_out_dir(front, 0) && extract_from(front, 0, extract_default()) is Ok
            ==> extract_from(front, 0, extract_default())->Ok_0.out_dir == "."@,
{
    let p = lemma_extract_front(front, 0, extract_default());
    let here = seq![name, value];
    let more = here + rest;
    assert(front + here + rest =~= front + more);
    assert(more[0] == here[0]);
    lemma_extract_names();
    assert(more[1] == here[1]);
    lemma_extract_shift(here, rest, 0, ExtractView { out_dir: value, ..p });
    lemma_extract_out_dir(rest, 0, p, value);
    if extract_without_out_dir(front, 0) {
        lemma_extract_out_dir(front, 0, extract_default(), extract_default().out_dir);
    }
    assert(extract_ok(extract_from(front + more, 0, extract_default()))
        == extract_ok(extract_from(more, 0, p)));
    assert(extract_ok(extract_from(front + rest, 0, extract_default()))
        == extract_ok(extract_from(rest, 0, p)));
}

/// No argument sets the option.
pub open spec fn extract_without_part(a: Seq<Seq<char>>, i: int) -> bool {
    forall|k: int|
        i <= k < a.len() ==> #[trigger] a[k] != "-p"@ && a[k] != "--part"@
}

proof fn lemma_extract_part(a: Seq<Seq<char>>, i: int, o: ExtractView, v: Option<Seq<char>>)
    requires
        0 <= i,
        extract_without_part(a, i),
    ensures
        match extract_ok(extract_from(a, i, o)) {
            Some(b) => extract_from(a, i, ExtractView { part: v, ..o }) == Ok::<ExtractView,
                ArgError>(
                ExtractView { part: v, ..b },
            ),
            None => extract_from(a, i, ExtractView { part: v, ..o }) is Err,
        },
    decreases a.len() - i,
{
    if i < a.len() {
        assert(a[i] != "-p"@);
        if is_one(a[i], "-o"@, "--outdir"@) {
            if i + 1 < a.len() {
                lemma_extract_part(a, i + 2, ExtractView { out_dir: a[i + 1], ..o }, v);
            }
        } else if is_one(a[i], "-p"@, "--part"@) {
            if i + 1 < a.len() {
                lemma_extract_part(a, i + 2, ExtractView { part: Some(a[i + 1]), ..o }, v);
            }
        } else if o.image is None && !is_option(a[i]) {
            lemma_extract_part(a, i + 1, ExtractView { image: Some(a[i]), ..o }, v);
        }
    }
}

/// The option sets `part` to its value, wherever it stands before no other that
/// does. Without one the default stays.
pub proof fn extract_takes_part(front: Seq<Seq<char>>, name: Seq<char>, value: Seq<char>,
    rest: Seq<Seq<char>>)
    requires
        extract_whole(extract_from(front, 0, extract_default())),
        name == "-p"@ || name == "--part"@,
        extract_without_part(rest, 0),
    ensures
        match extract_ok(extract_from(front + rest, 0, extract_default())) {
            Some(b) => extract_from(front + seq![name, value] + rest, 0, extract_default())
                == Ok::<ExtractView, ArgError>(
                ExtractView { part: Some(value), ..b },
            ),
            None => extract_from(front + seq![name, value] + rest, 0, extract_default()) is Err,
        },
        extract_without_part(front, 0) && extract_from(front, 0, extract_default()) is Ok
            ==> extract_from(front, 0, extract_default())->Ok_0.part is None,
{
    let p = lemma_extract_front(front, 0, extract_default());
    let here = seq![name, value];
    let more = here + rest;
    assert(front + here + rest =~= front + more);
    assert(more[0] == here[0]);
    lemma_extract_names();
    assert(more[1] == here[1]);
    lemma_extract_shift(here, rest, 0, ExtractView { part: Some(value), ..p });
    lemma_extract_part(rest, 0, p, Some(value));
    if extract_without_part(front, 0) {
        lemma_extract_part(front, 0, extract_default(), extract_default().part);
    }
    assert(extract_ok(extract_from(front + more, 0, extract_default()))
        == extract_ok(extract_from(more, 0, p)));
    assert(extract_ok(extract_from(front + rest, 0, extract_default()))
        == extract_ok(extract_from(rest, 0, p)));
}

/// One image by itself is read with the defaults.
pub proof fn extract_reads_an_image(image: Seq<char>)
    requires
        !is_option(image),
    ensures
        extract_from(seq![image], 0, extract_default()) == Ok::<ExtractView, ArgError>(
            ExtractView { image: Some(image), out_dir: "."@, part: None },
        ),
{
    lemma_extract_names();
    reveal_with_fuel(extract_from, 2);
    let args = seq![image];
    assert(args[0] == image);
}

proof fn lemma_extract_image(a: Seq<Seq<char>>, i: int, o: ExtractView)
    requires
        0 <= i,
        extract_from(a, i, o) is Ok,
        o.image is Some ==> !is_option(o.image->Some_0) && a.contains(o.image->Some_0),
    ensures
        ({
            let r = extract_from(a, i, o)->Ok_0;
            r.image is Some && !is_option(r.image->Some_0) && a.contains(r.image->Some_0)
        }),
    decreases a.len() - i,
{
    if i < a.len() {
        if is_one(a[i], "-o"@, "--outdir"@) {
            if i + 1 < a.len() {
                lemma_extract_image(a, i + 2, ExtractView { out_dir: a[i + 1], ..o });
            }
        } else if is_one(a[i], "-p"@, "--part"@) {
            if i + 1 < a.len() {
                lemma_extract_image(a, i + 2, ExtractView { part: Some(a[i + 1]), ..o });
            }
        } else if o.image is None && !is_option(a[i]) {
            assert(a.contains(a[i]));
            lemma_extract_image(a, i + 1, ExtractView { image: Some(a[i]), ..o });
        }
    }
}

/// The image that is read is one of the arguments, and no option.
pub proof fn extract_image_is_an_argument(args: Seq<Seq<char>>)
    requires
        extract_from(args, 0, extract_default()) is Ok,
    ensures
        ({
            let r = extract_from(args, 0, extract_default())->Ok_0;
            r.image is Some && !is_option(r.image->Some_0) && args.contains(r.image->Some_0)
        }),
{
    lemma_extract_image(args, 0, extract_default());
}

/// The arguments are refused where an option has no value and where an
/// option is unknown or there is a second file; the error tells the place. Without arguments
/// there is nothing to do.
pub proof fn extract_refuses(
    front: Seq<Seq<char>>,
    name: Seq<char>,
    value: Seq<char>,
    file: Seq<char>,
    rest: Seq<Seq<char>>,
)
    requires
        extract_whole(extract_from(front, 0, extract_default())),
    ensures
        name == "-o"@ || name == "--outdir"@ || name == "-p"@ || name == "--part"@
            ==> extract_from(front + seq![name], 0, extract_default()) == Err::<ExtractView,
            ArgError>(
            ArgError::NeedsValue(front.len() as usize),
        ),
        file == "-"@ || file == "--unknown"@ || (!is_option(file)
            && extract_from(front, 0, extract_default()) is Ok)
            ==> extract_from(front + seq![file] + rest, 0, extract_default())
            == Err::<ExtractView, ArgError>(ArgError::Unexpected(front.len() as usize)),
        extract_from(Seq::empty(), 0, extract_default()) == Err::<ExtractView,
            ArgError>(ArgError::Usage),
{
    lemma_extract_names();
    reveal_strlit("-");
    reveal_strlit("--unknown");
    assert("--unknown"@[2] == 'u');
    assert("-"@.len() == 1);
    let d = extract_default();
    let p = lemma_extract_front(front, 0, d);
    let n = front.len() as int;
    let one = front + seq![name];
    assert(extract_from(one, 0, d) == extract_from(one, n, p));
    assert(one[n] == name);
    let two = front + (seq![name, value] + rest);
    assert(front + seq![name, value] + rest =~= two);
    assert(extract_from(two, 0, d) == extract_from(two, n, p));
    assert(two[n] == name && two[n + 1] == value);
    let three = front + (seq![file] + rest);
    assert(front + seq![file] + rest =~= three);
    assert(extract_from(three, 0, d) == extract_from(three, n, p));
    assert(three[n] == file);
}

} // verus!
