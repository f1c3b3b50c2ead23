//! What the arguments of `img2sdat` are read as.
use vstd::prelude::*;
use crate::cli::{img2sdat_default, img2sdat_from, is_one, is_option, small_in, ArgError,
    Img2sdatView};
use crate::laws::texts::decimal_reads_back;
use crate::text::decimal;
use crate::words::number;

verus! {

/// What is read where nothing is wrong.
pub open spec fn img2sdat_ok(r: Result<Img2sdatView, ArgError>) -> Option<Img2sdatView> {
    match r {
        Ok(a) => Some(a),
        Err(_) => None,
    }
}

/// Arguments that no option without its value ends, and with nothing wrong so
/// far.
pub open spec fn img2sdat_whole(r: Result<Img2sdatView, ArgError>) -> bool {
    match r {
        Ok(_) => true,
        Err(e) => e == ArgError::Usage || e == ArgError::NoExtension,
    }
}

proof fn lemma_img2sdat_shift(front: Seq<Seq<char>>, rest: Seq<Seq<char>>, i: int, o: Img2sdatView)
    requires
        0 <= i,
    ensures
        img2sdat_ok(img2sdat_from(front + rest, front.len() + i, o))
            == img2sdat_ok(img2sdat_from(rest, i, o)),
    decreases rest.len() - i,
{
    let all = front + rest;
    let a = rest;
    if i < rest.len() {
        assert(all[front.len() + i] == rest[i]);
        if i + 1 < rest.len() {
            assert(all[front.len() + i + 1] == rest[i + 1]);
        }
        if is_one(a[i], "-o"@, "--outdir"@) {
            if i + 1 < a.len() {
                lemma_img2sdat_shift(front, rest, i + 2, Img2sdatView { out_dir: a[i + 1], ..o });
            }
        } else if is_one(a[i], "-p"@, "--prefix"@) {
            if i + 1 < a.len() {
                lemma_img2sdat_shift(front, rest, i + 2, Img2sdatView { prefix: a[i + 1], ..o });
            }
        } else if is_one(a[i], "-v"@, "--version"@) {
            if i + 1 < a.len() {
                if let Some(x) = small_in(a[i + 1]) {
                    lemma_img2sdat_shift(front, rest, i + 2, Img2sdatView { version: x, ..o });
                }
            }
        } else if is_one(a[i], "-b"@, "--brotli"@) {
            if i + 1 < a.len() {
                if let Some(x) = small_in(a[i + 1]) {
                    lemma_img2sdat_shift(front, rest, i + 2, Img2sdatView { brotli: Some(x), ..o });
                }
            }
        } else if o.image is None && !is_option(a[i]) {
            lemma_img2sdat_shift(front, rest, i + 1, Img2sdatView { image: Some(a[i]), ..o });
        }
    }
}

proof fn lemma_img2sdat_front(a: Seq<Seq<char>>, i: int, o: Img2sdatView) -> (p: Img2sdatView)
    requires
        0 <= i <= a.len(),
        img2sdat_whole(img2sdat_from(a, i, o)),
    ensures
        img2sdat_from(a, a.len() as int, p) == img2sdat_from(a, i, o),
        forall|rest: Seq<Seq<char>>| #[trigger]
            img2sdat_from(a + rest, i, o) == img2sdat_from(a + rest, a.len() as int, p)
                && img2sdat_ok(
                img2sdat_from(a + rest, i, o),
            ) == img2sdat_ok(img2sdat_from(rest, 0, p)),
    decreases a.len() - i,
{
    if i >= a.len() {
        assert forall|rest: Seq<Seq<char>>| #[trigger]
            img2sdat_from(a + rest, i, o) == img2sdat_from(a + rest, a.len() as int, o)
                && img2sdat_ok(
            img2sdat_from(a + rest, i, o),
        ) == img2sdat_ok(img2sdat_from(rest, 0, o)) by {
            lemma_img2sdat_shift(a, rest, 0, o);
        }
        o
    } else {
        let mut p = o;
        if is_one(a[i], "-o"@, "--outdir"@) {
            if i + 1 < a.len() {
                let q = Img2sdatView { out_dir: a[i + 1], ..o };
                p = lemma_img2sdat_front(a, i + 2, q);
                let r = p;
                assert forall|rest: Seq<Seq<char>>| #[trigger]
                    img2sdat_from(a + rest, i, o) == img2sdat_from(a + rest, a.len() as int, r)
                        && img2sdat_ok(
                    img2sdat_from(a + rest, i, o),
                ) == img2sdat_ok(img2sdat_from(rest, 0, r)) by {
                    assert((a + rest)[i] == a[i]);
                    if i + 1 < a.len() {
                        assert((a + rest)[i + 1] == a[i + 1]);
                    }
                    assert(img2sdat_from(a + rest, i + 2, q)
                        == img2sdat_from(a + rest, a.len() as int, r));
                }
            }
        } else if is_one(a[i], "-p"@, "--prefix"@) {
            if i + 1 < a.len() {
                let q = Img2sdatView { prefix: a[i + 1], ..o };
                p = lemma_img2sdat_front(a, i + 2, q);
                let r = p;
                assert forall|rest: Seq<Seq<char>>| #[trigger]
                    img2sdat_from(a + rest, i, o) == img2sdat_from(a + rest, a.len() as int, r)
                        && img2sdat_ok(
                    img2sdat_from(a + rest, i, o),
                ) == img2sdat_ok(img2sdat_from(rest, 0, r)) by {
                    assert((a + rest)[i] == a[i]);
                    if i + 1 < a.len() {
                        assert((a + rest)[i + 1] == a[i + 1]);
                    }
                    assert(img2sdat_from(a + rest, i + 2, q)
                        == img2sdat_from(a + rest, a.len() as int, r));
                }
            }
        } else if is_one(a[i], "-v"@, "--version"@) {
            if i + 1 < a.len() {
                if let Some(x) = small_in(a[i + 1]) {
                    let q = Img2sdatView { version: x, ..o };
                    p = lemma_img2sdat_front(a, i + 2, q);
                    let r = p;
                    assert forall|rest: Seq<Seq<char>>| #[trigger]
                        img2sdat_from(a + rest, i, o) == img2sdat_from(a + rest, a.len() as int, r)
                            && img2sdat_ok(
                        img2sdat_from(a + rest, i, o),
                    ) == img2sdat_ok(img2sdat_from(rest, 0, r)) by {
                        assert((a + rest)[i] == a[i]);
                        if i + 1 < a.len() {
                            assert((a + rest)[i + 1] == a[i + 1]);
                        }
                        assert(img2sdat_from(a + rest, i + 2, q)
                            == img2sdat_from(a + rest, a.len() as int, r));
                    }
                }
            }
        } else if is_one(a[i], "-b"@, "--brotli"@) {
            if i + 1 < a.len() {
                if let Some(x) = small_in(a[i + 1]) {
                    let q = Img2sdatView { brotli: Some(x), ..o };
                    p = lemma_img2sdat_front(a, i + 2, q);
                    let r = p;
                    assert forall|rest: Seq<Seq<char>>| #[trigger]
                        img2sdat_from(a + rest, i, o) == img2sdat_from(a + rest, a.len() as int, r)
                            && img2sdat_ok(
                        img2sdat_from(a + rest, i, o),
                    ) == img2sdat_ok(img2sdat_from(rest, 0, r)) by {
                        assert((a + rest)[i] == a[i]);
                        if i + 1 < a.len() {
                            assert((a + rest)[i + 1] == a[i + 1]);
                        }
                        assert(img2sdat_from(a + rest, i + 2, q)
                            == img2sdat_from(a + rest, a.len() as int, r));
                    }
                }
            }
        } else if o.image is None && !is_option(a[i]) {
            let q = Img2sdatView { image: Some(a[i]), ..o };
            p = lemma_img2sdat_front(a, i + 1, q);
            let r = p;
            assert forall|rest: Seq<Seq<char>>| #[trigger]
                img2sdat_from(a + rest, i, o) == img2sdat_from(a + rest, a.len() as int, r)
                    && img2sdat_ok(
                img2sdat_from(a + rest, i, o),
            ) == img2sdat_ok(img2sdat_from(rest, 0, r)) by {
                assert((a + rest)[i] == a[i]);
                if i + 1 < a.len() {
                    assert((a + rest)[i + 1] == a[i + 1]);
                }
                assert(img2sdat_from(a + rest, i + 1, q)
                    == img2sdat_from(a + rest, a.len() as int, r));
            }
        }
        p
    }
}

/// The names of the options, letter by letter.
proof fn lemma_img2sdat_names()
    ensures
        "-o"@.len() == 2 && "-o"@[0] == '-' && "-o"@[1] == 'o',
        "--outdir"@.len() == 8 && "--outdir"@[0] == '-' && "--outdir"@[1] == '-' && "--outdir"@[2]
            == 'o',
        "-p"@.len() == 2 && "-p"@[0] == '-' && "-p"@[1] == 'p',
        "--prefix"@.len() == 8 && "--prefix"@[0] == '-' && "--prefix"@[1] == '-' && "--prefix"@[2]
            == 'p',
        "-v"@.len() == 2 && "-v"@[0] == '-' && "-v"@[1] == 'v',
        "--version"@.len() == 9 && "--version"@[0] == '-' && "--version"@[1] == '-'
            && "--version"@[2] == 'v',
        "-b"@.len() == 2 && "-b"@[0] == '-' && "-b"@[1] == 'b',
        "--brotli"@.len() == 8 && "--brotli"@[0] == '-' && "--brotli"@[1] == '-' && "--brotli"@[2]
            == 'b',
{
    reveal_strlit("-o");
    reveal_strlit("--outdir");
    reveal_strlit("-p");
    reveal_strlit("--prefix");
    reveal_strlit("-v");
    reveal_strlit("--version");
    reveal_strlit("-b");
    reveal_strlit("--brotli");
}

/// No argument sets the option.
pub open spec fn img2sdat_without_out_dir(a: Seq<Seq<char>>, i: int) -> bool {
    forall|k: int|
        i <= k < a.len() ==> #[trigger] a[k] != "-o"@ && a[k] != "--outdir"@
}

proof fn lemma_img2sdat_out_dir(a: Seq<Seq<char>>, i: int, o: Img2sdatView, v: Seq<char>)
    requires
        0 <= i,
        img2sdat_without_out_dir(a, i),
    ensures
        match img2sdat_ok(img2sdat_from(a, i, o)) {
            Some(b) => img2sdat_from(a, i, Img2sdatView { out_dir: v, ..o }) == Ok::<Img2sdatView,
                ArgError>(
                Img2sdatView { out_dir: v, ..b },
            ),
            None => img2sdat_from(a, i, Img2sdatView { out_dir: v, ..o }) is Err,
        },
    decreases a.len() - i,
{
    if i < a.len() {
        assert(a[i] != "-o"@);
        if is_one(a[i], "-o"@, "--outdir"@) {
            if i + 1 < a.len() {
                lemma_img2sdat_out_dir(a, i + 2, Img2sdatView { out_dir: a[i + 1], ..o }, v);
            }
        } else if is_one(a[i], "-p"@, "--prefix"@) {
            if i + 1 < a.len() {
                lemma_img2sdat_out_dir(a, i + 2, Img2sdatView { prefix: a[i + 1], ..o }, v);
            }
        } else if is_one(a[i], "-v"@, "--version"@) {
            if i + 1 < a.len() {
                if let Some(x) = small_in(a[i + 1]) {
                    lemma_img2sdat_out_dir(a, i + 2, Img2sdatView { version: x, ..o }, v);
                }
            }
        } else if is_one(a[i], "-b"@, "--brotli"@) {
            if i + 1 < a.len() {
                if let Some(x) = small_in(a[i + 1]) {
                    lemma_img2sdat_out_dir(a, i + 2, Img2sdatView { brotli: Some(x), ..o }, v);
                }
            }
        } else if o.image is None && !is_option(a[i]) {
            lemma_img2sdat_out_dir(a, i + 1, Img2sdatView { image: Some(a[i]), ..o }, v);
        }
    }
}

/// The option sets `out_dir` to its value, wherever it stands before no other that
/// does. Without one the default stays.
pub proof fn img2sdat_takes_out_dir(front: Seq<Seq<char>>, name: Seq<char>, value: Seq<char>,
    rest: Seq<Seq<char>>)
    requires
        img2sdat_whole(img2sdat_from(front, 0, img2sdat_default())),
        name == "-o"@ || name == "--outdir"@,
        img2sdat_without_out_dir(rest, 0),
    ensures
        match img2sdat_ok(img2sdat_from(front + rest, 0, img2sdat_default())) {
            Some(b) => img2sdat_from(front + seq![name, value] + rest, 0, img2sdat_default())
                == Ok::<Img2sdatView, ArgError>(
                Img2sdatView { out_dir: value, ..b },
            ),
            None => img2sdat_from(front + seq![name, value] + rest, 0, img2sdat_default()) is Err,
        },
        img2sdat_without_out_dir(front, 0) && img2sdat_from(front, 0, img2sdat_default()) is Ok
            ==> img2sdat_from(front, 0, img2sdat_default())->Ok_0.out_dir == "."@,
{
    let p = lemma_img2sdat_front(front, 0, img2sdat_default());
    let here = seq![name, value];
    let more = here + rest;
    assert(front + here + rest =~= front + more);
    assert(more[0] == here[0]);
    lemma_img2sdat_names();
    assert(more[1] == here[1]);
    lemma_img2sdat_shift(here, rest, 0, Img2sdatView { out_dir: value, ..p });
    lemma_img2sdat_out_dir(rest, 0, p, value);
    if img2sdat_without_out_dir(front, 0) {
        lemma_img2sdat_out_dir(front, 0, img2sdat_default(), img2sdat_default().out_dir);
    }
    assert(img2sdat_ok(img2sdat_from(front + more, 0, img2sdat_default()))
        == img2sdat_ok(img2sdat_from(more, 0, p)));
    assert(img2sdat_ok(img2sdat_from(front + rest, 0, img2sdat_default()))
        == img2sdat_ok(img2sdat_from(rest, 0, p)));
}

/// No argument sets the option.
pub open spec fn img2sdat_without_prefix(a: Seq<Seq<char>>, i: int) -> bool {
    forall|k: int|
        i <= k < a.len() ==> #[trigger] a[k] != "-p"@ && a[k] != "--prefix"@
}

proof fn lemma_img2sdat_prefix(a: Seq<Seq<char>>, i: int, o: Img2sdatView, v: Seq<char>)
    requires
        0 <= i,
        img2sdat_without_prefix(a, i),
    ensures
        match img2sdat_ok(img2sdat_from(a, i, o)) {
            Some(b) => img2sdat_from(a, i, Img2sdatView { prefix: v, ..o }) == Ok::<Img2sdatView,
                ArgError>(
                Img2sdatView { prefix: v, ..b },
            ),
            None => img2sdat_from(a, i, Img2sdatView { prefix: v, ..o }) is Err,
        },
    decreases a.len() - i,
{
    if i < a.len() {
        assert(a[i] != "-p"@);
        if is_one(a[i], "-o"@, "--outdir"@) {
            if i + 1 < a.len() {
                lemma_img2sdat_prefix(a, i + 2, Img2sdatView { out_dir: a[i + 1], ..o }, v);
            }
        } else if is_one(a[i], "-p"@, "--prefix"@) {
            if i + 1 < a.len() {
                lemma_img2sdat_prefix(a, i + 2, Img2sdatView { prefix: a[i + 1], ..o }, v);
            }
        } else if is_one(a[i], "-v"@, "--version"@) {
            if i + 1 < a.len() {
                if let Some(x) = small_in(a[i + 1]) {
                    lemma_img2sdat_prefix(a, i + 2, Img2sdatView { version: x, ..o }, v);
                }
            }
        } else if is_one(a[i], "-b"@, "--brotli"@) {
            if i + 1 < a.len() {
                if let Some(x) = small_in(a[i + 1]) {
                    lemma_img2sdat_prefix(a, i + 2, Img2sdatView { brotli: Some(x), ..o }, v);
                }
            }
        } else if o.image is None && !is_option(a[i]) {
            lemma_img2sdat_prefix(a, i + 1, Img2sdatView { image: Some(a[i]), ..o }, v);
        }
    }
}

/// The option sets `prefix` to its value, wherever it stands before no other that
/// does. Without one the default stays.
pub proof fn img2sdat_takes_prefix(front: Seq<Seq<char>>, name: Seq<char>, value: Seq<char>,
    rest: Seq<Seq<char>>)
    requires
        img2sdat_whole(img2sdat_from(front, 0, img2sdat_default())),
        name == "-p"@ || name == "--prefix"@,
        img2sdat_without_prefix(rest, 0),
    ensures
        match img2sdat_ok(img2sdat_from(front + rest, 0, img2sdat_default())) {
            Some(b) => img2sdat_from(front + seq![name, value] + rest, 0, img2sdat_default())
                == Ok::<Img2sdatView, ArgError>(
                Img2sdatView { prefix: value, ..b },
            ),
            None => img2sdat_from(front + seq![name, value] + rest, 0, img2sdat_default()) is Err,
        },
        img2sdat_without_prefix(front, 0) && img2sdat_from(front, 0, img2sdat_default()) is Ok
            ==> img2sdat_from(front, 0, img2sdat_default())->Ok_0.prefix == "system"@,
{
    let p = lemma_img2sdat_front(front, 0, img2sdat_default());
    let here = seq![name, value];
    let more = here + rest;
    assert(front + here + rest =~= front + more);
    assert(more[0] == here[0]);
    lemma_img2sdat_names();
    assert(more[1] == here[1]);
    lemma_img2sdat_shift(here, rest, 0, Img2sdatView { prefix: value, ..p });
    lemma_img2sdat_prefix(rest, 0, p, value);
    if img2sdat_without_prefix(front, 0) {
        lemma_img2sdat_prefix(front, 0, img2sdat_default(), img2sdat_default().prefix);
    }
    assert(img2sdat_ok(img2sdat_from(front + more, 0, img2sdat_default()))
        == img2sdat_ok(img2sdat_from(more, 0, p)));
    assert(img2sdat_ok(img2sdat_from(front + rest, 0, img2sdat_default()))
        == img2sdat_ok(img2sdat_from(rest, 0, p)));
}

/// No argument sets the option.
pub open spec fn img2sdat_without_version(a: Seq<Seq<char>>, i: int) -> bool {
    forall|k: int|
        i <= k < a.len() ==> #[trigger] a[k] != "-v"@ && a[k] != "--version"@
}

proof fn lemma_img2sdat_version(a: Seq<Seq<char>>, i: int, o: Img2sdatView, v: u32)
    requires
        0 <= i,
        img2sdat_without_version(a, i),
    ensures
        match img2sdat_ok(img2sdat_from(a, i, o)) {
            Some(b) => img2sdat_from(a, i, Img2sdatView { version: v, ..o }) == Ok::<Img2sdatView,
                ArgError>(
                Img2sdatView { version: v, ..b },
            ),
            None => img2sdat_from(a, i, Img2sdatView { version: v, ..o }) is Err,
        },
    decreases a.len() - i,
{
    if i < a.len() {
        assert(a[i] != "-v"@);
        if is_one(a[i], "-o"@, "--outdir"@) {
            if i + 1 < a.len() {
                lemma_img2sdat_version(a, i + 2, Img2sdatView { out_dir: a[i + 1], ..o }, v);
            }
        } else if is_one(a[i], "-p"@, "--prefix"@) {
            if i + 1 < a.len() {
                lemma_img2sdat_version(a, i + 2, Img2sdatView { prefix: a[i + 1], ..o }, v);
            }
        } else if is_one(a[i], "-v"@, "--version"@) {
            if i + 1 < a.len() {
                if let Some(x) = small_in(a[i + 1]) {
                    lemma_img2sdat_version(a, i + 2, Img2sdatView { version: x, ..o }, v);
                }
            }
        } else if is_one(a[i], "-b"@, "--brotli"@) {
            if i + 1 < a.len() {
                if let Some(x) = small_in(a[i + 1]) {
                    lemma_img2sdat_version(a, i + 2, Img2sdatView { brotli: Some(x), ..o }, v);
                }
            }
        } else if o.image is None && !is_option(a[i]) {
            lemma_img2sdat_version(a, i + 1, Img2sdatView { image: Some(a[i]), ..o }, v);
        }
    }
}

/// The option sets `version` to its value, wherever it stands before no other that
/// does. Without one the default stays.
pub proof fn img2sdat_takes_version(front: Seq<Seq<char>>, name: Seq<char>, n: u32,
    rest: Seq<Seq<char>>)
    requires
        img2sdat_whole(img2sdat_from(front, 0, img2sdat_default())),
        name == "-v"@ || name == "--version"@,
        img2sdat_without_version(rest, 0),
    ensures
        match img2sdat_ok(img2sdat_from(front + rest, 0, img2sdat_default())) {
            Some(b) => img2sdat_from(front + seq![name, decimal(n as nat)] + rest, 0,
                img2sdat_default()) == Ok::<Img2sdatView, ArgError>(
                Img2sdatView { version: n, ..b },
            ),
            None => img2sdat_from(front + seq![name, decimal(n as nat)] + rest, 0,
                img2sdat_default()) is Err,
        },
        img2sdat_without_version(front, 0) && img2sdat_from(front, 0, img2sdat_default()) is Ok
            ==> img2sdat_from(front, 0, img2sdat_default())->Ok_0.version == 4,
{
    let p = lemma_img2sdat_front(front, 0, img2sdat_default());
    let here = seq![name, decimal(n as nat)];
    let more = here + rest;
    assert(front + here + rest =~= front + more);
    assert(more[0] == here[0]);
    decimal_reads_back(n as nat);
    lemma_img2sdat_names();
    assert(more[1] == here[1]);
    lemma_img2sdat_shift(here, rest, 0, Img2sdatView { version: n, ..p });
    lemma_img2sdat_version(rest, 0, p, n);
    if img2sdat_without_version(front, 0) {
        lemma_img2sdat_version(front, 0, img2sdat_default(), img2sdat_default().version);
    }
    assert(img2sdat_ok(img2sdat_from(front + more, 0, img2sdat_default()))
        == img2sdat_ok(img2sdat_from(more, 0, p)));
    assert(img2sdat_ok(img2sdat_from(front + rest, 0, img2sdat_default()))
        == img2sdat_ok(img2sdat_from(rest, 0, p)));
}

/// No argument sets the option.
pub open spec fn img2sdat_without_brotli(a: Seq<Seq<char>>, i: int) -> bool {
    forall|k: int|
        i <= k < a.len() ==> #[trigger] a[k] != "-b"@ && a[k] != "--brotli"@
}

proof fn lemma_img2sdat_brotli(a: Seq<Seq<char>>, i: int, o: Img2sdatView, v: Option<u32>)
    requires
        0 <= i,
        img2sdat_without_brotli(a, i),
    ensures
        match img2sdat_ok(img2sdat_from(a, i, o)) {
            Some(b) => img2sdat_from(a, i, Img2sdatView { brotli: v, ..o }) == Ok::<Img2sdatView,
                ArgError>(
                Img2sdatView { brotli: v, ..b },
            ),
            None => img2sdat_from(a, i, Img2sdatView { brotli: v, ..o }) is Err,
        },
    decreases a.len() - i,
{
    if i < a.len() {
        assert(a[i] != "-b"@);
        if is_one(a[i], "-o"@, "--outdir"@) {
            if i + 1 < a.len() {
                lemma_img2sdat_brotli(a, i + 2, Img2sdatView { out_dir: a[i + 1], ..o }, v);
            }
        } else if is_one(a[i], "-p"@, "--prefix"@) {
            if i + 1 < a.len() {
                lemma_img2sdat_brotli(a, i + 2, Img2sdatView { prefix: a[i + 1], ..o }, v);
            }
        } else if is_one(a[i], "-v"@, "--version"@) {
            if i + 1 < a.len() {
                if let Some(x) = small_in(a[i + 1]) {
                    lemma_img2sdat_brotli(a, i + 2, Img2sdatView { version: x, ..o }, v);
                }
            }
        } else if is_one(a[i], "-b"@, "--brotli"@) {
            if i + 1 < a.len() {
                if let Some(x) = small_in(a[i + 1]) {
                    lemma_img2sdat_brotli(a, i + 2, Img2sdatView { brotli: Some(x), ..o }, v);
                }
            }
        } else if o.image is None && !is_option(a[i]) {
            lemma_img2sdat_brotli(a, i + 1, Img2sdatView { image: Some(a[i]), ..o }, v);
        }
    }
}

/// The option sets `brotli` to its value, wherever it stands before no other that
/// does. Without one the default stays.
pub proof fn img2sdat_takes_brotli(front: Seq<Seq<char>>, name: Seq<char>, n: u32,
    rest: Seq<Seq<char>>)
    requires
        img2sdat_whole(img2sdat_from(front, 0, img2sdat_default())),
        name == "-b"@ || name == "--brotli"@,
        img2sdat_without_brotli(rest, 0),
    ensures
        match img2sdat_ok(img2sdat_from(front + rest, 0, img2sdat_default())) {
            Some(b) => img2sdat_from(front + seq![name, decimal(n as nat)] + rest, 0,
                img2sdat_default()) == Ok::<Img2sdatView, ArgError>(
                Img2sdatView { brotli: Some(n), ..b },
            ),
            None => img2sdat_from(front + seq![name, decimal(n as nat)] + rest, 0,
                img2sdat_default()) is Err,
        },
        img2sdat_without_brotli(front, 0) && img2sdat_from(front, 0, img2sdat_default()) is Ok
            ==> img2sdat_from(front, 0, img2sdat_default())->Ok_0.brotli is None,
{
    let p = lemma_img2sdat_front(front, 0, img2sdat_default());
    let here = seq![name, decimal(n as nat)];
    let more = here + rest;
    assert(front + here + rest =~= front + more);
    assert(more[0] == here[0]);
    decimal_reads_back(n as nat);
    lemma_img2sdat_names();
    assert(more[1] == here[1]);
    lemma_img2sdat_shift(here, rest, 0, Img2sdatView { brotli: Some(n), ..p });
    lemma_img2sdat_brotli(rest, 0, p, Some(n));
    if img2sdat_without_brotli(front, 0) {
        lemma_img2sdat_brotli(front, 0, img2sdat_default(), img2sdat_default().brotli);
    }
    assert(img2sdat_ok(img2sdat_from(front + more, 0, img2sdat_default()))
        == img2sdat_ok(img2sdat_from(more, 0, p)));
    assert(img2sdat_ok(img2sdat_from(front + rest, 0, img2sdat_default()))
        == img2sdat_ok(img2sdat_from(rest, 0, p)));
}

/// One image by itself is read with the defaults.
pub proof fn img2sdat_reads_an_image(image: Seq<char>)
    requires
        !is_option(image),
    ensures
        img2sdat_from(seq![image], 0, img2sdat_default()) == Ok::<Img2sdatView, ArgError>(
            Img2sdatView { image: Some(image), out_dir: "."@, version: 4, prefix: "system"@,
                brotli: None },
        ),
{
    lemma_img2sdat_names();
    reveal_with_fuel(img2sdat_from, 2);
    let args = seq![image];
    assert(args[0] == image);
}

proof fn lemma_img2sdat_image(a: Seq<Seq<char>>, i: int, o: Img2sdatView)
    requires
        0 <= i,
        img2sdat_from(a, i, o) is Ok,
        o.image is Some ==> !is_option(o.image->Some_0) && a.contains(o.image->Some_0),
    ensures
        ({
            let r = img2sdat_from(a, i, o)->Ok_0;
            r.image is Some && !is_option(r.image->Some_0) && a.contains(r.image->Some_0)
        }),
    decreases a.len() - i,
{
    if i < a.len() {
        if is_one(a[i], "-o"@, "--outdir"@) {
            if i + 1 < a.len() {
                lemma_img2sdat_image(a, i + 2, Img2sdatView { out_dir: a[i + 1], ..o });
            }
        } else if is_one(a[i], "-p"@, "--prefix"@) {
            if i + 1 < a.len() {
                lemma_img2sdat_image(a, i + 2, Img2sdatView { prefix: a[i + 1], ..o });
            }
        } else if is_one(a[i], "-v"@, "--version"@) {
            if i + 1 < a.len() {
                if let Some(x) = small_in(a[i + 1]) {
                    lemma_img2sdat_image(a, i + 2, Img2sdatView { version: x, ..o });
                }
            }
        } else if is_one(a[i], "-b"@, "--brotli"@) {
            if i + 1 < a.len() {
                if let Some(x) = small_in(a[i + 1]) {
                    lemma_img2sdat_image(a, i + 2, Img2sdatView { brotli: Some(x), ..o });
                }
            }
        } else if o.image is None && !is_option(a[i]) {
            assert(a.contains(a[i]));
            lemma_img2sdat_image(a, i + 1, Img2sdatView { image: Some(a[i]), ..o });
        }
    }
}

/// The image that is read is one of the arguments, and no option.
pub proof fn img2sdat_image_is_an_argument(args: Seq<Seq<char>>)
    requires
        img2sdat_from(args, 0, img2sdat_default()) is Ok,
    ensures
        ({
            let r = img2sdat_from(args, 0, img2sdat_default())->Ok_0;
            r.image is Some && !is_option(r.image->Some_0) && args.contains(r.image->Some_0)
        }),
{
    lemma_img2sdat_image(args, 0, img2sdat_default());
}

/// The arguments are refused where an option has no value, where its value is
/// wrong and where an
/// option is unknown or there is a second file; the error tells the place. Without arguments
/// there is nothing to do.
pub proof fn img2sdat_refuses(
    front: Seq<Seq<char>>,
    name: Seq<char>,
    value: Seq<char>,
    file: Seq<char>,
    rest: Seq<Seq<char>>,
)
    requires
        img2sdat_whole(img2sdat_from(front, 0, img2sdat_default())),
    ensures
        name == "-o"@ || name == "--outdir"@ || name == "-p"@ || name == "--prefix"@ || name
            == "-v"@ || name == "--version"@ || name == "-b"@ || name == "--brotli"@
            ==> img2sdat_from(front + seq![name], 0, img2sdat_default()) == Err::<Img2sdatView,
                ArgError>(
            ArgError::NeedsValue(front.len() as usize),
        ),
        (name == "-v"@ || name == "--version"@ || name == "-b"@ || name == "--brotli"@)
            && (number(value, 10) is None || number(value, 10)->Some_0 > u32::MAX)
            ==> img2sdat_from(
            front + seq![name, value] + rest,
            0,
            img2sdat_default(),
        ) == Err::<Img2sdatView, ArgError>(ArgError::BadValue(front.len() as usize)),
        file == "-"@ || file == "--unknown"@ || (!is_option(file)
            && img2sdat_from(front, 0, img2sdat_default()) is Ok)
            ==> img2sdat_from(front + seq![file] + rest, 0, img2sdat_default())
            == Err::<Img2sdatView, ArgError>(ArgError::Unexpected(front.len() as usize)),
        img2sdat_from(Seq::empty(), 0, img2sdat_default()) == Err::<Img2sdatView,
            ArgError>(ArgError::Usage),
{
    lemma_img2sdat_names();
    reveal_strlit("-");
    reveal_strlit("--unknown");
    assert("--unknown"@[2] == 'u');
    assert("-"@.len() == 1);
    let d = img2sdat_default();
    let p = lemma_img2sdat_front(front, 0, d);
    let n = front.len() as int;
    let one = front + seq![name];
    assert(img2sdat_from(one, 0, d) == img2sdat_from(one, n, p));
    assert(one[n] == name);
    let two = front + (seq![name, value] + rest);
    assert(front + seq![name, value] + rest =~= two);
    assert(img2sdat_from(two, 0, d) == img2sdat_from(two, n, p));
    assert(two[n] == name && two[n + 1] == value);
    let three = front + (seq![file] + rest);
    assert(front + seq![file] + rest =~= three);
    assert(img2sdat_from(three, 0, d) == img2sdat_from(three, n, p));
    assert(three[n] == file);
}

} // verus!
