//! The metadata files of a partition, read line by line.
use vstd::prelude::*;
use crate::error::Error;
use crate::extract::{regex_unescape, unescaped};
use crate::text::chars_of;
use crate::words::{has_prefix, lines, lines_of, number_upto, parse_number, part, same_chars,
    split_at, split_once, split_once_space, split_space, starts, texts_view, trim, trimmed, words,
    words_of};

verus! {

/// Owner, group, mode and capabilities of a path.
#[derive(Debug, Clone, Copy, PartialEq, Eq, Structural)]
pub struct Owner {
    pub uid: u32,
    pub gid: u32,
    pub mode: u32,
    pub caps: Option<u64>,
}

/// A text without the `0x`s at its front.
pub open spec fn without_0x(s: Seq<char>) -> Seq<char>
    decreases s.len(),
{
    if s.len() >= 2 && s[0] == '0' && s[1] == 'x' {
        without_0x(s.skip(2))
    } else {
        s
    }
}

/// The capabilities in the words of a line: none, or a number that has to be
/// right.
pub open spec fn caps_in(f: Seq<Seq<char>>) -> Option<Option<u64>> {
    if f.len() > 4 && has_prefix(f[4], "capabilities="@) {
        match number_upto(
            without_0x(f[4].skip("capabilities="@.len() as int)),
            16,
            u64::MAX as int,
        ) {
            Some(c) => Some(Some(c as u64)),
            None => None,
        }
    } else {
        Some(None)
    }
}

/// What the words of a line say: path, owner, group, mode in octal, and
/// capabilities.
pub open spec fn owner_in(f: Seq<Seq<char>>) -> Option<Owner> {
    if f.len() < 4 {
        None
    } else {
        match (
            number_upto(f[1], 10, u32::MAX as int),
            number_upto(f[2], 10, u32::MAX as int),
            number_upto(f[3], 8, u32::MAX as int),
            caps_in(f),
        ) {
            (Some(u), Some(g), Some(m), Some(caps)) => Some(
                Owner { uid: u as u32, gid: g as u32, mode: m as u32, caps },
            ),
            _ => None,
        }
    }
}

/// The entries in the first `n` lines of fs_config; blank lines are skipped.
pub open spec fn owners_in(lines: Seq<Seq<char>>, n: int) -> Option<Seq<(Seq<char>, Owner)>>
    decreases n,
{
    if n <= 0 {
        Some(Seq::empty())
    } else {
        match owners_in(lines, n - 1) {
            None => None,
            Some(v) => {
                let f = words_of(lines[n - 1]);
                if f.len() == 0 {
                    Some(v)
                } else {
                    match owner_in(f) {
                        None => None,
                        Some(o) => Some(v.push((f[0], o))),
                    }
                }
            },
        }
    }
}

/// The labels in the first `n` lines of file_contexts: exact paths with regex
/// metacharacters escaped.
pub open spec fn labels_in(lines: Seq<Seq<char>>, n: int) -> Seq<(Seq<char>, Seq<char>)>
    decreases n,
{
    if n <= 0 {
        Seq::empty()
    } else {
        let v = labels_in(lines, n - 1);
        match split_space(lines[n - 1]) {
            Some((path, label)) => v.push((unescaped(path, 0), trimmed(label))),
            None => v,
        }
    }
}

/// The pairs in the first `n` lines that are separated by `c`.
pub open spec fn pairs_in(lines: Seq<Seq<char>>, c: char, n: int) -> Seq<(Seq<char>, Seq<char>)>
    decreases n,
{
    if n <= 0 {
        Seq::empty()
    } else {
        let v = pairs_in(lines, c, n - 1);
        match split_at(lines[n - 1], c) {
            Some(x) => v.push(x),
            None => v,
        }
    }
}

/// The value of a key; the last one counts.
pub open spec fn value_for<T>(v: Seq<(Seq<char>, T)>, key: Seq<char>, n: int) -> Option<T>
    decreases n,
{
    if n <= 0 {
        None
    } else if v[n - 1].0 == key {
        Some(v[n - 1].1)
    } else {
        value_for(v, key, n - 1)
    }
}

/// What the metadata files of a partition say, in the order of their lines.
pub struct MetaView {
    pub owners: Seq<(Seq<char>, Owner)>,
    pub contexts: Seq<(Seq<char>, Seq<char>)>,
    pub symlinks: Seq<(Seq<char>, Seq<char>)>,
    pub info: Seq<(Seq<char>, Seq<char>)>,
}

/// What the metadata files of a partition say.
pub open spec fn meta_in(
    fs_config: Seq<char>,
    contexts: Seq<char>,
    symlinks: Seq<char>,
    info: Seq<char>,
) -> Option<MetaView> {
    match owners_in(lines_of(fs_config), lines_of(fs_config).len() as int) {
        None => None,
        Some(owners) => Some(
            MetaView {
                owners,
                contexts: labels_in(lines_of(contexts), lines_of(contexts).len() as int),
                symlinks: pairs_in(lines_of(symlinks), ' ', lines_of(symlinks).len() as int),
                info: pairs_in(lines_of(info), '=', lines_of(info).len() as int),
            },
        ),
    }
}

/// What the metadata files of a partition say.
#[derive(Debug)]
pub struct Meta {
    pub owners: Vec<(Vec<char>, Owner)>,
    pub contexts: Vec<(Vec<char>, Vec<char>)>,
    pub symlinks: Vec<(Vec<char>, Vec<char>)>,
    pub info: Vec<(Vec<char>, Vec<char>)>,
}

pub open spec fn owners_view(v: Seq<(Vec<char>, Owner)>) -> Seq<(Seq<char>, Owner)> {
    Seq::new(v.len(), |i: int| (v[i].0@, v[i].1))
}

pub open spec fn pairs_view(v: Seq<(Vec<char>, Vec<char>)>) -> Seq<(Seq<char>, Seq<char>)> {
    Seq::new(v.len(), |i: int| (v[i].0@, v[i].1@))
}

impl View for Meta {
    type V = MetaView;

    open spec fn view(&self) -> MetaView {
        MetaView {
            owners: owners_view(self.owners@),
            contexts: pairs_view(self.contexts@),
            symlinks: pairs_view(self.symlinks@),
            info: pairs_view(self.info@),
        }
    }
}

fn skip_0x(s: &[char]) -> (r: usize)
    ensures
        r <= s.len(),
        s@.skip(r as int) == without_0x(s@),
{
    let n: usize = s.len();
    let mut i: usize = 0;
    assert(s@.skip(0) =~= s@);
    while n - i >= 2 && s[i] == '0' && s[i + 1] == 'x'
        invariant
            n == s@.len(),
            i <= n,
            without_0x(s@.skip(i as int)) == without_0x(s@),
        decreases n - i,
    {
        assert(s@.skip(i as int).skip(2) =~= s@.skip(i + 2));
        i += 2;
    }
    i
}

fn parse_caps(f: &Vec<Vec<char>>) -> (r: Option<Option<u64>>)
    ensures
        r == caps_in(texts_view(f@)),
{
    let key: Vec<char> = chars_of("capabilities=");
    if f.len() > 4 && starts(&f[4], &key) {
        let c: Vec<char> = part(&f[4], key.len(), f[4].len());
        assert(c@ =~= f@[4]@.skip(key@.len() as int));
        let from: usize = skip_0x(&c);
        let num: Vec<char> = part(&c, from, c.len());
        assert(num@ =~= c@.skip(from as int));
        match parse_number(&num, 16, u64::MAX) {
            Some(v) => Some(Some(v)),
            None => None,
        }
    } else {
        Some(None)
    }
}

fn parse_owner(f: &Vec<Vec<char>>) -> (r: Option<Owner>)
    ensures
        r == owner_in(texts_view(f@)),
{
    if f.len() < 4 {
        return None;
    }
    let caps: Option<Option<u64>> = parse_caps(f);
    let u: Option<u64> = parse_number(&f[1], 10, u32::MAX as u64);
    let g: Option<u64> = parse_number(&f[2], 10, u32::MAX as u64);
    let m: Option<u64> = parse_number(&f[3], 8, u32::MAX as u64);
    match (u, g, m, caps) {
        (Some(u), Some(g), Some(m), Some(caps)) => Some(
            Owner { uid: u as u32, gid: g as u32, mode: m as u32, caps },
        ),
        _ => None,
    }
}

fn parse_owners(text: &[char]) -> (r: Result<Vec<(Vec<char>, Owner)>, Error>)
    ensures
        match r {
            Ok(v) => owners_in(lines_of(text@), lines_of(text@).len() as int) == Some(
                owners_view(v@),
            ),
            Err(e) => e == Error::BadFsConfig && owners_in(
                lines_of(text@),
                lines_of(text@).len() as int,
            ) is None,
        },
{
    let ls: Vec<Vec<char>> = lines(text);
    let ghost all = lines_of(text@);
    let mut v: Vec<(Vec<char>, Owner)> = Vec::new();
    let n: usize = ls.len();
    let mut i: usize = 0;
    assert(owners_view(v@) =~= Seq::<(Seq<char>, Owner)>::empty());
    while i < n
        invariant
            n == ls@.len(),
            n == all.len(),
            all == texts_view(ls@),
            all == lines_of(text@),
            i <= n,
            owners_in(all, i as int) == Some(owners_view(v@)),
        decreases n - i,
    {
        assert(all[i as int] == ls@[i as int]@);
        let f: Vec<Vec<char>> = words(&ls[i]);
        let ghost fv = texts_view(f@);
        if f.len() > 0 {
            match parse_owner(&f) {
                Some(o) => {
                    let path: Vec<char> = part(&f[0], 0, f[0].len());
                    assert(path@ =~= fv[0]);
                    let ghost was = v@;
                    v.push((path, o));
                    assert(owners_view(v@) =~= owners_view(was).push((fv[0], o)));
                },
                None => {
                    proof {
                        lemma_owners_bad(all, i + 1, n as int);
                    }
                    return Err(Error::BadFsConfig);
                },
            }
        }
        i += 1;
    }
    Ok(v)
}

proof fn lemma_owners_bad(lines: Seq<Seq<char>>, i: int, n: int)
    requires
        i <= n,
        owners_in(lines, i) is None,
    ensures
        owners_in(lines, n) is None,
    decreases n - i,
{
    if i < n {
        lemma_owners_bad(lines, i + 1, n);
    }
}

fn parse_labels(text: &[char]) -> (r: Vec<(Vec<char>, Vec<char>)>)
    ensures
        pairs_view(r@) == labels_in(lines_of(text@), lines_of(text@).len() as int),
{
    let ls: Vec<Vec<char>> = lines(text);
    let ghost all = lines_of(text@);
    let mut v: Vec<(Vec<char>, Vec<char>)> = Vec::new();
    let n: usize = ls.len();
    let mut i: usize = 0;
    assert(pairs_view(v@) =~= Seq::<(Seq<char>, Seq<char>)>::empty());
    while i < n
        invariant
            n == ls@.len(),
            n == all.len(),
            all == texts_view(ls@),
            i <= n,
            pairs_view(v@) == labels_in(all, i as int),
        decreases n - i,
    {
        assert(all[i as int] == ls@[i as int]@);
        if let Some((path, label)) = split_once_space(&ls[i]) {
            let p: Vec<char> = regex_unescape(&path);
            let l: Vec<char> = trim(&label);
            let ghost was = v@;
            v.push((p, l));
            assert(pairs_view(v@) =~= pairs_view(was).push((p@, l@)));
        }
        i += 1;
    }
    v
}

/// The pairs in the lines of a text that are separated by `c`.
pub fn parse_pairs(text: &[char], c: char) -> (r: Vec<(Vec<char>, Vec<char>)>)
    ensures
        pairs_view(r@) == pairs_in(lines_of(text@), c, lines_of(text@).len() as int),
{
    let ls: Vec<Vec<char>> = lines(text);
    let ghost all = lines_of(text@);
    let mut v: Vec<(Vec<char>, Vec<char>)> = Vec::new();
    let n: usize = ls.len();
    let mut i: usize = 0;
    assert(pairs_view(v@) =~= Seq::<(Seq<char>, Seq<char>)>::empty());
    while i < n
        invariant
            n == ls@.len(),
            n == all.len(),
            all == texts_view(ls@),
            i <= n,
            pairs_view(v@) == pairs_in(all, c, i as int),
        decreases n - i,
    {
        assert(all[i as int] == ls@[i as int]@);
        if let Some((a, b)) = split_once(&ls[i], c) {
            let ghost was = v@;
            v.push((a, b));
            assert(pairs_view(v@) =~= pairs_view(was).push((a@, b@)));
        }
        i += 1;
    }
    v
}

/// Reads the metadata files of a partition.
pub fn load_meta(fs_config: &str, contexts: &str, symlinks: &str, info: &str) -> (r: Result<
    Meta,
    Error,
>)
    ensures
        match r {
            Ok(m) => meta_in(fs_config@, contexts@, symlinks@, info@) == Some(m@),
            Err(e) => e == Error::BadFsConfig && meta_in(
                fs_config@,
                contexts@,
                symlinks@,
                info@,
            ) is None,
        },
{
    let owners: Vec<(Vec<char>, Owner)> = match parse_owners(&chars_of(fs_config)) {
        Ok(v) => v,
        Err(e) => {
            return Err(e);
        },
    };
    Ok(
        Meta {
            owners,
            contexts: parse_labels(&chars_of(contexts)),
            symlinks: parse_pairs(&chars_of(symlinks), ' '),
            info: parse_pairs(&chars_of(info), '='),
        },
    )
}

/// The owner of a path.
pub fn find_owner(v: &Vec<(Vec<char>, Owner)>, key: &[char]) -> (r: Option<Owner>)
    ensures
        r == value_for(owners_view(v@), key@, v@.len() as int),
{
    let ghost all = owners_view(v@);
    let mut i: usize = v.len();
    while i > 0
        invariant
            i <= v@.len(),
            all == owners_view(v@),
            value_for(all, key@, i as int) == value_for(all, key@, v@.len() as int),
        decreases i,
    {
        if same_chars(&v[i - 1].0, key) {
            return Some(v[i - 1].1);
        }
        i -= 1;
    }
    None
}

pub open spec fn chars_view(v: Option<Vec<char>>) -> Option<Seq<char>> {
    match v {
        Some(c) => Some(c@),
        None => None,
    }
}

/// The value of a key.
pub fn find_value(v: &Vec<(Vec<char>, Vec<char>)>, key: &[char]) -> (r: Option<Vec<char>>)
    ensures
        chars_view(r) == value_for(pairs_view(v@), key@, v@.len() as int),
{
    let ghost all = pairs_view(v@);
    let mut i: usize = v.len();
    while i > 0
        invariant
            i <= v@.len(),
            all == pairs_view(v@),
            value_for(all, key@, i as int) == value_for(all, key@, v@.len() as int),
        decreases i,
    {
        if same_chars(&v[i - 1].0, key) {
            let c: Vec<char> = part(&v[i - 1].1, 0, v[i - 1].1.len());
            assert(c@ =~= all[i - 1].1);
            return Some(c);
        }
        i -= 1;
    }
    None
}

} // verus!
