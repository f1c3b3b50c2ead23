//! What unpack found, kept for repack as `key=value` lines.
use vstd::prelude::*;
use vstd::string::StringExecFns;
use crate::apart::{is_word, lemma_add_line, lemma_alone, lemma_decimal, lemma_digits_word,
    lemma_pair, lemma_plain_line, lemma_plain_then, lemma_then, one_line, plain, then};
use crate::build::config::{find_value, pairs_in, pairs_view, parse_pairs, value_for};
use crate::error::Error;
use crate::text::{chars_of, decimal, followed_by, push_decimal, string_of};
use crate::words::{is_space, lines_of, number_upto, parse_number, same_chars, split_at, texts_view,
    words, words_of};

verus! {

/// What unpack found about one partition.
#[derive(Debug, Clone, PartialEq, Eq)]
pub struct Partition {
    pub name: String,
    /// Transfer list version (1-4).
    pub version: u32,
    /// `.new.dat.br` (true) or plain `.new.dat`.
    pub brotli: bool,
    /// Bytes the transfer list covers (the partition size).
    pub size: u64,
}

/// A partition with its name as characters.
pub struct PartitionView {
    pub name: Seq<char>,
    pub version: u32,
    pub brotli: bool,
    pub size: u64,
}

impl View for Partition {
    type V = PartitionView;

    open spec fn view(&self) -> PartitionView {
        PartitionView {
            name: self.name@,
            version: self.version,
            brotli: self.brotli,
            size: self.size,
        }
    }
}

pub open spec fn parts_view(v: Seq<Partition>) -> Seq<PartitionView> {
    Seq::new(v.len(), |i: int| v[i]@)
}

/// The names from `i` on, with a space between them.
pub open spec fn joined(parts: Seq<PartitionView>, i: int) -> Seq<char>
    decreases parts.len() - i,
{
    if i >= parts.len() {
        Seq::empty()
    } else if i == parts.len() - 1 {
        parts[i].name
    } else {
        then(parts[i].name, joined(parts, i + 1))
    }
}

pub open spec fn yes_no(b: bool) -> Seq<char> {
    if b {
        "true"@
    } else {
        "false"@
    }
}

pub open spec fn version_line(p: PartitionView) -> Seq<char> {
    p.name + ".version"@ + "="@ + decimal(p.version as nat)
}

pub open spec fn brotli_line(p: PartitionView) -> Seq<char> {
    p.name + ".brotli"@ + "="@ + yes_no(p.brotli)
}

pub open spec fn size_line(p: PartitionView) -> Seq<char> {
    p.name + ".size"@ + "="@ + decimal(p.size as nat)
}

/// The state with the lines of the first `n` partitions.
pub open spec fn state_text(input: Seq<char>, parts: Seq<PartitionView>, n: int) -> Seq<char>
    decreases n,
{
    if n <= 0 {
        ("input="@ + input + "\n"@) + ("partitions="@ + joined(parts, 0) + "\n"@)
    } else {
        let p = parts[n - 1];
        state_text(input, parts, n - 1) + (version_line(p) + "\n"@) + (brotli_line(p) + "\n"@) + (
        size_line(p) + "\n"@)
    }
}

/// The state of an unpacked ROM.
pub fn write_state(input: &str, parts: &Vec<Partition>) -> (r: String)
    ensures
        r@ == state_text(input@, parts_view(parts@), parts@.len() as int),
{
    let ghost all = parts_view(parts@);
    let mut s: String = "input=".to_string();
    s.append(input);
    s.append("\n");
    s.append("partitions=");
    let ghost front = s@;
    let n: usize = parts.len();
    let mut i: usize = 0;
    assert(s@ + joined(all, 0) =~= front + joined(all, 0));
    while i < n
        invariant
            i <= n,
            n == parts@.len(),
            all == parts_view(parts@),
            s@ + joined(all, i as int) == front + joined(all, 0),
        decreases n - i,
    {
        let ghost was = s@;
        s.append(parts[i].name.as_str());
        if i + 1 < n {
            s.append(" ");
            assert(s@ + joined(all, i + 1) =~= was + joined(all, i as int));
        } else {
            assert(joined(all, i + 1) =~= Seq::<char>::empty());
            assert(s@ + joined(all, i + 1) =~= was + joined(all, i as int));
        }
        i += 1;
    }
    assert(joined(all, n as int) =~= Seq::<char>::empty());
    assert(s@ =~= front + joined(all, 0));
    s.append("\n");
    assert(s@ =~= state_text(input@, all, 0));
    i = 0;
    while i < n
        invariant
            i <= n,
            n == parts@.len(),
            all == parts_view(parts@),
            s@ == state_text(input@, all, i as int),
        decreases n - i,
    {
        let p: &Partition = &parts[i];
        let ghost was = s@;
        s.append(p.name.as_str());
        s.append(".version");
        s.append("=");
        push_decimal(&mut s, p.version as u64);
        s.append("\n");
        assert(s@ =~= was + (version_line(p@) + "\n"@));
        s.append(p.name.as_str());
        s.append(".brotli");
        s.append("=");
        s.append(
            if p.brotli {
                "true"
            } else {
                "false"
            },
        );
        s.append("\n");
        assert(s@ =~= was + (version_line(p@) + "\n"@) + (brotli_line(p@) + "\n"@));
        s.append(p.name.as_str());
        s.append(".size");
        s.append("=");
        push_decimal(&mut s, p.size);
        s.append("\n");
        assert(s@ =~= was + (version_line(p@) + "\n"@) + (brotli_line(p@) + "\n"@) + (size_line(p@)
            + "\n"@));
        assert(all[i as int] == p@);
        i += 1;
    }
    s
}

/// The value of a key, which has to be there.
pub open spec fn text_in(kv: Seq<(Seq<char>, Seq<char>)>, key: Seq<char>) -> Result<
    Seq<char>,
    Error,
> {
    match value_for(kv, key, kv.len() as int) {
        Some(v) => Ok(v),
        None => Err(Error::MissingState),
    }
}

/// The number that a key stands for.
pub open spec fn number_in(kv: Seq<(Seq<char>, Seq<char>)>, key: Seq<char>) -> Result<u64, Error> {
    match text_in(kv, key) {
        Err(e) => Err(e),
        Ok(v) => match number_upto(v, 10, u64::MAX as int) {
            Some(n) => Ok(n as u64),
            None => Err(Error::BadState),
        },
    }
}

/// What the state says of a partition.
pub open spec fn part_in(kv: Seq<(Seq<char>, Seq<char>)>, name: Seq<char>) -> Result<
    PartitionView,
    Error,
> {
    match number_in(kv, name + ".version"@) {
        Err(e) => Err(e),
        Ok(v) => match text_in(kv, name + ".brotli"@) {
            Err(e) => Err(e),
            Ok(b) => match number_in(kv, name + ".size"@) {
                Err(e) => Err(e),
                Ok(size) => Ok(
                    PartitionView {
                        name,
                        version: (v % 0x1_0000_0000) as u32,
                        brotli: b == "true"@,
                        size,
                    },
                ),
            },
        },
    }
}

/// What the state says of the first `n` of some partitions.
pub open spec fn parts_in(
    kv: Seq<(Seq<char>, Seq<char>)>,
    names: Seq<Seq<char>>,
    n: int,
) -> Result<Seq<PartitionView>, Error>
    decreases n,
{
    if n <= 0 {
        Ok(Seq::empty())
    } else {
        match parts_in(kv, names, n - 1) {
            Err(e) => Err(e),
            Ok(v) => match part_in(kv, names[n - 1]) {
                Err(e) => Err(e),
                Ok(p) => Ok(v.push(p)),
            },
        }
    }
}

/// The partitions that a state tells of.
pub open spec fn state_in(text: Seq<char>) -> Result<Seq<PartitionView>, Error> {
    let lines = lines_of(text);
    let kv = pairs_in(lines, '=', lines.len() as int);
    match text_in(kv, "partitions"@) {
        Err(e) => Err(e),
        Ok(v) => parts_in(kv, words_of(v), words_of(v).len() as int),
    }
}

pub open spec fn text_view(r: Result<Vec<char>, Error>) -> Result<Seq<char>, Error> {
    match r {
        Ok(v) => Ok(v@),
        Err(e) => Err(e),
    }
}

fn get(kv: &Vec<(Vec<char>, Vec<char>)>, key: &str) -> (r: Result<Vec<char>, Error>)
    ensures
        text_view(r) == text_in(pairs_view(kv@), key@),
{
    match find_value(kv, &chars_of(key)) {
        Some(v) => Ok(v),
        None => Err(Error::MissingState),
    }
}

fn get_number(kv: &Vec<(Vec<char>, Vec<char>)>, key: &str) -> (r: Result<u64, Error>)
    ensures
        r == number_in(pairs_view(kv@), key@),
{
    match get(kv, key) {
        Err(e) => Err(e),
        Ok(v) => match parse_number(&v, 10, u64::MAX) {
            Some(n) => Ok(n),
            None => Err(Error::BadState),
        },
    }
}

pub open spec fn part_view(r: Result<Partition, Error>) -> Result<PartitionView, Error> {
    match r {
        Ok(p) => Ok(p@),
        Err(e) => Err(e),
    }
}

fn read_part(kv: &Vec<(Vec<char>, Vec<char>)>, name: &[char]) -> (r: Result<Partition, Error>)
    ensures
        part_view(r) == part_in(pairs_view(kv@), name@),
{
    let name: String = string_of(name);
    let v: u64 = match get_number(kv, followed_by(name.as_str(), ".version").as_str()) {
        Ok(v) => v,
        Err(e) => {
            return Err(e);
        },
    };
    let brotli: bool = match get(kv, followed_by(name.as_str(), ".brotli").as_str()) {
        Ok(b) => same_chars(&b, &chars_of("true")),
        Err(e) => {
            return Err(e);
        },
    };
    let size: u64 = match get_number(kv, followed_by(name.as_str(), ".size").as_str()) {
        Ok(v) => v,
        Err(e) => {
            return Err(e);
        },
    };
    Ok(Partition { name, version: (v % 0x1_0000_0000) as u32, brotli, size })
}

/// Partitions recorded by unpack, or `None` when there is no state.
pub fn read_state(text: Option<&str>) -> (r: Result<Option<Vec<Partition>>, Error>)
    ensures
        match (text, r) {
            (None, Ok(None)) => true,
            (Some(t), Ok(Some(v))) => state_in(t@) == Ok::<Seq<PartitionView>, Error>(parts_view(v@)),
            (Some(t), Err(e)) => state_in(t@) == Err::<Seq<PartitionView>, Error>(e),
            _ => false,
        },
{
    let body: &str = match text {
        Some(t) => t,
        None => {
            return Ok(None);
        },
    };
    let kv: Vec<(Vec<char>, Vec<char>)> = parse_pairs(&chars_of(body), '=');
    let ghost pairs = pairs_view(kv@);
    let list: Vec<char> = match get(&kv, "partitions") {
        Ok(v) => v,
        Err(e) => {
            return Err(e);
        },
    };
    let names: Vec<Vec<char>> = words(&list);
    let ghost all = words_of(list@);
    let mut parts: Vec<Partition> = Vec::new();
    let n: usize = names.len();
    let mut i: usize = 0;
    assert(parts_view(parts@) =~= Seq::<PartitionView>::empty());
    while i < n
        invariant
            i <= n,
            n == names@.len(),
            n == all.len(),
            all == texts_view(names@),
            pairs == pairs_view(kv@),
            text is Some,
            text->Some_0@ == body@,
            state_in(body@) == parts_in(pairs, all, n as int),
            parts_in(pairs, all, i as int) == Ok::<Seq<PartitionView>, Error>(parts_view(parts@)),
        decreases n - i,
    {
        assert(all[i as int] == names@[i as int]@);
        match read_part(&kv, &names[i]) {
            Ok(p) => {
                let ghost was = parts@;
                parts.push(p);
                assert(parts_view(parts@) =~= parts_view(was).push(p@));
            },
            Err(e) => {
                proof {
                    lemma_fails(pairs, all, i + 1, n as int, e);
                }
                return Err(e);
            },
        }
        i += 1;
    }
    Ok(Some(parts))
}

proof fn lemma_fails(
    kv: Seq<(Seq<char>, Seq<char>)>,
    names: Seq<Seq<char>>,
    i: int,
    n: int,
    e: Error,
)
    requires
        i <= n,
        parts_in(kv, names, i) == Err::<Seq<PartitionView>, Error>(e),
    ensures
        parts_in(kv, names, n) == Err::<Seq<PartitionView>, Error>(e),
    decreases n - i,
{
    if i < n {
        lemma_fails(kv, names, i, n - 1, e);
    }
}

/// The name of a partition as a state can hold it.
pub open spec fn is_name(s: Seq<char>) -> bool {
    is_word(s) && !s.contains('=')
}

proof fn lemma_pairs_in(lines: Seq<Seq<char>>, n: int)
    requires
        0 <= n <= lines.len(),
        forall|i: int| 0 <= i < n ==> split_at(#[trigger] lines[i], '=') is Some,
    ensures
        pairs_in(lines, '=', n).len() == n,
        forall|i: int|
            0 <= i < n ==> #[trigger] pairs_in(lines, '=', n)[i] == split_at(lines[i], '=')->Some_0,
    decreases n,
{
    if n > 0 {
        lemma_pairs_in(lines, n - 1);
    }
}

proof fn lemma_value_at(kv: Seq<(Seq<char>, Seq<char>)>, key: Seq<char>, i: int, n: int)
    requires
        0 <= i < n <= kv.len(),
        kv[i].0 == key,
        forall|j: int| i < j < n ==> (#[trigger] kv[j]).0 != key,
    ensures
        value_for(kv, key, n) == Some(kv[i].1),
    decreases n - i,
{
    if i < n - 1 {
        assert(kv[n - 1].0 != key);
        lemma_value_at(kv, key, i, n - 1);
    }
}

/// The names are read back one by one.
proof fn lemma_joined(parts: Seq<PartitionView>, i: int)
    requires
        0 <= i <= parts.len(),
        forall|k: int| 0 <= k < parts.len() ==> is_word((#[trigger] parts[k]).name),
    ensures
        words_of(joined(parts, i)).len() == parts.len() - i,
        forall|k: int|
            0 <= k < parts.len() - i ==> #[trigger] words_of(joined(parts, i))[k] == parts[i + k].name,
        i < parts.len() ==> plain(joined(parts, i)) && !is_space(joined(parts, i)[0]),
    decreases parts.len() - i,
{
    if i >= parts.len() {
        assert(words_of(joined(parts, i)) =~= Seq::<Seq<char>>::empty());
    } else {
        assert(is_word(parts[i].name));
        assert(plain(parts[i].name));
        if i == parts.len() - 1 {
            lemma_alone(parts[i].name);
        } else {
            lemma_joined(parts, i + 1);
            lemma_then(parts[i].name, joined(parts, i + 1));
            lemma_plain_then(parts[i].name, joined(parts, i + 1));
            let w = words_of(joined(parts, i));
            assert forall|k: int| 0 <= k < parts.len() - i implies #[trigger] w[k] == parts[i
                + k].name by {
                if k > 0 {
                    assert(w[k] == words_of(joined(parts, i + 1))[k - 1]);
                }
            }
        }
    }
}

/// A line made of a name, a field and a value that is a word.
proof fn lemma_field(name: Seq<char>, field: Seq<char>, value: Seq<char>)
    requires
        is_name(name),
        is_word(field),
        !field.contains('='),
        is_word(value),
    ensures
        one_line(name + field + "="@ + value),
        split_at(name + field + "="@ + value, '=') == Some((name + field, value)),
{
    reveal_strlit("=");
    let key = name + field;
    assert(!key.contains('=')) by {
        if key.contains('=') {
            let i = choose|i: int| 0 <= i < key.len() && key[i] == '=';
            if i < name.len() {
                assert(name.contains(name[i]));
            } else {
                assert(field.contains(field[i - name.len()]));
            }
        }
    }
    lemma_pair(key, value);
    let s = key + "="@ + value;
    assert(plain(s)) by {
        assert forall|i: int| 0 <= i < s.len() implies !is_space(#[trigger] s[i]) by {
            if i < name.len() {
                assert(s[i] == name[i]);
            } else if i < key.len() {
                assert(s[i] == field[i - name.len()]);
            } else if i > key.len() {
                assert(s[i] == value[i - key.len() - 1]);
            }
        }
    }
    lemma_plain_line(s);
}

proof fn lemma_part_lines(p: PartitionView)
    requires
        is_name(p.name),
    ensures
        one_line(version_line(p)),
        one_line(brotli_line(p)),
        one_line(size_line(p)),
        split_at(version_line(p), '=') == Some((p.name + ".version"@, decimal(p.version as nat))),
        split_at(brotli_line(p), '=') == Some((p.name + ".brotli"@, yes_no(p.brotli))),
        split_at(size_line(p), '=') == Some((p.name + ".size"@, decimal(p.size as nat))),
{
    reveal_strlit(".version");
    reveal_strlit(".brotli");
    reveal_strlit(".size");
    reveal_strlit("true");
    reveal_strlit("false");
    lemma_decimal(p.version as nat);
    lemma_decimal(p.size as nat);
    lemma_digits_word(decimal(p.version as nat), 10);
    lemma_digits_word(decimal(p.size as nat), 10);
    lemma_field(p.name, ".version"@, decimal(p.version as nat));
    lemma_field(p.name, ".brotli"@, yes_no(p.brotli));
    lemma_field(p.name, ".size"@, decimal(p.size as nat));
}

/// The text of a state ends a line, and its lines are known.
proof fn lemma_state_lines(input: Seq<char>, parts: Seq<PartitionView>, n: int)
    requires
        one_line(input),
        0 <= n <= parts.len(),
        forall|k: int| 0 <= k < parts.len() ==> is_name((#[trigger] parts[k]).name),
    ensures
        ({
            let t = state_text(input, parts, n);
            let l = lines_of(t);
            &&& t.len() > 0 && t.last() == '\n'
            &&& l.len() == 2 + 3 * n
            &&& l[0] == "input="@ + input
            &&& l[1] == "partitions="@ + joined(parts, 0)
            &&& forall|i: int|
                #![trigger parts[i]]
                0 <= i < n ==> l[2 + 3 * i] == version_line(parts[i]) && l[3 + 3 * i] == brotli_line(
                    parts[i],
                ) && l[4 + 3 * i] == size_line(parts[i])
        }),
    decreases n,
{
    if n <= 0 {
        reveal_strlit("input=");
        reveal_strlit("partitions=");
        let e = Seq::<char>::empty();
        let a = "input="@ + input;
        let b = "partitions="@ + joined(parts, 0);
        assert(one_line(a)) by {
            if a.contains('\n') {
                let i = choose|i: int| 0 <= i < a.len() && a[i] == '\n';
                assert(i >= 6);
                assert(input.contains(input[i - 6]));
            }
            if input.len() > 0 {
                assert(a.last() == input.last());
            }
        }
        assert(one_line(b)) by {
            lemma_joined(parts, 0);
            let j = joined(parts, 0);
            if parts.len() > 0 {
                lemma_plain_line(j);
                assert(b.last() == j.last());
                if b.contains('\n') {
                    let i = choose|i: int| 0 <= i < b.len() && b[i] == '\n';
                    assert(i >= 11);
                    assert(j.contains(j[i - 11]));
                }
            } else {
                assert(b =~= "partitions="@);
            }
        }
        lemma_add_line(e, a);
        assert(e + (a + "\n"@) =~= a + "\n"@);
        lemma_add_line(a + "\n"@, b);
        assert(lines_of(e) =~= Seq::<Seq<char>>::empty());
    } else {
        lemma_state_lines(input, parts, n - 1);
        let p = parts[n - 1];
        lemma_part_lines(p);
        let t = state_text(input, parts, n - 1);
        lemma_add_line(t, version_line(p));
        let t1 = t + (version_line(p) + "\n"@);
        lemma_add_line(t1, brotli_line(p));
        let t2 = t1 + (brotli_line(p) + "\n"@);
        lemma_add_line(t2, size_line(p));
        let l = lines_of(state_text(input, parts, n));
        let l0 = lines_of(t);
        assert(l == l0.push(version_line(p)).push(brotli_line(p)).push(size_line(p)));
        assert forall|i: int| #![trigger parts[i]] 0 <= i < n implies l[2 + 3 * i] == version_line(
            parts[i],
        ) && l[3 + 3 * i] == brotli_line(parts[i]) && l[4 + 3 * i] == size_line(parts[i]) by {
            if i < n - 1 {
                assert(l0[2 + 3 * i] == version_line(parts[i]));
            }
        }
    }
}

/// Two keys of partitions are the same only for the same name and field.
proof fn lemma_keys(a: Seq<char>, b: Seq<char>)
    ensures
        a + ".version"@ != b + ".brotli"@,
        a + ".version"@ != b + ".size"@,
        a + ".brotli"@ != b + ".size"@,
        a + ".version"@ == b + ".version"@ ==> a == b,
        a + ".brotli"@ == b + ".brotli"@ ==> a == b,
        a + ".size"@ == b + ".size"@ ==> a == b,
        a + ".version"@ != "partitions"@,
        a + ".brotli"@ != "partitions"@,
        a + ".size"@ != "partitions"@,
{
    reveal_strlit(".version");
    reveal_strlit(".brotli");
    reveal_strlit(".size");
    reveal_strlit("partitions");
    assert((a + ".version"@).last() == 'n');
    assert((a + ".brotli"@).last() == 'i');
    assert((a + ".size"@).last() == 'e');
    assert((b + ".brotli"@).last() == 'i');
    assert((b + ".size"@).last() == 'e');
    assert("partitions"@.last() == 's');
    assert(a =~= (a + ".version"@).take((a + ".version"@).len() - 8));
    assert(b =~= (b + ".version"@).take((b + ".version"@).len() - 8));
    assert(a =~= (a + ".brotli"@).take((a + ".brotli"@).len() - 7));
    assert(b =~= (b + ".brotli"@).take((b + ".brotli"@).len() - 7));
    assert(a =~= (a + ".size"@).take((a + ".size"@).len() - 5));
    assert(b =~= (b + ".size"@).take((b + ".size"@).len() - 5));
}

/// The pairs of a state are those of its partitions.
pub open spec fn pairs_are(kv: Seq<(Seq<char>, Seq<char>)>, parts: Seq<PartitionView>) -> bool {
    &&& kv.len() == 2 + 3 * parts.len()
    &&& kv[0].0 == "input"@
    &&& kv[1] == ("partitions"@, joined(parts, 0))
    &&& forall|i: int|
        #![trigger parts[i]]
        0 <= i < parts.len() ==> kv[2 + 3 * i] == (
            parts[i].name + ".version"@,
            decimal(parts[i].version as nat),
        ) && kv[3 + 3 * i] == (parts[i].name + ".brotli"@, yes_no(parts[i].brotli)) && kv[4 + 3 * i]
            == (parts[i].name + ".size"@, decimal(parts[i].size as nat))
}

proof fn lemma_part_in(kv: Seq<(Seq<char>, Seq<char>)>, parts: Seq<PartitionView>, i: int)
    requires
        pairs_are(kv, parts),
        0 <= i < parts.len(),
        forall|a: int, b: int|
            0 <= a < b < parts.len() ==> (#[trigger] parts[a]).name != (#[trigger] parts[b]).name,
    ensures
        part_in(kv, parts[i].name) == Ok::<PartitionView, Error>(parts[i]),
{
    let name = parts[i].name;
    let n = kv.len() as int;
    assert forall|j: int| 2 + 3 * i < j < n implies (#[trigger] kv[j]).0 != name + ".version"@ by {
        let k = (j - 2) / 3;
        lemma_keys(name, parts[k].name);
        assert(i <= k);
    }
    assert forall|j: int| 3 + 3 * i < j < n implies (#[trigger] kv[j]).0 != name + ".brotli"@ by {
        let k = (j - 2) / 3;
        lemma_keys(name, parts[k].name);
        lemma_keys(parts[k].name, name);
        assert(i <= k);
    }
    assert forall|j: int| 4 + 3 * i < j < n implies (#[trigger] kv[j]).0 != name + ".size"@ by {
        let k = (j - 2) / 3;
        lemma_keys(name, parts[k].name);
        lemma_keys(parts[k].name, name);
        assert(i < k);
    }
    lemma_value_at(kv, name + ".version"@, 2 + 3 * i, n);
    lemma_value_at(kv, name + ".brotli"@, 3 + 3 * i, n);
    lemma_value_at(kv, name + ".size"@, 4 + 3 * i, n);
    lemma_decimal(parts[i].version as nat);
    lemma_decimal(parts[i].size as nat);
    lemma_digits_word(decimal(parts[i].version as nat), 10);
    lemma_digits_word(decimal(parts[i].size as nat), 10);
    reveal_strlit("true");
    reveal_strlit("false");
    assert("true"@.len() != "false"@.len());
}

proof fn lemma_parts_in(
    kv: Seq<(Seq<char>, Seq<char>)>,
    parts: Seq<PartitionView>,
    names: Seq<Seq<char>>,
    n: int,
)
    requires
        pairs_are(kv, parts),
        0 <= n <= parts.len(),
        names.len() == parts.len(),
        forall|k: int| 0 <= k < parts.len() ==> #[trigger] names[k] == parts[k].name,
        forall|a: int, b: int|
            0 <= a < b < parts.len() ==> (#[trigger] parts[a]).name != (#[trigger] parts[b]).name,
    ensures
        parts_in(kv, names, n) == Ok::<Seq<PartitionView>, Error>(parts.take(n)),
    decreases n,
{
    if n > 0 {
        lemma_parts_in(kv, parts, names, n - 1);
        lemma_part_in(kv, parts, n - 1);
        assert(names[n - 1] == parts[n - 1].name);
        assert(parts.take(n - 1).push(parts[n - 1]) =~= parts.take(n));
    } else {
        assert(parts.take(n) =~= Seq::<PartitionView>::empty());
    }
}

/// A state that was written is read back as it was, for partitions with
/// different names that are words without an equals sign.
pub proof fn state_round_trip(input: Seq<char>, parts: Seq<PartitionView>)
    requires
        one_line(input),
        forall|k: int| 0 <= k < parts.len() ==> is_name((#[trigger] parts[k]).name),
        forall|a: int, b: int|
            0 <= a < b < parts.len() ==> (#[trigger] parts[a]).name != (#[trigger] parts[b]).name,
    ensures
        state_in(state_text(input, parts, parts.len() as int)) == Ok::<Seq<PartitionView>, Error>(
            parts,
        ),
{
    let t = state_text(input, parts, parts.len() as int);
    let l = lines_of(t);
    let n = l.len() as int;
    lemma_state_lines(input, parts, parts.len() as int);
    reveal_strlit("input=");
    reveal_strlit("partitions=");
    reveal_strlit("input");
    reveal_strlit("partitions");
    reveal_strlit("=");
    lemma_pair("input"@, input);
    lemma_pair("partitions"@, joined(parts, 0));
    assert("input"@ + "="@ + input =~= "input="@ + input);
    assert("partitions"@ + "="@ + joined(parts, 0) =~= "partitions="@ + joined(parts, 0));
    assert forall|i: int| 0 <= i < n implies split_at(#[trigger] l[i], '=') is Some by {
        if i >= 2 {
            let k = (i - 2) / 3;
            lemma_part_lines(parts[k]);
        }
    }
    lemma_pairs_in(l, n);
    let kv = pairs_in(l, '=', n);
    assert forall|i: int|
        #![trigger parts[i]]
        0 <= i < parts.len() implies kv[2 + 3 * i] == (
        parts[i].name + ".version"@,
        decimal(parts[i].version as nat),
    ) && kv[3 + 3 * i] == (parts[i].name + ".brotli"@, yes_no(parts[i].brotli)) && kv[4 + 3 * i] == (
        parts[i].name + ".size"@,
        decimal(parts[i].size as nat),
    ) by {
        lemma_part_lines(parts[i]);
    }
    assert(pairs_are(kv, parts));
    assert forall|j: int| 1 < j < n implies (#[trigger] kv[j]).0 != "partitions"@ by {
        let k = (j - 2) / 3;
        lemma_keys(parts[k].name, parts[k].name);
    }
    lemma_value_at(kv, "partitions"@, 1, n);
    lemma_joined(parts, 0);
    lemma_parts_in(kv, parts, words_of(joined(parts, 0)), parts.len() as int);
    assert(parts.take(parts.len() as int) =~= parts);
}

} // verus!
