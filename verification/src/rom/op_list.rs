//! `dynamic_partitions_op_list`: the groups of dynamic partitions and the
//! sizes of the partitions in them.
use vstd::prelude::*;
use vstd::string::StringExecFns;
use crate::apart::{is_word, lemma_add_line, lemma_alone, lemma_decimal, lemma_digits_word,
    lemma_plain_line, lemma_plain_then, lemma_then, lemma_words_at, one_line, plain, then};
use crate::build::config::{pairs_view, value_for};
use crate::error::Error;
use crate::factory::{find_size, size_for};
use crate::text::{chars_of, decimal, push_decimal, string_of};
use crate::words::{lines, lines_of, number_upto, parse_number, part, same_chars, texts_view, words,
    words_of};

verus! {

/// The two operands of a line that does `op`.
pub open spec fn operands(line: Seq<char>, op: Seq<char>) -> Option<(Seq<char>, Seq<char>)> {
    let f = words_of(line);
    if f.len() == 3 && f[0] == op {
        Some((f[1], f[2]))
    } else {
        None
    }
}

/// A number, or `other` where the text is none.
pub open spec fn number_or(s: Seq<char>, other: u64) -> u64 {
    match number_upto(s, 10, u64::MAX as int) {
        Some(n) => n as u64,
        None => other,
    }
}

/// The maximum sizes of groups that the first `n` lines set.
pub open spec fn limits_in(lines: Seq<Seq<char>>, n: int) -> Seq<(Seq<char>, u64)>
    decreases n,
{
    if n <= 0 {
        Seq::empty()
    } else {
        match operands(lines[n - 1], "add_group"@) {
            Some((g, max)) => limits_in(lines, n - 1).push((g, number_or(max, u64::MAX))),
            None => limits_in(lines, n - 1),
        }
    }
}

/// The partitions that the first `n` lines add, each with its group.
pub open spec fn members_in(lines: Seq<Seq<char>>, n: int) -> Seq<(Seq<char>, Seq<char>)>
    decreases n,
{
    if n <= 0 {
        Seq::empty()
    } else {
        match operands(lines[n - 1], "add"@) {
            Some(x) => members_in(lines, n - 1).push(x),
            None => members_in(lines, n - 1),
        }
    }
}

/// The size of a partition: the new one, else what the line says.
pub open spec fn new_size(sizes: Seq<(String, u64)>, name: Seq<char>, bytes: Seq<char>) -> u64 {
    match size_for(sizes, name, sizes.len() as int) {
        Some(n) => n,
        None => number_or(bytes, 0),
    }
}

/// The sizes that the first `n` lines set, with the new ones in their place.
pub open spec fn resized_in(lines: Seq<Seq<char>>, sizes: Seq<(String, u64)>, n: int) -> Seq<
    (Seq<char>, u64),
>
    decreases n,
{
    if n <= 0 {
        Seq::empty()
    } else {
        match operands(lines[n - 1], "resize"@) {
            Some((p, b)) => resized_in(lines, sizes, n - 1).push((p, new_size(sizes, p, b))),
            None => resized_in(lines, sizes, n - 1),
        }
    }
}

/// A line with the new size of its partition, where it sets one.
pub open spec fn op_line(line: Seq<char>, sizes: Seq<(String, u64)>) -> Seq<char> {
    match operands(line, "resize"@) {
        Some((p, b)) => "resize "@ + p + " "@ + decimal(new_size(sizes, p, b) as nat),
        None => line,
    }
}

/// The first `n` lines with the new sizes.
pub open spec fn op_text(lines: Seq<Seq<char>>, sizes: Seq<(String, u64)>, n: int) -> Seq<char>
    decreases n,
{
    if n <= 0 {
        Seq::empty()
    } else {
        op_text(lines, sizes, n - 1) + op_line(lines[n - 1], sizes) + "\n"@
    }
}

/// No later line adds the partition of entry `i` again.
pub open spec fn is_last(members: Seq<(Seq<char>, Seq<char>)>, i: int) -> bool {
    forall|j: int| i < j < members.len() ==> (#[trigger] members[j]).0 != members[i].0
}

/// Bytes that entry `i` takes in group `g`.
pub open spec fn bytes_at(
    members: Seq<(Seq<char>, Seq<char>)>,
    resized: Seq<(Seq<char>, u64)>,
    g: Seq<char>,
    i: int,
) -> int {
    if is_last(members, i) && members[i].1 == g {
        match value_for(resized, members[i].0, resized.len() as int) {
            Some(n) => n as int,
            None => 0,
        }
    } else {
        0
    }
}

/// Bytes that the partitions among the first `n` entries take in group `g`.
pub open spec fn group_bytes(
    members: Seq<(Seq<char>, Seq<char>)>,
    resized: Seq<(Seq<char>, u64)>,
    g: Seq<char>,
    n: int,
) -> int
    decreases n,
{
    if n <= 0 {
        0
    } else {
        group_bytes(members, resized, g, n - 1) + bytes_at(members, resized, g, n - 1)
    }
}

/// A group has a maximum size, and its partitions take more.
pub open spec fn is_overfull(
    limits: Seq<(Seq<char>, u64)>,
    members: Seq<(Seq<char>, Seq<char>)>,
    resized: Seq<(Seq<char>, u64)>,
    g: Seq<char>,
) -> bool {
    match value_for(limits, g, limits.len() as int) {
        Some(max) => group_bytes(members, resized, g, members.len() as int) > max,
        None => false,
    }
}

/// Some group of an op list is too small for its partitions.
pub open spec fn group_fault(lines: Seq<Seq<char>>, sizes: Seq<(String, u64)>) -> bool {
    let n = lines.len() as int;
    exists|g: Seq<char>|
        #[trigger] is_overfull(limits_in(lines, n), members_in(lines, n), resized_in(lines, sizes, n), g)
}

pub open spec fn numbers_view(v: Seq<(Vec<char>, u64)>) -> Seq<(Seq<char>, u64)> {
    Seq::new(v.len(), |i: int| (v[i].0@, v[i].1))
}

fn find_number(v: &Vec<(Vec<char>, u64)>, key: &[char]) -> (r: Option<u64>)
    ensures
        r == value_for(numbers_view(v@), key@, v@.len() as int),
{
    let ghost all = numbers_view(v@);
    let mut i: usize = v.len();
    while i > 0
        invariant
            i <= v@.len(),
            all == numbers_view(v@),
            value_for(all, key@, i as int) == value_for(all, key@, v@.len() as int),
        decreases i,
    {
        if same_chars(&v[i - 1].0, key) {
            return Some(v[i - 1].1);
        }
        i -= 1;
    }
    None
}

proof fn lemma_value_somewhere(v: Seq<(Seq<char>, u64)>, key: Seq<char>, n: int)
    requires
        0 <= n <= v.len(),
        value_for(v, key, n) is Some,
    ensures
        exists|i: int| 0 <= i < n && (#[trigger] v[i]).0 == key,
    decreases n,
{
    if v[n - 1].0 != key {
        lemma_value_somewhere(v, key, n - 1);
    }
}

fn added_last(members: &Vec<(Vec<char>, Vec<char>)>, i: usize) -> (r: bool)
    requires
        i < members.len(),
    ensures
        r == is_last(pairs_view(members@), i as int),
{
    let ghost all = pairs_view(members@);
    let n: usize = members.len();
    let mut j: usize = i + 1;
    while j < n
        invariant
            i < j <= n,
            n == members@.len(),
            all == pairs_view(members@),
            forall|k: int| i < k < j ==> (#[trigger] all[k]).0 != all[i as int].0,
        decreases n - j,
    {
        if same_chars(&members[j].0, &members[i].0) {
            assert(all[j as int].0 == all[i as int].0);
            return false;
        }
        j += 1;
    }
    true
}

/// Bytes that the partitions of a group take.
fn total_of(
    members: &Vec<(Vec<char>, Vec<char>)>,
    resized: &Vec<(Vec<char>, u64)>,
    g: &[char],
) -> (r: u128)
    ensures
        r == group_bytes(
            pairs_view(members@),
            numbers_view(resized@),
            g@,
            members@.len() as int,
        ),
{
    let ghost ms = pairs_view(members@);
    let ghost rs = numbers_view(resized@);
    let n: usize = members.len();
    let mut total: u128 = 0;
    let mut i: usize = 0;
    while i < n
        invariant
            i <= n,
            n == members@.len(),
            ms == pairs_view(members@),
            rs == numbers_view(resized@),
            total == group_bytes(ms, rs, g@, i as int),
            total <= i * 0x1_0000_0000_0000_0000,
        decreases n - i,
    {
        if same_chars(&members[i].1, g) && added_last(members, i) {
            if let Some(b) = find_number(resized, &members[i].0) {
                total = total + b as u128;
            }
        }
        i += 1;
    }
    total
}

fn find_fault(
    limits: &Vec<(Vec<char>, u64)>,
    members: &Vec<(Vec<char>, Vec<char>)>,
    resized: &Vec<(Vec<char>, u64)>,
) -> (r: bool)
    ensures
        r == exists|g: Seq<char>|
            #[trigger] is_overfull(
                numbers_view(limits@),
                pairs_view(members@),
                numbers_view(resized@),
                g,
            ),
{
    let ghost ls = numbers_view(limits@);
    let ghost ms = pairs_view(members@);
    let ghost rs = numbers_view(resized@);
    let n: usize = limits.len();
    let mut i: usize = 0;
    while i < n
        invariant
            i <= n,
            n == limits@.len(),
            ls == numbers_view(limits@),
            ms == pairs_view(members@),
            rs == numbers_view(resized@),
            forall|k: int| 0 <= k < i ==> !is_overfull(ls, ms, rs, (#[trigger] ls[k]).0),
        decreases n - i,
    {
        let g: &Vec<char> = &limits[i].0;
        assert(g@ == ls[i as int].0);
        let max: Option<u64> = find_number(limits, g);
        if let Some(max) = max {
            if total_of(members, resized, g) > max as u128 {
                assert(is_overfull(ls, ms, rs, g@));
                return true;
            }
        }
        i += 1;
    }
    proof {
        assert forall|g: Seq<char>| !(#[trigger] is_overfull(ls, ms, rs, g)) by {
            if value_for(ls, g, ls.len() as int) is Some {
                lemma_value_somewhere(ls, g, ls.len() as int);
                let k = choose|k: int| 0 <= k < ls.len() && (#[trigger] ls[k]).0 == g;
                assert(!is_overfull(ls, ms, rs, ls[k].0));
            }
        }
    }
    false
}

fn copy_of(v: &Vec<char>) -> (r: Vec<char>)
    ensures
        r@ == v@,
{
    let c: Vec<char> = part(v, 0, v.len());
    assert(c@ =~= v@);
    c
}

fn does(f: &Vec<Vec<char>>, op: &str) -> (r: bool)
    ensures
        r == (f@.len() == 3 && f@[0]@ == op@),
{
    f.len() == 3 && same_chars(&f[0], &chars_of(op))
}

fn number_else(s: &[char], other: u64) -> (r: u64)
    ensures
        r == number_or(s@, other),
{
    match parse_number(s, 10, u64::MAX) {
        Some(n) => n,
        None => other,
    }
}

/// Sets `resize <part> <bytes>` lines to the new sizes and checks the group
/// size limits.
pub fn update_op_list(text: &str, sizes: &Vec<(String, u64)>) -> (r: Result<String, Error>)
    ensures
        match r {
            Ok(s) => !group_fault(lines_of(text@), sizes@) && s@ == op_text(
                lines_of(text@),
                sizes@,
                lines_of(text@).len() as int,
            ),
            Err(e) => e == Error::OpListFull && group_fault(lines_of(text@), sizes@),
        },
{
    let ls: Vec<Vec<char>> = lines(&chars_of(text));
    let ghost all = lines_of(text@);
    let mut out: String = String::new();
    let mut limits: Vec<(Vec<char>, u64)> = Vec::new();
    let mut members: Vec<(Vec<char>, Vec<char>)> = Vec::new();
    let mut resized: Vec<(Vec<char>, u64)> = Vec::new();
    let n: usize = ls.len();
    let mut i: usize = 0;
    proof {
        assert(numbers_view(limits@) =~= Seq::<(Seq<char>, u64)>::empty());
        assert(pairs_view(members@) =~= Seq::<(Seq<char>, Seq<char>)>::empty());
        assert(numbers_view(resized@) =~= Seq::<(Seq<char>, u64)>::empty());
        reveal_strlit("add_group");
        reveal_strlit("add");
        reveal_strlit("resize");
    }
    while i < n
        invariant
            n == ls@.len(),
            n == all.len(),
            all == texts_view(ls@),
            i <= n,
            "add_group"@.len() == 9,
            "add"@.len() == 3,
            "resize"@.len() == 6,
            out@ == op_text(all, sizes@, i as int),
            numbers_view(limits@) == limits_in(all, i as int),
            pairs_view(members@) == members_in(all, i as int),
            numbers_view(resized@) == resized_in(all, sizes@, i as int),
        decreases n - i,
    {
        assert(all[i as int] == ls@[i as int]@);
        let f: Vec<Vec<char>> = words(&ls[i]);
        let ghost fw = words_of(all[i as int]);
        assert(fw == texts_view(f@));
        assert(forall|k: int| 0 <= k < f@.len() ==> fw[k] == f@[k]@);
        if does(&f, "resize") {
            let name: String = string_of(&f[1]);
            let new: u64 = match find_size(sizes, name.as_str()) {
                Some(n) => n,
                None => number_else(&f[2], 0),
            };
            out.append("resize ");
            out.append(name.as_str());
            out.append(" ");
            push_decimal(&mut out, new);
            let ghost was = resized@;
            resized.push((copy_of(&f[1]), new));
            proof {
                assert(numbers_view(resized@) =~= numbers_view(was).push((fw[1], new)));
                let l = op_line(all[i as int], sizes@);
                assert(out@ =~= op_text(all, sizes@, i as int) + l);
            }
        } else {
            if does(&f, "add_group") {
                let ghost was = limits@;
                limits.push((copy_of(&f[1]), number_else(&f[2], u64::MAX)));
                assert(numbers_view(limits@) =~= numbers_view(was).push(
                    (fw[1], number_or(fw[2], u64::MAX)),
                ));
            } else if does(&f, "add") {
                let ghost was = members@;
                members.push((copy_of(&f[1]), copy_of(&f[2])));
                assert(pairs_view(members@) =~= pairs_view(was).push((fw[1], fw[2])));
            }
            out.append(string_of(&ls[i]).as_str());
        }
        out.append("\n");
        i += 1;
    }
    if find_fault(&limits, &members, &resized) {
        return Err(Error::OpListFull);
    }
    Ok(out)
}

/// A line that sets a size, written anew, comes apart into what it was made of.
pub proof fn lemma_resize_line(p: Seq<char>, n: nat)
    requires
        is_word(p),
    ensures
        one_line("resize "@ + p + " "@ + decimal(n)),
        operands("resize "@ + p + " "@ + decimal(n), "resize"@) == Some((p, decimal(n))),
{
    reveal_strlit("resize ");
    reveal_strlit("resize");
    reveal_strlit(" ");
    let d = decimal(n);
    lemma_decimal(n);
    lemma_digits_word(d, 10);
    lemma_alone(d);
    lemma_then(p, d);
    lemma_then("resize"@, then(p, d));
    assert(plain(d));
    lemma_plain_then(p, d);
    lemma_plain_then("resize"@, then(p, d));
    let s = then("resize"@, then(p, d));
    lemma_plain_line(s);
    assert("resize "@ + p + " "@ + d =~= s);
    assert(words_of(s) =~= seq!["resize"@, p, d]);
}

proof fn lemma_op_line(line: Seq<char>, sizes: Seq<(String, u64)>)
    requires
        one_line(line),
    ensures
        one_line(op_line(line, sizes)),
        op_line(op_line(line, sizes), sizes) == op_line(line, sizes),
{
    if let Some((p, b)) = operands(line, "resize"@) {
        lemma_words_at(line, 0);
        assert(p == words_of(line)[1]);
        let n = new_size(sizes, p, b) as nat;
        lemma_resize_line(p, n);
        lemma_decimal(n);
        lemma_digits_word(decimal(n), 10);
        assert(number_or(decimal(n), 0) == n);
    }
}

/// An updated op list has the same lines in the same order, but for the sizes
/// of the lines that set one.
pub proof fn op_list_keeps_lines(lines: Seq<Seq<char>>, sizes: Seq<(String, u64)>, n: int)
    requires
        0 <= n <= lines.len(),
        forall|i: int| 0 <= i < lines.len() ==> one_line(#[trigger] lines[i]),
    ensures
        lines_of(op_text(lines, sizes, n)) == Seq::new(n as nat, |i: int| op_line(lines[i], sizes)),
        op_text(lines, sizes, n).len() == 0 || op_text(lines, sizes, n).last() == '\n',
    decreases n,
{
    let want = Seq::new(n as nat, |i: int| op_line(lines[i], sizes));
    if n > 0 {
        op_list_keeps_lines(lines, sizes, n - 1);
        let t = op_text(lines, sizes, n - 1);
        let l = op_line(lines[n - 1], sizes);
        lemma_op_line(lines[n - 1], sizes);
        lemma_add_line(t, l);
        assert(op_text(lines, sizes, n) =~= t + (l + "\n"@));
        assert(want =~= Seq::new((n - 1) as nat, |i: int| op_line(lines[i], sizes)).push(l));
    } else {
        assert(lines_of(op_text(lines, sizes, n)) =~= want);
    }
}

proof fn lemma_same_text(a: Seq<Seq<char>>, b: Seq<Seq<char>>, sizes: Seq<(String, u64)>, n: int)
    requires
        forall|i: int|
            0 <= i < n ==> op_line(#[trigger] a[i], sizes) == op_line(#[trigger] b[i], sizes),
    ensures
        op_text(a, sizes, n) == op_text(b, sizes, n),
    decreases n,
{
    if n > 0 {
        lemma_same_text(a, b, sizes, n - 1);
        assert(op_line(a[n - 1], sizes) == op_line(b[n - 1], sizes));
    }
}

/// Updating an op list that was updated with the same sizes changes nothing.
pub proof fn op_list_settles(text: Seq<char>, sizes: Seq<(String, u64)>)
    requires
        forall|i: int| 0 <= i < lines_of(text).len() ==> one_line(#[trigger] lines_of(text)[i]),
    ensures
        ({
            let lines = lines_of(text);
            let new = op_text(lines, sizes, lines.len() as int);
            op_text(lines_of(new), sizes, lines_of(new).len() as int) == new
        }),
{
    let lines = lines_of(text);
    let n = lines.len() as int;
    op_list_keeps_lines(lines, sizes, n);
    let new = op_text(lines, sizes, n);
    let again = lines_of(new);
    assert forall|i: int| 0 <= i < n implies op_line(#[trigger] again[i], sizes) == op_line(
        #[trigger] lines[i],
        sizes,
    ) by {
        lemma_op_line(lines[i], sizes);
    }
    lemma_same_text(again, lines, sizes, n);
}

/// What the lines of an updated op list say.
proof fn lemma_tables(
    lines: Seq<Seq<char>>,
    new: Seq<Seq<char>>,
    sizes: Seq<(String, u64)>,
    none: Seq<(String, u64)>,
    n: int,
)
    requires
        0 <= n <= lines.len(),
        none.len() == 0,
        forall|i: int| 0 <= i < n ==> #[trigger] new[i] == op_line(lines[i], sizes),
    ensures
        limits_in(new, n) == limits_in(lines, n),
        members_in(new, n) == members_in(lines, n),
        resized_in(new, none, n) == resized_in(lines, sizes, n),
    decreases n,
{
    if n > 0 {
        lemma_tables(lines, new, sizes, none, n - 1);
        let line = lines[n - 1];
        assert(new[n - 1] == op_line(line, sizes));
        if let Some((p, b)) = operands(line, "resize"@) {
            lemma_words_at(line, 0);
            assert(p == words_of(line)[1]);
            let m = new_size(sizes, p, b) as nat;
            lemma_resize_line(p, m);
            lemma_decimal(m);
            lemma_digits_word(decimal(m), 10);
            assert(size_for(none, p, 0) is None);
            assert(new_size(none, p, decimal(m)) == m);
            reveal_strlit("resize");
            reveal_strlit("add");
            reveal_strlit("add_group");
            assert("resize"@[0] == 'r');
            assert("add"@[0] == 'a');
            assert("add_group"@[0] == 'a');
        }
    }
}

/// An updated op list says the new sizes by itself, and the groups in it have
/// room for them.
pub proof fn op_list_fits(text: Seq<char>, sizes: Seq<(String, u64)>, none: Seq<(String, u64)>)
    requires
        forall|i: int| 0 <= i < lines_of(text).len() ==> one_line(#[trigger] lines_of(text)[i]),
        !group_fault(lines_of(text), sizes),
        none.len() == 0,
    ensures
        ({
            let lines = lines_of(text);
            let new = lines_of(op_text(lines, sizes, lines.len() as int));
            &&& resized_in(new, none, new.len() as int) == resized_in(
                lines,
                sizes,
                lines.len() as int,
            )
            &&& !group_fault(new, none)
        }),
{
    let lines = lines_of(text);
    let n = lines.len() as int;
    op_list_keeps_lines(lines, sizes, n);
    let new = lines_of(op_text(lines, sizes, n));
    lemma_tables(lines, new, sizes, none, n);
    assert forall|g: Seq<char>|
        !(#[trigger] is_overfull(
            limits_in(new, n),
            members_in(new, n),
            resized_in(new, none, n),
            g,
        )) by {
        assert(!is_overfull(
            limits_in(lines, n),
            members_in(lines, n),
            resized_in(lines, sizes, n),
            g,
        ));
    }
}

} // verus!
