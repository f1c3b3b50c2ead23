//! When the groups of dynamic partitions have room for their partitions.
use vstd::prelude::*;
use crate::build::config::value_for;
use crate::factory::size_for;
use crate::rom::op_list::{bytes_at, group_bytes, group_fault, is_last, is_overfull, limits_in,
    members_in, new_size, operands, resized_in};
use crate::words::{number, words_of};

verus! {

/// What a line says of `a` where it does `op`.
pub open spec fn said(line: Seq<char>, op: Seq<char>, a: Seq<char>) -> Option<Seq<char>> {
    let w = words_of(line);
    if w.len() == 3 && w[0] == op && w[1] == a {
        Some(w[2])
    } else {
        None
    }
}

/// What the last of the first `n` lines that does `op` with `a` says.
pub open spec fn last_said(lines: Seq<Seq<char>>, op: Seq<char>, a: Seq<char>, n: int) -> Option<
    Seq<char>,
>
    decreases n,
{
    if n <= 0 {
        None
    } else if said(lines[n - 1], op, a) is Some {
        said(lines[n - 1], op, a)
    } else {
        last_said(lines, op, a, n - 1)
    }
}

/// A number of 64 bits, or `other` where a text is none.
pub open spec fn read_or(s: Seq<char>, other: int) -> int {
    match number(s, 10) {
        Some(n) => if n <= u64::MAX {
            n as int
        } else {
            other
        },
        None => other,
    }
}

/// The most that a group can hold, where the lines limit it.
pub open spec fn limit_of(lines: Seq<Seq<char>>, g: Seq<char>) -> Option<int> {
    match last_said(lines, "add_group"@, g, lines.len() as int) {
        Some(t) => Some(read_or(t, u64::MAX as int)),
        None => None,
    }
}

/// The size of a partition: none where no line sets it, else the new one, or
/// what the last line says.
pub open spec fn size_of(lines: Seq<Seq<char>>, sizes: Seq<(String, u64)>, p: Seq<char>) -> int {
    match last_said(lines, "resize"@, p, lines.len() as int) {
        None => 0,
        Some(t) => match size_for(sizes, p, sizes.len() as int) {
            Some(n) => n as int,
            None => read_or(t, 0),
        },
    }
}

/// Line `k` adds a partition to a group, and no later line adds it again.
pub open spec fn adds(lines: Seq<Seq<char>>, g: Seq<char>, k: int) -> bool {
    let w = words_of(lines[k]);
    &&& w.len() == 3 && w[0] == "add"@ && w[2] == g
    &&& forall|j: int| k < j < lines.len() ==> said(#[trigger] lines[j], "add"@, w[1]) is None
}

/// Bytes of the partitions that the first `n` lines add to a group for good.
pub open spec fn total_of(
    lines: Seq<Seq<char>>,
    sizes: Seq<(String, u64)>,
    g: Seq<char>,
    n: int,
) -> int
    decreases n,
{
    if n <= 0 {
        0
    } else {
        total_of(lines, sizes, g, n - 1) + if adds(lines, g, n - 1) {
            size_of(lines, sizes, words_of(lines[n - 1])[1])
        } else {
            0
        }
    }
}

proof fn lemma_value_push<T>(v: Seq<(Seq<char>, T)>, x: (Seq<char>, T), key: Seq<char>, n: int)
    requires
        0 <= n <= v.len(),
    ensures
        value_for(v.push(x), key, n) == value_for(v, key, n),
    decreases n,
{
    if n > 0 {
        lemma_value_push(v, x, key, n - 1);
        assert(v.push(x)[n - 1] == v[n - 1]);
    }
}

proof fn lemma_limits(lines: Seq<Seq<char>>, g: Seq<char>, n: int)
    requires
        0 <= n <= lines.len(),
    ensures
        ({
            let v = limits_in(lines, n);
            match last_said(lines, "add_group"@, g, n) {
                Some(t) => value_for(v, g, v.len() as int) == Some(
                    read_or(t, u64::MAX as int) as u64,
                ),
                None => value_for(v, g, v.len() as int) is None,
            }
        }),
    decreases n,
{
    if n > 0 {
        lemma_limits(lines, g, n - 1);
        let had = limits_in(lines, n - 1);
        if let Some((h, t)) = operands(lines[n - 1], "add_group"@) {
            lemma_value_push(
                had,
                (h, crate::rom::op_list::number_or(t, u64::MAX)),
                g,
                had.len() as int,
            );
        }
    }
}

proof fn lemma_resized(lines: Seq<Seq<char>>, sizes: Seq<(String, u64)>, p: Seq<char>, n: int)
    requires
        0 <= n <= lines.len(),
    ensures
        ({
            let v = resized_in(lines, sizes, n);
            match last_said(lines, "resize"@, p, n) {
                Some(t) => value_for(v, p, v.len() as int) == Some(new_size(sizes, p, t)),
                None => value_for(v, p, v.len() as int) is None,
            }
        }),
    decreases n,
{
    if n > 0 {
        lemma_resized(lines, sizes, p, n - 1);
        let had = resized_in(lines, sizes, n - 1);
        if let Some((h, t)) = operands(lines[n - 1], "resize"@) {
            lemma_value_push(had, (h, new_size(sizes, h, t)), p, had.len() as int);
        }
    }
}

/// Members of the first `n` lines come first, and those behind them are added
/// by the lines behind.
proof fn lemma_members(lines: Seq<Seq<char>>, p: Seq<char>, n: int, m: int)
    requires
        0 <= n <= m <= lines.len(),
    ensures
        ({
            let a = members_in(lines, n);
            let b = members_in(lines, m);
            &&& a.len() <= b.len()
            &&& forall|j: int| 0 <= j < a.len() ==> a[j] == #[trigger] b[j]
            &&& (exists|j: int| a.len() <= j < b.len() && (#[trigger] b[j]).0 == p)
                == (exists|k: int|
                n <= k < m && said(#[trigger] lines[k], "add"@, p) is Some)
        }),
    decreases m - n,
{
    let a = members_in(lines, n);
    let b = members_in(lines, m);
    if n < m {
        lemma_members(lines, p, n, m - 1);
        let c = members_in(lines, m - 1);
        let line = lines[m - 1];
        if operands(line, "add"@) is Some {
            assert(b == c.push(operands(line, "add"@)->Some_0));
        } else {
            assert(b == c);
        }
        if exists|j: int| a.len() <= j < b.len() && (#[trigger] b[j]).0 == p {
            let j = choose|j: int| a.len() <= j < b.len() && (#[trigger] b[j]).0 == p;
            if j < c.len() {
                assert(c[j].0 == p);
                let k = choose|k: int|
                    n <= k < m - 1 && said(#[trigger] lines[k], "add"@, p) is Some;
                assert(n <= k < m && said(lines[k], "add"@, p) is Some);
            } else {
                assert(said(lines[m - 1], "add"@, p) is Some);
            }
        }
        if exists|k: int| n <= k < m && said(#[trigger] lines[k], "add"@, p) is Some {
            let k = choose|k: int| n <= k < m && said(#[trigger] lines[k], "add"@, p) is Some;
            if k < m - 1 {
                assert(n <= k < m - 1 && said(lines[k], "add"@, p) is Some);
                let j = choose|j: int| a.len() <= j < c.len() && (#[trigger] c[j]).0 == p;
                assert(b[j].0 == p);
            } else {
                assert(b[c.len() as int].0 == p);
            }
        }
    }
}

proof fn lemma_total(lines: Seq<Seq<char>>, sizes: Seq<(String, u64)>, g: Seq<char>, n: int)
    requires
        0 <= n <= lines.len(),
    ensures
        group_bytes(
            members_in(lines, lines.len() as int),
            resized_in(lines, sizes, lines.len() as int),
            g,
            members_in(lines, n).len() as int,
        ) == total_of(lines, sizes, g, n),
    decreases n,
{
    if n > 0 {
        lemma_total(lines, sizes, g, n - 1);
        let all = members_in(lines, lines.len() as int);
        let r = resized_in(lines, sizes, lines.len() as int);
        let i = members_in(lines, n - 1).len() as int;
        let line = lines[n - 1];
        if let Some((p, h)) = operands(line, "add"@) {
            lemma_members(lines, p, n, lines.len() as int);
            let a = members_in(lines, n);
            assert(a[i] == (p, h));
            assert(all[i] == (p, h));
            assert(a.len() == i + 1);
            lemma_resized(lines, sizes, p, lines.len() as int);
            if is_last(all, i) {
                if exists|k: int|
                    n <= k < lines.len() && said(#[trigger] lines[k], "add"@, p) is Some {
                    let j = choose|j: int| a.len() <= j < all.len() && (#[trigger] all[j]).0 == p;
                    assert(all[j].0 != all[i].0);
                }
                assert forall|j: int| n - 1 < j < lines.len() implies said(
                    #[trigger] lines[j],
                    "add"@,
                    p,
                ) is None by {
                    if said(lines[j], "add"@, p) is Some {
                        assert(n <= j < lines.len() && said(lines[j], "add"@, p) is Some);
                    }
                }
                assert(adds(lines, g, n - 1) == (h == g));
            } else {
                let j = choose|j: int| i < j < all.len() && (#[trigger] all[j]).0 == all[i].0;
                assert(a.len() <= j < all.len() && all[j].0 == p);
                let k = choose|k: int|
                    n <= k < lines.len() && said(#[trigger] lines[k], "add"@, p) is Some;
                assert(!adds(lines, g, n - 1));
            }
            assert(group_bytes(all, r, g, i + 1) == group_bytes(all, r, g, i) + bytes_at(
                all,
                r,
                g,
                i,
            ));
        } else {
            assert(!adds(lines, g, n - 1));
        }
    }
}

/// An op list is refused exactly when the partitions of some group take more
/// than the group can hold. A partition counts in the group that it was last
/// added to, with its new size or else the size that was last set.
pub proof fn groups_have_room(lines: Seq<Seq<char>>, sizes: Seq<(String, u64)>)
    ensures
        group_fault(lines, sizes) == exists|g: Seq<char>|
            (#[trigger] limit_of(lines, g)) is Some && total_of(
                lines,
                sizes,
                g,
                lines.len() as int,
            ) > limit_of(lines, g)->Some_0,
{
    let n = lines.len() as int;
    let l = limits_in(lines, n);
    let m = members_in(lines, n);
    let r = resized_in(lines, sizes, n);
    assert forall|g: Seq<char>| #[trigger] is_overfull(l, m, r, g) == (limit_of(lines, g) is Some
        && total_of(lines, sizes, g, n) > limit_of(lines, g)->Some_0) by {
        lemma_limits(lines, g, n);
        lemma_total(lines, sizes, g, n);
    }
    if group_fault(lines, sizes) {
        let g = choose|g: Seq<char>| #[trigger] is_overfull(l, m, r, g);
        assert(limit_of(lines, g) is Some);
    }
    if exists|g: Seq<char>|
        (#[trigger] limit_of(lines, g)) is Some && total_of(lines, sizes, g, n) > limit_of(
            lines,
            g,
        )->Some_0 {
        let g = choose|g: Seq<char>|
            (#[trigger] limit_of(lines, g)) is Some && total_of(lines, sizes, g, n) > limit_of(
                lines,
                g,
            )->Some_0;
        assert(is_overfull(l, m, r, g));
    }
}

} // verus!
