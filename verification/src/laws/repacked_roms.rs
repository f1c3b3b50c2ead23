//! What the list of dynamic partitions says of a ROM that was packed anew.
use vstd::prelude::*;
use vstd::utf8::encode_utf8;
use crate::apart::{is_word, lemma_words_at, one_line};
use crate::archive::Written;
use crate::factory::size_for;
use crate::laws::texts::decimal_reads_back;
use crate::rom::config::RepackOptions;
use crate::rom::op_list::{lemma_resize_line, op_line, op_list_keeps_lines, op_text, operands};
use crate::rom::repack::{grown, repacks, rom_files, rom_written, sizes_view, BuiltPart, RomEntry};
use crate::text::decimal;
use crate::words::{lines_of, number, words_of};

verus! {

/// No two partitions have the same name.
pub open spec fn names_differ(parts: Seq<BuiltPart>) -> bool {
    forall|i: int, j: int|
        0 <= i < j < parts.len() ==> (#[trigger] parts[i]).partition.name@ != (
        #[trigger] parts[j]).partition.name@
}

proof fn lemma_grown(parts: Seq<BuiltPart>, i: int, n: int)
    requires
        names_differ(parts),
        0 <= i < parts.len(),
        0 <= n <= parts.len(),
    ensures
        ({
            let s = grown(parts, n);
            let name = parts[i].partition.name@;
            if i < n && parts[i].fs_bytes > parts[i].partition.size {
                exists|k: int|
                    0 <= k < s.len() && s[k] == (name, parts[i].fs_bytes) && forall|j: int|
                        0 <= j < s.len() && j != k ==> (#[trigger] s[j]).0 != name
            } else {
                forall|k: int| 0 <= k < s.len() ==> (#[trigger] s[k]).0 != name
            }
        }),
        forall|k: int|
            0 <= k < grown(parts, n).len() ==> exists|j: int|
                0 <= j < n && (#[trigger] parts[j]).partition.name@ == (#[trigger] grown(
                    parts,
                    n,
                )[k]).0 && parts[j].fs_bytes == grown(parts, n)[k].1 && parts[j].fs_bytes
                    > parts[j].partition.size,
    decreases n,
{
    let s = grown(parts, n);
    let name = parts[i].partition.name@;
    if n > 0 {
        lemma_grown(parts, i, n - 1);
        let had = grown(parts, n - 1);
        let p = parts[n - 1];
        let grew = p.fs_bytes > p.partition.size;
        if i < n - 1 {
            assert(parts[i].partition.name@ != p.partition.name@);
        } else if i > n - 1 {
            assert(p.partition.name@ != parts[i].partition.name@);
        }
        assert(p.partition@.size == p.partition.size);
        assert(p.partition@.name == p.partition.name@);
        assert(s == if grew {
            had.push((p.partition.name@, p.fs_bytes))
        } else {
            had
        });
        if i < n && parts[i].fs_bytes > parts[i].partition.size {
            if i == n - 1 {
                let k = had.len() as int;
                assert(s[k] == (name, parts[i].fs_bytes));
                assert forall|j: int| 0 <= j < s.len() && j != k implies (#[trigger] s[j]).0
                    != name by {
                    assert(s[j] == had[j]);
                }
            } else {
                let k = choose|k: int|
                    0 <= k < had.len() && had[k] == (name, parts[i].fs_bytes) && forall|j: int|
                        0 <= j < had.len() && j != k ==> (#[trigger] had[j]).0 != name;
                assert(s[k] == had[k]);
                assert forall|j: int| 0 <= j < s.len() && j != k implies (#[trigger] s[j]).0
                    != name by {
                    if j < had.len() {
                        assert(s[j] == had[j]);
                    }
                }
            }
        } else {
            assert forall|k: int| 0 <= k < s.len() implies (#[trigger] s[k]).0 != name by {
                if k < had.len() {
                    assert(s[k] == had[k]);
                }
            }
        }
        assert forall|k: int| 0 <= k < s.len() implies exists|j: int|
            0 <= j < n && (#[trigger] parts[j]).partition.name@ == (#[trigger] s[k]).0
                && parts[j].fs_bytes == s[k].1 && parts[j].fs_bytes > parts[j].partition.size by {
            if k < had.len() {
                assert(s[k] == had[k]);
            } else {
                assert(parts[n - 1].partition.name@ == s[k].0);
            }
        }
    }
}

/// The sizes have every partition whose file system outgrew it, once and with
/// the bytes of its file system, and nothing else.
pub proof fn grown_partitions_are_listed(parts: Seq<BuiltPart>, i: int)
    requires
        names_differ(parts),
        0 <= i < parts.len(),
    ensures
        ({
            let s = grown(parts, parts.len() as int);
            let name = parts[i].partition.name@;
            if parts[i].fs_bytes > parts[i].partition.size {
                exists|k: int|
                    0 <= k < s.len() && s[k] == (name, parts[i].fs_bytes) && forall|j: int|
                        0 <= j < s.len() && j != k ==> (#[trigger] s[j]).0 != name
            } else {
                forall|k: int| 0 <= k < s.len() ==> (#[trigger] s[k]).0 != name
            }
        }),
        forall|k: int|
            0 <= k < grown(parts, parts.len() as int).len() ==> exists|j: int|
                0 <= j < parts.len() && (#[trigger] parts[j]).partition.name@ == (#[trigger] grown(
                    parts,
                    parts.len() as int,
                )[k]).0 && parts[j].fs_bytes == grown(parts, parts.len() as int)[k].1
                    && parts[j].fs_bytes > parts[j].partition.size,
{
    lemma_grown(parts, i, parts.len() as int);
}

proof fn lemma_size_for(sizes: Seq<(String, u64)>, name: Seq<char>, j: int, n: int)
    requires
        0 <= n <= sizes.len(),
    ensures
        0 <= j < n && sizes[j].0@ == name && (forall|k: int|
            j < k < n ==> (#[trigger] sizes[k]).0@ != name) ==> size_for(sizes, name, n) == Some(
            sizes[j].1,
        ),
        (forall|k: int| 0 <= k < n ==> (#[trigger] sizes[k]).0@ != name) ==> size_for(
            sizes,
            name,
            n,
        ) is None,
    decreases n,
{
    if n > 0 {
        lemma_size_for(sizes, name, j, n - 1);
    }
}

/// An updated op list has as many lines as before. A line that sets the size
/// of a partition sets the new size where there is one (the last one, `j`, of
/// the partition), and else the size that it did; every other line stays.
pub proof fn resize_lines_say_the_size(
    lines: Seq<Seq<char>>,
    sizes: Seq<(String, u64)>,
    k: int,
    j: int,
)
    requires
        forall|i: int| 0 <= i < lines.len() ==> one_line(#[trigger] lines[i]),
        0 <= k < lines.len(),
    ensures
        ({
            let new = lines_of(op_text(lines, sizes, lines.len() as int));
            let w = words_of(lines[k]);
            &&& new.len() == lines.len()
            &&& if w.len() == 3 && w[0] == "resize"@ {
                let u = words_of(new[k]);
                &&& u.len() == 3 && u[0] == "resize"@ && u[1] == w[1]
                &&& number(u[2], 10) is Some
                &&& 0 <= j < sizes.len() && sizes[j].0@ == w[1] && (forall|i: int|
                    j < i < sizes.len() ==> (#[trigger] sizes[i]).0@ != w[1]) ==> u[2] == decimal(
                    sizes[j].1 as nat,
                ) && number(u[2], 10) == Some(sizes[j].1 as nat)
                &&& (forall|i: int| 0 <= i < sizes.len() ==> (#[trigger] sizes[i]).0@ != w[1])
                    ==> number(u[2], 10) == match number(w[2], 10) {
                    Some(x) => if x <= u64::MAX {
                        Some(x)
                    } else {
                        Some(0nat)
                    },
                    None => Some(0nat),
                }
            } else {
                new[k] == lines[k]
            }
        }),
{
    let n = lines.len() as int;
    op_list_keeps_lines(lines, sizes, n);
    let new = lines_of(op_text(lines, sizes, n));
    let w = words_of(lines[k]);
    assert(new[k] == op_line(lines[k], sizes));
    if w.len() == 3 && w[0] == "resize"@ {
        lemma_words_at(lines[k], 0);
        assert(operands(lines[k], "resize"@) == Some((w[1], w[2])));
        assert(is_word(w[1]));
        lemma_size_for(sizes, w[1], j, sizes.len() as int);
        let m = crate::rom::op_list::new_size(sizes, w[1], w[2]) as nat;
        lemma_resize_line(w[1], m);
        decimal_reads_back(m);
    }
}

/// In the zip of a ROM the list of dynamic partitions has a line for each that
/// it had. A line that sets the size of a partition that outgrew it says the
/// bytes of its file system, which are more than it had; one of a partition
/// that did not says what it did.
pub proof fn packed_list_has_room(
    files: Seq<Written>,
    opts: RepackOptions,
    parts: Seq<BuiltPart>,
    folder: RomEntry,
    text: Seq<char>,
    sizes: Seq<(String, u64)>,
    f: int,
    i: int,
    k: int,
)
    requires
        repacks(files, opts, parts, folder, Some(text), sizes),
        names_differ(parts),
        forall|x: int| 0 <= x < lines_of(text).len() ==> one_line(#[trigger] lines_of(text)[x]),
        0 <= f < rom_files(folder).len(),
        rom_files(folder)[f].path == "dynamic_partitions_op_list"@,
        0 <= i < parts.len(),
        0 <= k < lines_of(text).len(),
        words_of(lines_of(text)[k]).len() == 3,
        words_of(lines_of(text)[k])[0] == "resize"@,
        words_of(lines_of(text)[k])[1] == parts[i].partition.name@,
    ensures
        exists|new: Seq<char>|
            {
                let u = words_of(lines_of(new)[k]);
                let w = words_of(lines_of(text)[k]);
                &&& #[trigger] encode_utf8(new) == files[3 * parts.len() + f].data
                &&& lines_of(new).len() == lines_of(text).len()
                &&& u.len() == 3 && u[0] == "resize"@ && u[1] == parts[i].partition.name@
                &&& number(u[2], 10) == if parts[i].fs_bytes > parts[i].partition.size {
                    Some(parts[i].fs_bytes as nat)
                } else {
                    match number(w[2], 10) {
                        Some(x) => if x <= u64::MAX {
                            Some(x)
                        } else {
                            Some(0nat)
                        },
                        None => Some(0nat),
                    }
                }
            },
{
    let lines = lines_of(text);
    let new = op_text(lines, sizes, lines.len() as int);
    let all = rom_files(folder);
    let rest = files.skip(3 * parts.len() as int);
    assert(rest[f] == files[3 * parts.len() + f]);
    assert(rest[f] == rom_written(all[f], Some(text), sizes, opts.zip_level));
    let s = sizes_view(sizes);
    let name = parts[i].partition.name@;
    grown_partitions_are_listed(parts, i);
    if parts[i].fs_bytes > parts[i].partition.size {
        let j = choose|j: int|
            0 <= j < s.len() && s[j] == (name, parts[i].fs_bytes) && forall|x: int|
                0 <= x < s.len() && x != j ==> (#[trigger] s[x]).0 != name;
        assert(sizes[j].0@ == name && sizes[j].1 == parts[i].fs_bytes);
        assert forall|x: int| j < x < sizes.len() implies (#[trigger] sizes[x]).0@ != name by {
            assert(s[x].0 != name);
        }
        resize_lines_say_the_size(lines, sizes, k, j);
    } else {
        assert forall|x: int| 0 <= x < sizes.len() implies (#[trigger] sizes[x]).0@ != name by {
            assert(s[x].0 != name);
        }
        resize_lines_say_the_size(lines, sizes, k, 0);
    }
    assert(encode_utf8(new) == files[3 * parts.len() + f].data);
}

} // verus!
