//! ROM workflow: unpack a flashable ROM zip into editable folders, and repack
//! them into a new zip.
//!
//! ```text
//! <work>/rom/                  the rest of the ROM zip (META-INF, boot.img, firmware, ...)
//! <work>/partition/<part>/     extracted partitions, and their metadata in
//! <work>/partition/config/
//! <work>/jancox_rom            what unpack found, for repack (key=value)
//! <work>/tmp/                  images while building
//! <work>/output/NewROM-<date>.zip
//! ```
//!
//! Partitions are block-based OTA data (`<part>.transfer.list` +
//! `<part>.new.dat[.br]`).
use vstd::prelude::*;
use crate::extract::strings_view;
use crate::fs::order::{before, is_before, lemma_before};
use crate::rom::state::{parts_view, Partition, PartitionView};
use crate::text::chars_of;
use crate::words::{find, join_path, lemma_find, parts_at, path_in, same_chars, split_parts,
    texts_view};

pub mod config;
pub mod name;
pub mod op_list;
pub mod repack;
pub mod round_trip;
pub mod state;
pub mod unpack;

verus! {

/// Folder holding the extracted partitions and their `config/`.
pub fn partition_dir(work: &str) -> (r: String)
    ensures
        r@ == path_in(work@, "partition"@),
{
    proof {
        reveal_strlit("partition");
    }
    join_path(work, "partition")
}

/// What is missing in a work folder.
pub open spec fn missing(has_input: bool, has_output: bool, has_config: bool) -> Seq<Seq<char>> {
    let none = Seq::<Seq<char>>::empty();
    let a = if has_input {
        none
    } else {
        none.push("input"@)
    };
    let b = if has_output {
        a
    } else {
        a.push("output"@)
    };
    if has_config {
        b
    } else {
        b.push("jancox.prop"@)
    }
}

pub(crate) proof fn lemma_push_text(v: Seq<String>, s: String)
    ensures
        strings_view(v.push(s)) == strings_view(v).push(s@),
{
    assert(strings_view(v.push(s)) =~= strings_view(v).push(s@));
}

fn push_text(v: &mut Vec<String>, s: &str)
    ensures
        strings_view(final(v)@) == strings_view(old(v)@).push(s@),
{
    let t: String = s.to_string();
    proof {
        lemma_push_text(v@, t);
    }
    v.push(t);
}

/// What to create in a work folder: `input/`, `output/` and a default
/// `jancox.prop`, each only when missing.
pub fn init(has_input: bool, has_output: bool, has_config: bool) -> (r: Vec<String>)
    ensures
        strings_view(r@) == missing(has_input, has_output, has_config),
{
    let mut v: Vec<String> = Vec::new();
    assert(strings_view(v@) =~= Seq::<Seq<char>>::empty());
    if !has_input {
        push_text(&mut v, "input");
    }
    if !has_output {
        push_text(&mut v, "output");
    }
    if !has_config {
        push_text(&mut v, "jancox.prop");
    }
    v
}

/// An ASCII letter in lower case, as a byte.
pub open spec fn lower_byte(b: u8) -> u8 {
    if 65 <= b <= 90 {
        (b + 32) as u8
    } else {
        b
    }
}

/// A file name with the extension `zip`, in any case.
pub open spec fn is_zip_name(n: Seq<u8>) -> bool {
    let k = n.len() as int;
    k > 4 && n[k - 4] == 46 && lower_byte(n[k - 3]) == 122 && lower_byte(n[k - 2]) == 105
        && lower_byte(n[k - 1]) == 112
}

fn small(b: u8) -> (r: u8)
    ensures
        r == lower_byte(b),
{
    if 65 <= b && b <= 90 {
        b + 32
    } else {
        b
    }
}

fn zip_name(n: &[u8]) -> (r: bool)
    ensures
        r == is_zip_name(n@),
{
    let k: usize = n.len();
    k > 4 && n[k - 4] == 46 && small(n[k - 3]) == 122 && small(n[k - 2]) == 105 && small(n[k - 1])
        == 112
}

/// The ROM zip among the files of `input/`: the first zip in the order of
/// their names.
pub fn find_input(names: &Vec<Vec<u8>>) -> (r: Option<usize>)
    ensures
        match r {
            Some(i) => {
                &&& i < names@.len()
                &&& is_zip_name(names@[i as int]@)
                &&& forall|k: int|
                    0 <= k < names@.len() && is_zip_name((#[trigger] names@[k])@) ==> !before(
                        names@[k]@,
                        names@[i as int]@,
                    )
            },
            None => forall|k: int| 0 <= k < names@.len() ==> !is_zip_name((#[trigger] names@[k])@),
        },
{
    let n: usize = names.len();
    let mut best: Option<usize> = None;
    let mut i: usize = 0;
    while i < n
        invariant
            i <= n,
            n == names@.len(),
            match best {
                Some(b) => {
                    &&& b < i
                    &&& is_zip_name(names@[b as int]@)
                    &&& forall|k: int|
                        0 <= k < i && is_zip_name((#[trigger] names@[k])@) ==> !before(
                            names@[k]@,
                            names@[b as int]@,
                        )
                },
                None => forall|k: int| 0 <= k < i ==> !is_zip_name((#[trigger] names@[k])@),
            },
        decreases n - i,
    {
        if zip_name(&names[i]) {
            proof {
                lemma_before(names@[i as int]@, names@[i as int]@, names@[i as int]@);
            }
            match best {
                None => {
                    best = Some(i);
                },
                Some(b) => {
                    if is_before(&names[i], &names[b]) {
                        proof {
                            assert forall|k: int|
                                0 <= k < i + 1 && is_zip_name((#[trigger] names@[k])@) implies !before(
                                names@[k]@,
                                names@[i as int]@,
                            ) by {
                                lemma_before(names@[k]@, names@[i as int]@, names@[b as int]@);
                            }
                        }
                        best = Some(i);
                    }
                },
            }
        }
        i += 1;
    }
    best
}

/// A part of a path that is a name: not empty, and not `.`.
pub open spec fn is_step(part: Seq<char>) -> bool {
    part.len() > 0 && part != "."@
}

/// The first name on a path, from part `i` on.
pub open spec fn first_name(parts: Seq<Seq<char>>, i: int) -> Option<Seq<char>>
    decreases parts.len() - i,
{
    if i >= parts.len() {
        None
    } else if is_step(parts[i]) {
        Some(parts[i])
    } else {
        first_name(parts, i + 1)
    }
}

/// The entry of a folder that a path leads to or into; nothing for a path
/// that leads to the folder itself or out of it.
pub open spec fn entry_of(path: Seq<char>) -> Option<Seq<char>> {
    let parts = parts_at(path, '/', 0);
    if parts.contains(".."@) || (path.len() > 0 && path[0] == '/') {
        None
    } else {
        first_name(parts, 0)
    }
}

/// A path in the work folder that is not in `input/` or `output/`.
pub open spec fn is_unpacked(path: Seq<char>) -> bool {
    entry_of(path) is Some && entry_of(path) != Some("input"@) && entry_of(path) != Some("output"@)
}

/// Whether a path is in the work folder, and not in `input/` or `output/`.
fn unpacked(path: &str) -> (r: bool)
    ensures
        r == is_unpacked(path@),
{
    let chars: Vec<char> = chars_of(path);
    if chars.len() > 0 && chars[0] == '/' {
        return false;
    }
    let parts: Vec<Vec<char>> = split_parts(&chars, '/');
    let ghost all = parts_at(path@, '/', 0);
    let up: Vec<char> = chars_of("..");
    let here: Vec<char> = chars_of(".");
    let n: usize = parts.len();
    let mut i: usize = 0;
    while i < n
        invariant
            i <= n,
            n == parts@.len(),
            n == all.len(),
            all == texts_view(parts@),
            all == parts_at(path@, '/', 0),
            up@ == ".."@,
            forall|k: int| 0 <= k < i ==> #[trigger] all[k] != ".."@,
        decreases n - i,
    {
        assert(all[i as int] == parts@[i as int]@);
        if same_chars(&parts[i], &up) {
            assert(all.contains(all[i as int]));
            return false;
        }
        i += 1;
    }
    i = 0;
    while i < n && (parts[i].len() == 0 || same_chars(&parts[i], &here))
        invariant
            i <= n,
            n == parts@.len(),
            n == all.len(),
            all == texts_view(parts@),
            here@ == "."@,
            first_name(all, i as int) == first_name(all, 0),
        decreases n - i,
    {
        assert(all[i as int] == parts@[i as int]@);
        i += 1;
    }
    if i >= n {
        return false;
    }
    assert(all[i as int] == parts@[i as int]@);
    !same_chars(&parts[i], &chars_of("input")) && !same_chars(&parts[i], &chars_of("output"))
}

/// Where the first `n` partitions are, in the work folder itself.
pub open spec fn part_names(parts: Seq<PartitionView>, n: int) -> Seq<Seq<char>>
    decreases n,
{
    if n <= 0 {
        Seq::empty()
    } else if is_unpacked(parts[n - 1].name) {
        part_names(parts, n - 1).push(parts[n - 1].name)
    } else {
        part_names(parts, n - 1)
    }
}

/// What unpack and repack create in a work folder.
pub open spec fn created(parts: Option<Seq<PartitionView>>, has_partition_dir: bool, all: bool) -> Seq<
    Seq<char>,
> {
    let base = seq!["rom"@, "tmp"@, "partition"@];
    let old_form = match parts {
        Some(v) => if has_partition_dir {
            base
        } else {
            (base + part_names(v, v.len() as int)).push("config"@)
        },
        None => base,
    };
    let state = old_form.push("jancox_rom"@);
    if all {
        state.push("output"@)
    } else {
        state
    }
}

pub open spec fn recorded(parts: Option<&Vec<Partition>>) -> Option<Seq<PartitionView>> {
    match parts {
        Some(v) => Some(parts_view(v@)),
        None => None,
    }
}

/// What to remove from a work folder: what unpack and repack created in it,
/// and `output/` with `all`. `input/` is never touched. `parts` are the
/// partitions recorded by unpack.
pub fn cleanup(parts: Option<&Vec<Partition>>, has_partition_dir: bool, all: bool) -> (r: Vec<String>)
    ensures
        strings_view(r@) == created(recorded(parts), has_partition_dir, all),
{
    let mut v: Vec<String> = Vec::new();
    push_text(&mut v, "rom");
    push_text(&mut v, "tmp");
    push_text(&mut v, "partition");
    let ghost base = seq!["rom"@, "tmp"@, "partition"@];
    assert(strings_view(v@) =~= base);
    if let Some(parts) = parts {
        // without the partition folder, the partitions and config/ are
        // straight in the work folder
        if !has_partition_dir {
            let ghost all = parts_view(parts@);
            let n: usize = parts.len();
            let mut i: usize = 0;
            assert(base + part_names(all, 0) =~= base);
            while i < n
                invariant
                    i <= n,
                    n == parts@.len(),
                    all == parts_view(parts@),
                    strings_view(v@) == base + part_names(all, i as int),
                decreases n - i,
            {
                assert(all[i as int].name == parts@[i as int].name@);
                if unpacked(parts[i].name.as_str()) {
                    push_text(&mut v, parts[i].name.as_str());
                    assert((base + part_names(all, i as int)).push(all[i as int].name) =~= base
                        + part_names(all, i + 1));
                }
                i += 1;
            }
            push_text(&mut v, "config");
        }
    }
    push_text(&mut v, "jancox_rom");
    if all {
        push_text(&mut v, "output");
    }
    v
}

proof fn lemma_part_names(parts: Seq<PartitionView>, n: int)
    requires
        0 <= n <= parts.len(),
    ensures
        forall|i: int|
            0 <= i < part_names(parts, n).len() ==> is_unpacked(#[trigger] part_names(parts, n)[i]),
    decreases n,
{
    if n > 0 {
        lemma_part_names(parts, n - 1);
        let v = part_names(parts, n - 1);
        let w = part_names(parts, n);
        assert forall|i: int| 0 <= i < w.len() implies is_unpacked(#[trigger] w[i]) by {
            if i < v.len() {
                assert(is_unpacked(v[i]));
            }
        }
    }
}

/// A plain name leads to itself.
pub proof fn lemma_plain_name(s: Seq<char>)
    requires
        s.len() > 0,
        s[0] != '.',
        !s.contains('/'),
    ensures
        entry_of(s) == Some(s),
{
    lemma_find(s, '/', 0);
    let e = find(s, '/', 0);
    if e < s.len() {
        assert(s.contains(s[e]));
    }
    let parts = parts_at(s, '/', 0);
    assert(s.skip(0) =~= s);
    assert(parts =~= seq![s]);
    reveal_strlit(".");
    reveal_strlit("..");
    assert("."@[0] == '.' && ".."@[0] == '.');
    assert(parts[0] == s);
}

/// Cleaning up never touches `input/`, and `output/` only with `all`: nothing
/// that it removes is the work folder itself, is outside of it, or is in one
/// of the two.
pub proof fn cleanup_keeps(
    parts: Option<Seq<PartitionView>>,
    has_partition_dir: bool,
    all: bool,
    k: int,
)
    requires
        0 <= k < created(parts, has_partition_dir, all).len(),
    ensures
        ({
            let path = created(parts, has_partition_dir, all)[k];
            &&& entry_of(path) is Some
            &&& entry_of(path) != Some("input"@)
            &&& entry_of(path) == Some("output"@) ==> all
        }),
        created(parts, has_partition_dir, all).contains("output"@) == all,
{
    reveal_strlit("rom");
    reveal_strlit("tmp");
    reveal_strlit("partition");
    reveal_strlit("config");
    reveal_strlit("jancox_rom");
    reveal_strlit("input");
    reveal_strlit("output");
    assert("input"@[0] == 'i' && "output"@[0] == 'o');
    assert("rom"@[0] == 'r' && "tmp"@[0] == 't' && "partition"@[0] == 'p');
    assert("config"@[0] == 'c' && "jancox_rom"@[0] == 'j');
    lemma_plain_name("rom"@);
    lemma_plain_name("tmp"@);
    lemma_plain_name("partition"@);
    lemma_plain_name("config"@);
    lemma_plain_name("jancox_rom"@);
    lemma_plain_name("output"@);
    let names = match parts {
        Some(v) => part_names(v, v.len() as int),
        None => Seq::empty(),
    };
    if let Some(v) = parts {
        lemma_part_names(v, v.len() as int);
    }
    let c = created(parts, has_partition_dir, all);
    assert forall|j: int| 0 <= j < c.len() implies entry_of(#[trigger] c[j]) is Some && entry_of(c[j])
        != Some("input"@) && (entry_of(c[j]) == Some("output"@) ==> all) by {
        if 3 <= j < 3 + names.len() && parts is Some && !has_partition_dir {
            assert(c[j] == names[j - 3]);
        }
    }
    if all {
        assert(c[c.len() - 1] == "output"@);
    }
}

} // verus!
