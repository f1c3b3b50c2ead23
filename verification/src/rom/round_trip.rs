//! A ROM that was packed is unpacked as it was.
use vstd::prelude::*;
use crate::archive::{distinct, holds, names_of, zip_content, zip_entry, zip_name, Written};
use crate::error::Error;
use crate::paths::{is_portable, names_dir, steps_of};
use crate::rom::config::RepackOptions;
use crate::rom::repack::{all_written, op_list_name, packs_part, repacks, rom_files, rom_written,
    BuiltPart, RomEntry};
use crate::rom::state::PartitionView;
use crate::rom::unpack::{belongs, data_in, data_name, data_of, entry_named, file_in, is_step,
    part_at, parts_found, UnpackStepView};

verus! {

proof fn lemma_names(b: Seq<u8>, files: Seq<Written>)
    requires
        holds(b, files),
    ensures
        names_of(b).len() == files.len(),
        forall|i: int| 0 <= i < files.len() ==> #[trigger] names_of(b)[i] == files[i].name,
{
    assert forall|i: int| 0 <= i < files.len() implies #[trigger] names_of(b)[i] == files[i].name by {
        assert(zip_name(b, i) == Some(files[i].name));
    }
}

proof fn lemma_entry(names: Seq<Seq<char>>, name: Seq<char>, i: int, k: int)
    requires
        0 <= i <= k < names.len(),
        names[k] == name,
        forall|j: int| i <= j < k ==> #[trigger] names[j] != name,
    ensures
        entry_named(names, name, i) == k,
    decreases k - i,
{
    if i < k {
        assert(names[i] != name);
        lemma_entry(names, name, i + 1, k);
    }
}

/// A file that a zip was given is found in it by its name.
pub proof fn file_is_found(b: Seq<u8>, files: Seq<Written>, k: int)
    requires
        holds(b, files),
        distinct(files),
        0 <= k < files.len(),
    ensures
        file_in(b, files[k].name) == Ok::<Seq<u8>, Error>(files[k].data),
{
    lemma_names(b, files);
    let names = names_of(b);
    assert forall|j: int| 0 <= j < k implies #[trigger] names[j] != files[k].name by {
        assert(files[j].name != files[k].name);
    }
    assert(names[k] == files[k].name);
    lemma_entry(names, files[k].name, 0, k);
    assert forall|i: int| 0 <= i < files.len() implies #[trigger] zip_name(b, i) is Some by {
        assert(zip_name(b, i) == Some(files[i].name));
    }
    assert(zip_content(b, k) == Some(files[k].data));
}

/// A partition that was packed is read back: its transfer list and its block
/// data.
pub proof fn partition_round_trip(
    b: Seq<u8>,
    files: Seq<Written>,
    opts: RepackOptions,
    parts: Seq<BuiltPart>,
    folder: RomEntry,
    op_list: Option<Seq<char>>,
    sizes: Seq<(String, u64)>,
    i: int,
)
    requires
        holds(b, files),
        repacks(files, opts, parts, folder, op_list, sizes),
        0 <= i < parts.len(),
    ensures
        data_in(b, parts[i].partition@) == Ok::<(Seq<u8>, Seq<u8>), Error>(
            (parts[i].transfer_list@, parts[i].new_data@),
        ),
{
    assert(packs_part(files, parts, i, opts));
    let three = files.subrange(3 * i, 3 * i + 3);
    assert(three[0] == files[3 * i]);
    assert(three[1] == files[3 * i + 1]);
    file_is_found(b, files, 3 * i);
    file_is_found(b, files, 3 * i + 1);
}

proof fn lemma_found(names: Seq<Seq<char>>, n: int, i: int)
    requires
        0 <= i < n <= names.len(),
        part_at(names, i) is Some,
    ensures
        parts_found(names, n).contains(part_at(names, i)->Some_0),
    decreases n,
{
    let all = parts_found(names, n);
    if i == n - 1 {
        assert(all[all.len() - 1] == part_at(names, i)->Some_0);
    } else {
        lemma_found(names, n - 1, i);
        let before = parts_found(names, n - 1);
        let k = choose|k: int| 0 <= k < before.len() && before[k] == part_at(names, i)->Some_0;
        assert(all[k] == before[k]);
    }
}

/// A partition that was packed is found by the names in the zip. One that is
/// not compressed must not have the name of compressed block data beside it.
pub proof fn partition_is_found(
    b: Seq<u8>,
    files: Seq<Written>,
    opts: RepackOptions,
    parts: Seq<BuiltPart>,
    folder: RomEntry,
    op_list: Option<Seq<char>>,
    sizes: Seq<(String, u64)>,
    i: int,
)
    requires
        holds(b, files),
        repacks(files, opts, parts, folder, op_list, sizes),
        0 <= i < parts.len(),
        parts[i].partition.brotli || !names_of(b).contains(
            parts[i].partition.name@ + ".new.dat.br"@,
        ),
    ensures
        parts_found(names_of(b), names_of(b).len() as int).contains(
            (PartitionView { version: 0, size: 0, ..parts[i].partition@ }),
        ),
{
    lemma_names(b, files);
    let names = names_of(b);
    let p = parts[i].partition@;
    assert(packs_part(files, parts, i, opts));
    let three = files.subrange(3 * i, 3 * i + 3);
    assert(three[0] == files[3 * i]);
    assert(three[1] == files[3 * i + 1]);
    let end = ".transfer.list"@;
    let name = names[3 * i];
    assert(name == p.name + end);
    assert(name.skip(name.len() - end.len()) =~= end);
    assert(name.take(name.len() - end.len()) =~= p.name);
    assert(names[3 * i + 1] == data_name(p));
    assert(names.contains(data_name(p)));
    assert(data_of(names, p.name) == Some(p.brotli));
    lemma_found(names, names.len() as int, 3 * i);
}

/// A file of the ROM folder is unpacked again, to the path that its name
/// stands for, and with the content that it had, but for the list of dynamic
/// partitions. It holds of every file whose path all systems take, that does
/// not end in a separator, and that has no name of a partition's files.
pub proof fn rom_file_round_trip(
    b: Seq<u8>,
    files: Seq<Written>,
    opts: RepackOptions,
    parts: Seq<BuiltPart>,
    folder: RomEntry,
    op_list: Option<Seq<char>>,
    sizes: Seq<(String, u64)>,
    i: int,
    step: UnpackStepView,
)
    requires
        holds(b, files),
        repacks(files, opts, parts, folder, op_list, sizes),
        0 <= i < rom_files(folder).len(),
        is_portable(rom_files(folder)[i].path),
        !names_dir(rom_files(folder)[i].path),
        !belongs(parts_found(names_of(b), names_of(b).len() as int), rom_files(folder)[i].path),
        is_step(
            parts_found(names_of(b), names_of(b).len() as int),
            zip_entry(b, 3 * parts.len() + i)->Some_0,
            step,
        ),
    ensures
        step is File,
        steps_of(step->path) == steps_of(rom_files(folder)[i].path),
        op_list is None || rom_files(folder)[i].path != op_list_name() ==> {
            &&& zip_content(b, 3 * parts.len() + i) == Some(rom_files(folder)[i].data)
            &&& file_in(b, rom_files(folder)[i].path) == Ok::<Seq<u8>, Error>(
                rom_files(folder)[i].data,
            )
        },
{
    let k = 3 * parts.len() + i;
    let rest = all_written(rom_files(folder), op_list, sizes, opts.zip_level);
    assert(files.skip(3 * parts.len() as int)[i] == files[k]);
    assert(rest[i] == rom_written(rom_files(folder)[i], op_list, sizes, opts.zip_level));
    file_is_found(b, files, k);
    assert(zip_entry(b, k)->Some_0.name == files[k].name);
}

} // verus!
