//! What a ROM zip holds: partitions as block data, and everything else.
use vstd::prelude::*;
use crate::archive::{entries_of, entries_view, entry_fits, list_names, list_zip, named, names_of,
    readable, zip_content, zip_entry, zip_file, zip_len, EntryView, ZipEntry};
use crate::br::{brotli_plain, decoder};
use crate::error::Error;
use crate::extract::strings_view;
use crate::fs::text_view;
use crate::paths::{is_portable, is_relative, leads_out, names_dir, path_fits, steps_of};
use crate::rom::state::{parts_view, Partition, PartitionView};
use crate::text::{chars_of, followed_by, same_text, string_of};
use crate::words::{ends, has_prefix, has_suffix, lines, lines_of, part, starts, texts_view};

verus! {

/// The partition that a transfer list belongs to, by its name.
pub open spec fn part_of(name: Seq<char>) -> Option<Seq<char>> {
    if has_suffix(name, ".transfer.list"@) {
        Some(name.take(name.len() - ".transfer.list"@.len()))
    } else {
        None
    }
}

/// Whether the block data of a partition is there, and compressed.
pub open spec fn data_of(names: Seq<Seq<char>>, part: Seq<char>) -> Option<bool> {
    if names.contains(part + ".new.dat.br"@) {
        Some(true)
    } else if names.contains(part + ".new.dat"@) {
        Some(false)
    } else {
        None
    }
}

/// The partition of entry `i`, where it is a transfer list with block data.
pub open spec fn part_at(names: Seq<Seq<char>>, i: int) -> Option<PartitionView> {
    match part_of(names[i]) {
        None => None,
        Some(name) => match data_of(names, name) {
            None => None,
            Some(brotli) => Some(PartitionView { name, version: 0, brotli, size: 0 }),
        },
    }
}

/// The partitions whose transfer lists are among the first `n` entries.
pub open spec fn parts_found(names: Seq<Seq<char>>, n: int) -> Seq<PartitionView>
    decreases n,
{
    if n <= 0 {
        Seq::empty()
    } else {
        match part_at(names, n - 1) {
            Some(p) => parts_found(names, n - 1).push(p),
            None => parts_found(names, n - 1),
        }
    }
}

fn has_name(names: &Vec<String>, name: &str) -> (r: bool)
    ensures
        r == strings_view(names@).contains(name@),
{
    let ghost all = strings_view(names@);
    let mut i: usize = 0;
    while i < names.len()
        invariant
            i <= names@.len(),
            all == strings_view(names@),
            forall|k: int| 0 <= k < i ==> #[trigger] all[k] != name@,
        decreases names.len() - i,
    {
        if same_text(names[i].as_str(), name) {
            assert(all[i as int] == name@);
            return true;
        }
        i += 1;
    }
    false
}

fn part_name(name: &str) -> (r: Option<String>)
    ensures
        text_view(r) == part_of(name@),
{
    let chars: Vec<char> = chars_of(name);
    let end: Vec<char> = chars_of(".transfer.list");
    if ends(&chars, &end) {
        let front: Vec<char> = part(&chars, 0, chars.len() - end.len());
        assert(front@ =~= name@.take(name@.len() - end@.len()));
        Some(string_of(&front))
    } else {
        None
    }
}

/// The partitions of a ROM zip, by the names of its entries:
/// `<part>.transfer.list` with `<part>.new.dat[.br]`.
pub fn find_partitions(names: &Vec<String>) -> (r: Result<Vec<Partition>, Error>)
    ensures
        ({
            let all = strings_view(names@);
            let found = parts_found(all, all.len() as int);
            match r {
                Ok(v) => !all.contains("payload.bin"@) && found.len() > 0 && parts_view(v@) == found,
                Err(e) => if all.contains("payload.bin"@) {
                    e == Error::PayloadRom
                } else {
                    found.len() == 0 && e == Error::NoPartitions
                },
            }
        }),
{
    let ghost all = strings_view(names@);
    if has_name(names, "payload.bin") {
        return Err(Error::PayloadRom);
    }
    let mut parts: Vec<Partition> = Vec::new();
    let n: usize = names.len();
    let mut i: usize = 0;
    assert(parts_view(parts@) =~= Seq::<PartitionView>::empty());
    while i < n
        invariant
            i <= n,
            n == names@.len(),
            all == strings_view(names@),
            parts_view(parts@) == parts_found(all, i as int),
        decreases n - i,
    {
        assert(all[i as int] == names@[i as int]@);
        if let Some(name) = part_name(names[i].as_str()) {
            let data: Option<bool> = if has_name(names, followed_by(name.as_str(), ".new.dat.br").as_str()) {
                Some(true)
            } else if has_name(names, followed_by(name.as_str(), ".new.dat").as_str()) {
                Some(false)
            } else {
                None
            };
            if let Some(brotli) = data {
                let p: Partition = Partition { name, version: 0, brotli, size: 0 };
                let ghost was = parts@;
                parts.push(p);
                assert(parts_view(parts@) =~= parts_view(was).push(p@));
            }
        }
        i += 1;
    }
    if parts.len() == 0 {
        return Err(Error::NoPartitions);
    }
    Ok(parts)
}

proof fn lemma_part_found(names: Seq<Seq<char>>, n: int, k: int)
    requires
        0 <= n <= names.len(),
        0 <= k < parts_found(names, n).len(),
    ensures
        exists|i: int| 0 <= i < n && #[trigger] part_at(names, i) == Some(parts_found(names, n)[k]),
    decreases n,
{
    if part_at(names, n - 1) is Some && k == parts_found(names, n).len() - 1 {
        assert(part_at(names, n - 1) == Some(parts_found(names, n)[k]));
    } else {
        lemma_part_found(names, n - 1, k);
        let i = choose|i: int|
            0 <= i < n - 1 && #[trigger] part_at(names, i) == Some(parts_found(names, n - 1)[k]);
        assert(part_at(names, i) == Some(parts_found(names, n)[k]));
    }
}

/// The name of the block data of a partition.
pub open spec fn data_name(p: PartitionView) -> Seq<char> {
    p.name + (if p.brotli {
        ".new.dat.br"@
    } else {
        ".new.dat"@
    })
}

/// Every partition that is found has a transfer list and block data.
pub proof fn found_parts_have_files(names: Seq<Seq<char>>, k: int)
    requires
        0 <= k < parts_found(names, names.len() as int).len(),
    ensures
        ({
            let p = parts_found(names, names.len() as int)[k];
            names.contains(p.name + ".transfer.list"@) && names.contains(data_name(p))
        }),
{
    lemma_part_found(names, names.len() as int, k);
    let p = parts_found(names, names.len() as int)[k];
    let i = choose|i: int| 0 <= i < names.len() && #[trigger] part_at(names, i) == Some(p);
    assert(names[i] =~= p.name + ".transfer.list"@);
    assert(names.contains(names[i]));
}

/// A file that belongs to a partition.
pub open spec fn belongs(parts: Seq<PartitionView>, name: Seq<char>) -> bool {
    exists|i: int|
        0 <= i < parts.len() && (name == (#[trigger] parts[i]).name + ".transfer.list"@ || name
            == parts[i].name + ".new.dat.br"@ || name == parts[i].name + ".new.dat"@ || name
            == parts[i].name + ".patch.dat"@)
}

/// What to do with an entry that is unpacked.
#[derive(Debug, Clone)]
pub enum UnpackStep {
    /// Nothing: it belongs to a partition.
    PartFile,
    /// Nothing: its path leads out of the folder. The name of the entry.
    Unsafe(String),
    /// Make a directory.
    Dir(String),
    /// Write a file, with this mode if there is one.
    File { path: String, mode: Option<u32> },
}

/// What to do with an entry that is unpacked.
pub enum UnpackStepView {
    PartFile,
    Unsafe(Seq<char>),
    Dir(Seq<char>),
    File { path: Seq<char>, mode: Option<u32> },
}

impl View for UnpackStep {
    type V = UnpackStepView;

    open spec fn view(&self) -> UnpackStepView {
        match self {
            UnpackStep::PartFile => UnpackStepView::PartFile,
            UnpackStep::Unsafe(n) => UnpackStepView::Unsafe(n@),
            UnpackStep::Dir(p) => UnpackStepView::Dir(p@),
            UnpackStep::File { path, mode } => UnpackStepView::File { path: path@, mode: *mode },
        }
    }
}

/// The permission bits of a mode.
pub open spec fn permissions(mode: Option<u32>) -> Option<u32> {
    match mode {
        Some(m) => Some(m & 0o777),
        None => None,
    }
}

/// What to do with an entry that has this path below the folder.
pub open spec fn step_for(
    parts: Seq<PartitionView>,
    e: EntryView,
    path: Option<Seq<char>>,
) -> UnpackStepView {
    if belongs(parts, e.name) {
        UnpackStepView::PartFile
    } else {
        match path {
            None => UnpackStepView::Unsafe(e.name),
            Some(path) => if e.is_dir {
                UnpackStepView::Dir(path)
            } else {
                UnpackStepView::File { path, mode: permissions(e.mode) }
            },
        }
    }
}

/// A step is right for an entry: a file of a partition is passed over, and
/// everything else goes to the folder, to a path that fits its name.
pub open spec fn is_step(parts: Seq<PartitionView>, e: EntryView, step: UnpackStepView) -> bool {
    &&& e.is_dir == names_dir(e.name)
    &&& if belongs(parts, e.name) {
        step is PartFile
    } else {
        match step {
            UnpackStepView::PartFile => false,
            UnpackStepView::Unsafe(name) => name == e.name && path_fits(e.name, None),
            UnpackStepView::Dir(path) => e.is_dir && path_fits(e.name, Some(path)),
            UnpackStepView::File { path, mode } => {
                &&& !e.is_dir
                &&& mode == permissions(e.mode)
                &&& path_fits(e.name, Some(path))
            },
        }
    }
}

/// Everything that belongs to no partition is unpacked: an entry whose name
/// all systems take becomes a directory, or a file with its permissions, at
/// the path that the name stands for.
pub proof fn others_are_unpacked(parts: Seq<PartitionView>, e: EntryView, step: UnpackStepView)
    requires
        is_step(parts, e, step),
        !belongs(parts, e.name),
        is_portable(e.name),
    ensures
        match step {
            UnpackStepView::Dir(path) => names_dir(e.name) && steps_of(path) == steps_of(e.name),
            UnpackStepView::File { path, mode } => {
                &&& !names_dir(e.name)
                &&& steps_of(path) == steps_of(e.name)
                &&& mode == permissions(e.mode)
            },
            _ => false,
        },
{
}

/// An entry whose name leads out of the folder is passed over.
pub proof fn outside_is_passed_over(parts: Seq<PartitionView>, e: EntryView, step: UnpackStepView)
    requires
        is_step(parts, e, step),
        !belongs(parts, e.name),
        is_relative(e.name),
        leads_out(e.name),
    ensures
        step == UnpackStepView::Unsafe(e.name),
{
}

fn in_partition(parts: &Vec<Partition>, name: &str) -> (r: bool)
    ensures
        r == belongs(parts_view(parts@), name@),
{
    let ghost all = parts_view(parts@);
    let mut i: usize = 0;
    while i < parts.len()
        invariant
            i <= parts@.len(),
            all == parts_view(parts@),
            forall|k: int|
                0 <= k < i ==> name@ != (#[trigger] all[k]).name + ".transfer.list"@ && name@
                    != all[k].name + ".new.dat.br"@ && name@ != all[k].name + ".new.dat"@ && name@
                    != all[k].name + ".patch.dat"@,
        decreases parts.len() - i,
    {
        let p: &str = parts[i].name.as_str();
        assert(all[i as int].name == p@);
        if same_text(name, followed_by(p, ".transfer.list").as_str()) || same_text(
            name,
            followed_by(p, ".new.dat.br").as_str(),
        ) || same_text(name, followed_by(p, ".new.dat").as_str()) || same_text(
            name,
            followed_by(p, ".patch.dat").as_str(),
        ) {
            return true;
        }
        i += 1;
    }
    false
}

/// What to do with an entry that is unpacked: everything but the partitions
/// goes to the ROM folder as is.
pub fn unpack_step(parts: &Vec<Partition>, e: &ZipEntry) -> (r: UnpackStep)
    ensures
        r@ == step_for(parts_view(parts@), e@, text_view(e.path)),
{
    if in_partition(parts, e.name.as_str()) {
        return UnpackStep::PartFile;
    }
    match &e.path {
        None => UnpackStep::Unsafe(e.name.as_str().to_string()),
        Some(p) => {
            let path: String = p.as_str().to_string();
            if e.is_dir {
                UnpackStep::Dir(path)
            } else {
                let mode: Option<u32> = match e.mode {
                    Some(m) => Some(m & 0o777),
                    None => None,
                };
                UnpackStep::File { path, mode }
            }
        },
    }
}

/// How a ROM zip is unpacked: its partitions, and a step for each entry.
#[derive(Debug)]
pub struct UnpackPlan {
    pub partitions: Vec<Partition>,
    pub steps: Vec<UnpackStep>,
}

/// Why a ROM zip cannot be unpacked.
pub open spec fn unpack_fault(zip: Seq<u8>) -> Option<Error> {
    let names = names_of(zip);
    if !named(zip) {
        Some(Error::BadZip)
    } else if names.contains("payload.bin"@) {
        Some(Error::PayloadRom)
    } else if parts_found(names, names.len() as int).len() == 0 {
        Some(Error::NoPartitions)
    } else if !readable(zip) {
        Some(Error::BadZip)
    } else {
        None
    }
}

/// How a ROM zip is unpacked: everything but the partitions goes to the ROM
/// folder, to the path that its name stands for.
pub fn unpack(zip: &[u8]) -> (r: Result<UnpackPlan, Error>)
    ensures
        match r {
            Err(e) => unpack_fault(zip@) == Some(e),
            Ok(p) => {
                let parts = parts_found(names_of(zip@), names_of(zip@).len() as int);
                &&& unpack_fault(zip@) is None
                &&& parts_view(p.partitions@) == parts
                &&& zip_len(zip@) == Some(p.steps@.len())
                &&& forall|i: int|
                    0 <= i < p.steps@.len() ==> is_step(
                        parts,
                        zip_entry(zip@, i)->Some_0,
                        (#[trigger] p.steps@[i])@,
                    )
            },
        },
{
    let names: Vec<String> = match list_names(zip) {
        Ok(v) => v,
        Err(e) => {
            return Err(e);
        },
    };
    let partitions: Vec<Partition> = match find_partitions(&names) {
        Ok(v) => v,
        Err(e) => {
            return Err(e);
        },
    };
    let entries: Vec<ZipEntry> = match list_zip(zip) {
        Ok(v) => v,
        Err(e) => {
            return Err(e);
        },
    };
    let ghost parts = parts_view(partitions@);
    let ghost all = entries_of(zip@);
    assert(entries_view(entries@) == all);
    let mut steps: Vec<UnpackStep> = Vec::new();
    let n: usize = entries.len();
    let mut i: usize = 0;
    while i < n
        invariant
            i <= n,
            n == entries@.len(),
            n == all.len(),
            all == entries_of(zip@),
            all == entries_view(entries@),
            forall|k: int| 0 <= k < n ==> entry_fits(#[trigger] entries@[k]),
            parts == parts_view(partitions@),
            steps@.len() == i,
            forall|k: int| 0 <= k < i ==> is_step(parts, all[k], (#[trigger] steps@[k])@),
        decreases n - i,
    {
        assert(all[i as int] == entries@[i as int]@);
        let s: UnpackStep = unpack_step(&partitions, &entries[i]);
        assert(s@ == step_for(parts, all[i as int], text_view(entries@[i as int].path)));
        assert(entry_fits(entries@[i as int]));
        assert(is_step(parts, all[i as int], s@));
        steps.push(s);
        i += 1;
    }
    assert forall|k: int| 0 <= k < n implies is_step(
        parts,
        zip_entry(zip@, k)->Some_0,
        (#[trigger] steps@[k])@,
    ) by {
        assert(all[k] == zip_entry(zip@, k)->Some_0);
    }
    Ok(UnpackPlan { partitions, steps })
}

/// The first entry from `i` on with a name, or their number.
pub open spec fn entry_named(names: Seq<Seq<char>>, name: Seq<char>, i: int) -> int
    decreases names.len() - i,
{
    if i >= names.len() || names[i] == name {
        i
    } else {
        entry_named(names, name, i + 1)
    }
}

/// The content of the file with a name in a zip.
pub open spec fn file_in(zip: Seq<u8>, name: Seq<char>) -> Result<Seq<u8>, Error> {
    let i = entry_named(names_of(zip), name, 0);
    if !named(zip) {
        Err(Error::BadZip)
    } else if i >= names_of(zip).len() {
        Err(Error::NoSuchEntry)
    } else {
        match zip_content(zip, i) {
            Some(b) => Ok(b),
            None => Err(Error::BadZip),
        }
    }
}

pub open spec fn content_view(r: Result<Vec<u8>, Error>) -> Result<Seq<u8>, Error> {
    match r {
        Ok(b) => Ok(b@),
        Err(e) => Err(e),
    }
}

/// The content of the file with a name in a zip.
pub fn file_named(zip: &[u8], name: &str) -> (r: Result<Vec<u8>, Error>)
    ensures
        content_view(r) == file_in(zip@, name@),
{
    let names: Vec<String> = match list_names(zip) {
        Ok(v) => v,
        Err(e) => {
            return Err(e);
        },
    };
    let ghost all = names_of(zip@);
    let n: usize = names.len();
    let mut i: usize = 0;
    while i < n && !same_text(names[i].as_str(), name)
        invariant
            i <= n,
            n == names@.len(),
            n == all.len(),
            all == strings_view(names@),
            entry_named(all, name@, i as int) == entry_named(all, name@, 0),
        decreases n - i,
    {
        assert(all[i as int] == names@[i as int]@);
        i += 1;
    }
    if i >= n {
        return Err(Error::NoSuchEntry);
    }
    assert(all[i as int] == names@[i as int]@);
    zip_file(zip, i)
}

/// The transfer list and the plain block data of a partition.
pub open spec fn data_in(zip: Seq<u8>, p: PartitionView) -> Result<(Seq<u8>, Seq<u8>), Error> {
    match file_in(zip, p.name + ".transfer.list"@) {
        Err(e) => Err(e),
        Ok(list) => match file_in(zip, data_name(p)) {
            Err(e) => Err(e),
            Ok(data) => if !p.brotli {
                Ok((list, data))
            } else {
                match brotli_plain(data) {
                    Some(plain) => Ok((list, plain)),
                    None => Err(Error::CorruptBrotli),
                }
            },
        },
    }
}

pub open spec fn data_view(r: Result<(Vec<u8>, Vec<u8>), Error>) -> Result<(Seq<u8>, Seq<u8>), Error> {
    match r {
        Ok((a, b)) => Ok((a@, b@)),
        Err(e) => Err(e),
    }
}

/// The transfer list and the plain block data of a partition.
pub fn partition_data(zip: &[u8], p: &Partition) -> (r: Result<(Vec<u8>, Vec<u8>), Error>)
    ensures
        data_view(r) == data_in(zip@, p@),
{
    let list: Vec<u8> = match file_named(zip, followed_by(p.name.as_str(), ".transfer.list").as_str()) {
        Ok(b) => b,
        Err(e) => {
            return Err(e);
        },
    };
    let end: &str = if p.brotli {
        ".new.dat.br"
    } else {
        ".new.dat"
    };
    let data: Vec<u8> = match file_named(zip, followed_by(p.name.as_str(), end).as_str()) {
        Ok(b) => b,
        Err(e) => {
            return Err(e);
        },
    };
    if !p.brotli {
        return Ok((list, data));
    }
    match decoder(&data) {
        Ok(plain) => Ok((list, plain)),
        Err(e) => Err(e),
    }
}

/// The value of a property: what stands behind the key and `=` in the first
/// line that starts with them, from line `i` on.
pub open spec fn prop_in(lines: Seq<Seq<char>>, key: Seq<char>, i: int) -> Option<Seq<char>>
    decreases lines.len() - i,
{
    if i >= lines.len() {
        None
    } else if has_prefix(lines[i], key + "="@) {
        Some(lines[i].skip(key.len() as int + 1))
    } else {
        prop_in(lines, key, i + 1)
    }
}

/// The value of a property in a `build.prop`.
pub fn prop(text: &str, key: &str) -> (r: Option<String>)
    ensures
        text_view(r) == prop_in(lines_of(text@), key@, 0),
{
    let ls: Vec<Vec<char>> = lines(&chars_of(text));
    let ghost all = lines_of(text@);
    let front: Vec<char> = chars_of(followed_by(key, "=").as_str());
    proof {
        reveal_strlit("=");
    }
    let n: usize = ls.len();
    let mut i: usize = 0;
    while i < n
        invariant
            i <= n,
            n == ls@.len(),
            n == all.len(),
            all == texts_view(ls@),
            all == lines_of(text@),
            front@ == key@ + "="@,
            front@.len() == key@.len() + 1,
            prop_in(all, key@, i as int) == prop_in(all, key@, 0),
        decreases n - i,
    {
        assert(all[i as int] == ls@[i as int]@);
        if starts(&ls[i], &front) {
            let v: Vec<char> = part(&ls[i], front.len(), ls[i].len());
            assert(v@ =~= all[i as int].skip(key@.len() as int + 1));
            return Some(string_of(&v));
        }
        i += 1;
    }
    None
}

/// What is known of a ROM, as labels and values.
pub open spec fn info_in(
    system: Option<(Seq<char>, bool)>,
    vendor: Option<Seq<char>>,
) -> Seq<(Seq<char>, Seq<char>)> {
    let none = Seq::<(Seq<char>, Seq<char>)>::empty();
    let of_system = match system {
        None => none,
        Some((text, as_root)) => {
            let lines = lines_of(text);
            with_info(
                with_info(none, "Android version"@, prop_in(lines, "ro.build.version.release"@, 0)),
                "ROM"@,
                prop_in(lines, "ro.build.display.id"@, 0),
            ).push(
                (
                    "System-as-root"@,
                    if as_root {
                        "true"@
                    } else {
                        "false"@
                    },
                ),
            )
        },
    };
    with_info(
        of_system,
        "Device"@,
        match vendor {
            Some(text) => prop_in(lines_of(text), "ro.product.vendor.device"@, 0),
            None => None,
        },
    )
}

/// The list with a value behind it, where there is one.
pub open spec fn with_info(
    info: Seq<(Seq<char>, Seq<char>)>,
    label: Seq<char>,
    value: Option<Seq<char>>,
) -> Seq<(Seq<char>, Seq<char>)> {
    match value {
        Some(v) => info.push((label, v)),
        None => info,
    }
}

pub open spec fn info_view(v: Seq<(String, String)>) -> Seq<(Seq<char>, Seq<char>)> {
    Seq::new(v.len(), |i: int| (v[i].0@, v[i].1@))
}

fn push_info(info: &mut Vec<(String, String)>, label: &str, value: Option<String>)
    ensures
        info_view(final(info)@) == with_info(info_view(old(info)@), label@, text_view(value)),
{
    if let Some(v) = value {
        let ghost was = info@;
        info.push((label.to_string(), v));
        assert(info_view(info@) =~= info_view(was).push((label@, v@)));
    }
}

pub open spec fn system_view(s: Option<(&str, bool)>) -> Option<(Seq<char>, bool)> {
    match s {
        Some((t, b)) => Some((t@, b)),
        None => None,
    }
}

/// Android version, ROM name and device from the extracted build.props: the
/// text of that of the system, with whether the system is the root, and the
/// text of that of the vendor.
pub fn rom_info(system: Option<(&str, bool)>, vendor: Option<&str>) -> (r: Vec<(String, String)>)
    ensures
        info_view(r@) == info_in(
            system_view(system),
            match vendor {
                Some(t) => Some(t@),
                None => None,
            },
        ),
{
    let mut info: Vec<(String, String)> = Vec::new();
    assert(info_view(info@) =~= Seq::<(Seq<char>, Seq<char>)>::empty());
    if let Some((text, as_root)) = system {
        push_info(&mut info, "Android version", prop(text, "ro.build.version.release"));
        push_info(&mut info, "ROM", prop(text, "ro.build.display.id"));
        let answer: &str = if as_root {
            "true"
        } else {
            "false"
        };
        push_info(&mut info, "System-as-root", Some(answer.to_string()));
    }
    if let Some(text) = vendor {
        push_info(&mut info, "Device", prop(text, "ro.product.vendor.device"));
    }
    info
}

#[derive(Debug, Clone)]
pub struct UnpackSummary {
    pub partitions: Vec<Partition>,
    pub other_files: usize,
    /// e.g. ("Android version", "15")
    pub rom_info: Vec<(String, String)>,
}

impl Default for UnpackSummary {
    fn default() -> (r: Self)
        ensures
            r.partitions@.len() == 0 && r.other_files == 0 && r.rom_info@.len() == 0,
    {
        UnpackSummary { partitions: Vec::new(), other_files: 0, rom_info: Vec::new() }
    }
}

/// How many of the first `n` steps write a file.
pub open spec fn files_among(steps: Seq<UnpackStep>, n: int) -> int
    decreases n,
{
    if n <= 0 {
        0
    } else {
        files_among(steps, n - 1) + if steps[n - 1] is File {
            1int
        } else {
            0
        }
    }
}

/// What was unpacked.
pub fn sum_up(
    partitions: Vec<Partition>,
    steps: &Vec<UnpackStep>,
    rom_info: Vec<(String, String)>,
) -> (r: UnpackSummary)
    ensures
        r.partitions == partitions,
        r.other_files == files_among(steps@, steps@.len() as int),
        r.rom_info == rom_info,
{
    let mut other_files: usize = 0;
    let mut i: usize = 0;
    while i < steps.len()
        invariant
            other_files <= i <= steps@.len(),
            other_files == files_among(steps@, i as int),
        decreases steps.len() - i,
    {
        if let UnpackStep::File { .. } = &steps[i] {
            other_files += 1;
        }
        i += 1;
    }
    UnpackSummary { partitions, other_files, rom_info }
}

} // verus!
