//! Zip files in memory, built on the `zip` crate.
use std::io::{Cursor, Read, Write};
use vstd::prelude::*;
use crate::br::plain_view;
use crate::error::Error;
use crate::extract::strings_view;
use crate::fs::text_view;
use crate::paths::{names_dir, path_fits};

verus! {

/// An entry of a zip.
#[derive(Debug, Clone)]
pub struct ZipEntry {
    pub name: String,
    /// The name as a path below some folder; nothing for one that would lead
    /// out of it, or that the system refuses.
    pub path: Option<String>,
    pub is_dir: bool,
    pub mode: Option<u32>,
    /// Not compressed.
    pub stored: bool,
    pub encrypted: bool,
    /// Where its data starts in the zip.
    pub start: Option<u64>,
    pub size: u64,
}

/// An entry of a zip, as far as it does not depend on the system.
pub struct EntryView {
    pub name: Seq<char>,
    pub is_dir: bool,
    pub mode: Option<u32>,
    pub stored: bool,
    pub encrypted: bool,
    pub start: Option<u64>,
    pub size: u64,
}

impl View for ZipEntry {
    type V = EntryView;

    open spec fn view(&self) -> EntryView {
        EntryView {
            name: self.name@,
            is_dir: self.is_dir,
            mode: self.mode,
            stored: self.stored,
            encrypted: self.encrypted,
            start: self.start,
            size: self.size,
        }
    }
}

pub open spec fn entry_view(e: Option<ZipEntry>) -> Option<EntryView> {
    match e {
        Some(x) => Some(x@),
        None => None,
    }
}

/// What holds of every entry: it is a directory by its name, and its path
/// fits the name.
pub open spec fn entry_fits(e: ZipEntry) -> bool {
    e.is_dir == names_dir(e.name@) && path_fits(e.name@, text_view(e.path))
}

/// How many entries a zip has; nothing where it is no zip.
pub uninterp spec fn zip_len(bytes: Seq<u8>) -> Option<nat>;

/// The name of entry `i` of a zip; nothing where it cannot be read.
pub uninterp spec fn zip_name(bytes: Seq<u8>, i: int) -> Option<Seq<char>>;

/// Entry `i` of a zip; nothing where it cannot be read.
pub uninterp spec fn zip_entry(bytes: Seq<u8>, i: int) -> Option<EntryView>;

/// The content of entry `i` of a zip; nothing where it cannot be read.
pub uninterp spec fn zip_content(bytes: Seq<u8>, i: int) -> Option<Seq<u8>>;

pub open spec fn len_view(n: Option<usize>) -> Option<nat> {
    match n {
        Some(k) => Some(k as nat),
        None => None,
    }
}

/// `zip::ZipArchive::new` and `len`: the number of entries, which depends on
/// the bytes alone.
#[verifier::external_body]
fn count_entries(bytes: &[u8]) -> (r: Option<usize>)
    ensures
        len_view(r) == zip_len(bytes@),
{
    match zip::ZipArchive::new(Cursor::new(bytes)) {
        Ok(a) => Some(a.len()),
        Err(_) => None,
    }
}

/// `zip::ZipArchive::name_for_index`: the name of an entry, which depends on
/// the bytes alone.
#[verifier::external_body]
fn read_name(bytes: &[u8], i: usize) -> (r: Option<String>)
    ensures
        text_view(r) == zip_name(bytes@, i as int),
{
    let a = zip::ZipArchive::new(Cursor::new(bytes)).ok()?;
    let name = a.name_for_index(i)?.ok()?.into_owned();
    Some(name)
}

/// `zip::ZipArchive::by_index` and what its entry tells of itself, which
/// depends on the bytes alone, but for the path (`enclosed_name`). That one
/// depends on the name and on the system: some refuse more names than others,
/// and separators differ. Of it is claimed what holds on every system; which
/// path a name from a root or a drive gets is left unsaid. The entry has the
/// name that `name_for_index` gives, and is a directory (`is_dir`) where a
/// separator ends it.
#[verifier::external_body]
pub(crate) fn read_entry(bytes: &[u8], i: usize) -> (r: Option<ZipEntry>)
    ensures
        entry_view(r) == zip_entry(bytes@, i as int),
        match r {
            Some(e) => zip_name(bytes@, i as int) == Some(e.name@) && entry_fits(e),
            None => true,
        },
{
    let mut a = zip::ZipArchive::new(Cursor::new(bytes)).ok()?;
    let e = a.by_index(i).ok()?;
    Some(ZipEntry {
        name: e.name().ok()?.into_owned(),
        path: e.enclosed_name().map(|p| p.to_string_lossy().into_owned()),
        is_dir: e.is_dir(),
        mode: e.unix_mode(),
        stored: matches!(e.compression(), zip::CompressionMethod::Stored),
        encrypted: e.encrypted(),
        start: e.data_start(),
        size: e.size(),
    })
}

/// `zip::ZipArchive::by_index`, read to its end: the content of an entry,
/// which depends on the bytes alone.
#[verifier::external_body]
fn read_content(bytes: &[u8], i: usize) -> (r: Option<Vec<u8>>)
    ensures
        plain_view(r) == zip_content(bytes@, i as int),
{
    let mut a = zip::ZipArchive::new(Cursor::new(bytes)).ok()?;
    let mut e = a.by_index(i).ok()?;
    let mut out = Vec::new();
    e.read_to_end(&mut out).ok()?;
    Some(out)
}

/// How the content of a file is packed.
#[derive(Debug, Clone, Copy, PartialEq, Eq, Structural)]
pub enum Packing {
    Stored,
    /// Deflate with a level from 1 to 9.
    Deflated(i64),
}

/// A file as it was handed to a zip.
pub struct Written {
    pub name: Seq<char>,
    pub data: Seq<u8>,
    pub packing: Packing,
    pub mode: u32,
    pub large: bool,
}

/// A zip being written.
#[verifier::external_body]
pub struct ZipOut {
    w: zip::ZipWriter<Cursor<Vec<u8>>>,
}

/// The files that a zip being written holds, in order.
pub uninterp spec fn written(w: ZipOut) -> Seq<Written>;

/// `zip::ZipWriter::new`: a zip without files.
#[verifier::external_body]
fn new_zip() -> (r: ZipOut)
    ensures
        written(r) == Seq::<Written>::empty(),
{
    ZipOut { w: zip::ZipWriter::new(Cursor::new(Vec::new())) }
}

/// A file has this name.
pub open spec fn has_file(files: Seq<Written>, name: Seq<char>) -> bool {
    exists|i: int| 0 <= i < files.len() && (#[trigger] files[i]).name == name
}

/// No two files have the same name.
pub open spec fn distinct(files: Seq<Written>) -> bool {
    forall|i: int, j: int|
        0 <= i < j < files.len() ==> (#[trigger] files[i]).name != (#[trigger] files[j]).name
}

/// A zip being written that holds these files takes one more.
pub uninterp spec fn zip_takes(files: Seq<Written>, file: Written) -> bool;

/// `bytes` is a zip that the writer makes of these files: with their names,
/// packings, levels and modes.
pub uninterp spec fn zip_makes(files: Seq<Written>, bytes: Seq<u8>) -> bool;

/// A zip being written that holds these files can be finished.
pub open spec fn zip_closes(files: Seq<Written>) -> bool {
    exists|bytes: Seq<u8>| #[trigger] zip_makes(files, bytes)
}

/// A zip being written that holds these files takes some more, one by one.
pub open spec fn takes_all(files: Seq<Written>, more: Seq<Written>) -> bool {
    forall|k: int| 0 <= k < more.len() ==> zip_takes(files + more.take(k), #[trigger] more[k])
}

/// `zip::ZipWriter::start_file` and `write_all`, with deflate: the file comes
/// last. Whether it is taken depends on the files and on it alone; a name that
/// is there already is refused. Nothing is claimed of what the zip holds where
/// the crate reports an error.
#[verifier::external_body]
fn append_deflated(w: &mut ZipOut, name: &str, data: &[u8], level: i64, mode: u32, large: bool) -> (r:
    bool)
    ensures
        r == zip_takes(
            written(*old(w)),
            (Written { name: name@, data: data@, packing: Packing::Deflated(level), mode, large }),
        ),
        r ==> !has_file(written(*old(w)), name@),
        r ==> written(*final(w)) == written(*old(w)).push(
            (Written { name: name@, data: data@, packing: Packing::Deflated(level), mode, large }),
        ),
{
    let options = zip::write::SimpleFileOptions::default()
        .compression_method(zip::CompressionMethod::Deflated)
        .compression_level(Some(level))
        .unix_permissions(mode)
        .large_file(large);
    w.w.start_file(name, options).is_ok() && w.w.write_all(data).is_ok()
}

/// As `append_deflated`, without compression.
#[verifier::external_body]
fn append_stored(w: &mut ZipOut, name: &str, data: &[u8], mode: u32, large: bool) -> (r: bool)
    ensures
        r == zip_takes(
            written(*old(w)),
            (Written { name: name@, data: data@, packing: Packing::Stored, mode, large }),
        ),
        r ==> !has_file(written(*old(w)), name@),
        r ==> written(*final(w)) == written(*old(w)).push(
            (Written { name: name@, data: data@, packing: Packing::Stored, mode, large }),
        ),
{
    let options = zip::write::SimpleFileOptions::default()
        .compression_method(zip::CompressionMethod::Stored)
        .unix_permissions(mode)
        .large_file(large);
    w.w.start_file(name, options).is_ok() && w.w.write_all(data).is_ok()
}

/// The zip `bytes` holds these files: name, content, and whether it is stored.
pub open spec fn holds(bytes: Seq<u8>, files: Seq<Written>) -> bool {
    &&& zip_len(bytes) == Some(files.len())
    &&& forall|i: int|
        #![trigger files[i]]
        0 <= i < files.len() ==> {
            &&& zip_entry(bytes, i) is Some
            &&& zip_entry(bytes, i)->Some_0.name == files[i].name
            &&& zip_name(bytes, i) == Some(files[i].name)
            &&& zip_entry(bytes, i)->Some_0.stored == (files[i].packing is Stored)
            &&& zip_content(bytes, i) == Some(files[i].data)
        }
}

/// `zip::ZipWriter::finish`: a zip that gives back the files that were
/// written. Whether it comes out depends on them alone. Which bytes it is made
/// of is left open, as it depends on the time, and so is the mode that it
/// gives back, which depends on the system.
#[verifier::external_body]
fn close(w: ZipOut) -> (r: Option<Vec<u8>>)
    ensures
        match r {
            Some(b) => zip_makes(written(w), b@) && holds(b@, written(w)),
            None => !zip_closes(written(w)),
        },
{
    match w.w.finish() {
        Ok(c) => Some(c.into_inner()),
        Err(_) => None,
    }
}

impl ZipOut {
    /// A zip without files.
    pub fn new() -> (r: Self)
        ensures
            written(r) == Seq::<Written>::empty(),
    {
        new_zip()
    }

    /// Adds a file.
    pub fn add_file(&mut self, name: &str, data: &[u8], packing: Packing, mode: u32, large: bool) -> (r:
        Result<(), Error>)
        ensures
            ({
                let file = Written { name: name@, data: data@, packing, mode, large };
                match r {
                    Ok(()) => {
                        &&& zip_takes(written(*old(self)), file)
                        &&& !has_file(written(*old(self)), name@)
                        &&& written(*final(self)) == written(*old(self)).push(file)
                    },
                    Err(e) => e == Error::ZipRefused && !zip_takes(written(*old(self)), file),
                }
            }),
    {
        let done: bool = match packing {
            Packing::Stored => append_stored(self, name, data, mode, large),
            Packing::Deflated(level) => append_deflated(self, name, data, level, mode, large),
        };
        if done {
            Ok(())
        } else {
            Err(Error::ZipRefused)
        }
    }

    /// The bytes of the zip.
    pub fn finish(self) -> (r: Result<Vec<u8>, Error>)
        ensures
            match r {
                Ok(b) => zip_makes(written(self), b@) && holds(b@, written(self)),
                Err(e) => e == Error::ZipRefused && !zip_closes(written(self)),
            },
    {
        match close(self) {
            Some(b) => Ok(b),
            None => Err(Error::ZipRefused),
        }
    }
}

/// The names of the entries of a zip can all be read.
pub open spec fn named(bytes: Seq<u8>) -> bool {
    &&& zip_len(bytes) is Some
    &&& forall|i: int| 0 <= i < zip_len(bytes)->Some_0 ==> #[trigger] zip_name(bytes, i) is Some
}

/// The names of the entries of a zip.
pub open spec fn names_of(bytes: Seq<u8>) -> Seq<Seq<char>> {
    Seq::new(zip_len(bytes)->Some_0, |i: int| zip_name(bytes, i)->Some_0)
}

/// The names of the entries of a zip, in order.
pub fn list_names(bytes: &[u8]) -> (r: Result<Vec<String>, Error>)
    ensures
        match r {
            Ok(v) => named(bytes@) && strings_view(v@) == names_of(bytes@),
            Err(e) => e == Error::BadZip && !named(bytes@),
        },
{
    let n: usize = match count_entries(bytes) {
        Some(n) => n,
        None => {
            return Err(Error::BadZip);
        },
    };
    let mut v: Vec<String> = Vec::new();
    let mut i: usize = 0;
    while i < n
        invariant
            i <= n,
            zip_len(bytes@) == Some(n as nat),
            v@.len() == i,
            forall|k: int| 0 <= k < i ==> #[trigger] zip_name(bytes@, k) == Some(v@[k]@),
        decreases n - i,
    {
        match read_name(bytes, i) {
            Some(e) => {
                v.push(e);
            },
            None => {
                assert(zip_name(bytes@, i as int) is None);
                return Err(Error::BadZip);
            },
        }
        i += 1;
    }
    assert(strings_view(v@) =~= names_of(bytes@));
    Ok(v)
}

/// The entries of a zip can all be read.
pub open spec fn readable(bytes: Seq<u8>) -> bool {
    &&& zip_len(bytes) is Some
    &&& forall|i: int| 0 <= i < zip_len(bytes)->Some_0 ==> #[trigger] zip_entry(bytes, i) is Some
}

/// The entries of a zip.
pub open spec fn entries_of(bytes: Seq<u8>) -> Seq<EntryView> {
    Seq::new(zip_len(bytes)->Some_0, |i: int| zip_entry(bytes, i)->Some_0)
}

pub open spec fn entries_view(v: Seq<ZipEntry>) -> Seq<EntryView> {
    Seq::new(v.len(), |i: int| v[i]@)
}

/// The entries of a zip, in order.
pub fn list_zip(bytes: &[u8]) -> (r: Result<Vec<ZipEntry>, Error>)
    ensures
        match r {
            Ok(v) => {
                &&& readable(bytes@)
                &&& entries_view(v@) == entries_of(bytes@)
                &&& forall|i: int| 0 <= i < v@.len() ==> entry_fits(#[trigger] v@[i])
            },
            Err(e) => e == Error::BadZip && !readable(bytes@),
        },
{
    let n: usize = match count_entries(bytes) {
        Some(n) => n,
        None => {
            return Err(Error::BadZip);
        },
    };
    let mut v: Vec<ZipEntry> = Vec::new();
    let mut i: usize = 0;
    while i < n
        invariant
            i <= n,
            zip_len(bytes@) == Some(n as nat),
            v@.len() == i,
            forall|k: int| 0 <= k < i ==> #[trigger] zip_entry(bytes@, k) is Some,
            forall|k: int| 0 <= k < i ==> (#[trigger] v@[k])@ == zip_entry(bytes@, k)->Some_0,
            forall|k: int| 0 <= k < i ==> entry_fits(#[trigger] v@[k]),
        decreases n - i,
    {
        match read_entry(bytes, i) {
            Some(e) => {
                v.push(e);
            },
            None => {
                assert(zip_entry(bytes@, i as int) is None);
                return Err(Error::BadZip);
            },
        }
        i += 1;
    }
    assert(entries_view(v@) =~= entries_of(bytes@));
    Ok(v)
}

/// The content of entry `i` of a zip.
pub fn zip_file(bytes: &[u8], i: usize) -> (r: Result<Vec<u8>, Error>)
    ensures
        match r {
            Ok(b) => zip_content(bytes@, i as int) == Some(b@),
            Err(e) => e == Error::BadZip && zip_content(bytes@, i as int) is None,
        },
{
    match read_content(bytes, i) {
        Some(b) => Ok(b),
        None => Err(Error::BadZip),
    }
}

} // verus!
