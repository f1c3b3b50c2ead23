//! The zip of a new ROM: its partitions as block data, and the rest of its
//! files.
use vstd::prelude::*;
use vstd::utf8::encode_utf8;
use crate::archive::{distinct, holds, takes_all, written, zip_closes, zip_makes, zip_takes, Packing,
    Written, ZipOut};
use crate::br::{brotli_makes, brotli_plain, brotli_takes, compress_file, DEFAULT_LGWIN};
use crate::build::config::meta_in;
use crate::build::folder::{join, joined, HostEntry};
use crate::build::links::utf8_of;
use crate::build::{build, builds, Size, Summary};
use crate::error::Error;
use crate::fs::order::{by_name, labels, order, Named};
use crate::rom::config::{options_valid, RepackOptions};
use crate::rom::op_list::{group_fault, op_text, update_op_list};
use crate::rom::state::{Partition, PartitionView};
use crate::rom::unpack::data_name;
use crate::text::{chars_of, followed_by, lossy, same_text, string_of, text_of};
use crate::words::lines_of;

verus! {

/// A file or directory of the ROM folder.
#[derive(Debug)]
pub enum RomKind {
    Dir(Vec<RomEntry>),
    /// Content, and whether it is executable on disk.
    File { data: Vec<u8>, executable: bool },
}

/// An entry of the ROM folder.
#[derive(Debug)]
pub struct RomEntry {
    pub name: Vec<u8>,
    pub kind: RomKind,
}

impl Named for RomEntry {
    open spec fn label(&self) -> Seq<u8> {
        self.name@
    }

    fn name(&self) -> &Vec<u8> {
        &self.name
    }
}

/// A file of the ROM: its path with `/`, its content, and whether it is
/// executable.
pub struct RomFile<'a> {
    pub path: String,
    pub data: &'a Vec<u8>,
    pub executable: bool,
}

pub struct RomFileView {
    pub path: Seq<char>,
    pub data: Seq<u8>,
    pub executable: bool,
}

impl<'a> View for RomFile<'a> {
    type V = RomFileView;

    open spec fn view(&self) -> RomFileView {
        RomFileView { path: self.path@, data: self.data@, executable: self.executable }
    }
}

pub open spec fn rom_view(v: Seq<RomFile>) -> Seq<RomFileView> {
    Seq::new(v.len(), |i: int| v[i]@)
}

/// The order in which the entries of a directory are visited: by name.
pub open spec fn entry_order(e: RomEntry) -> Seq<int> {
    match e.kind {
        RomKind::Dir(ch) => order(labels(ch@), ch@.len() as int),
        _ => Seq::empty(),
    }
}

/// The files under the first `k` entries of the directory at `rel`.
pub open spec fn files_under(e: RomEntry, rel: Seq<char>, k: int) -> Seq<RomFileView>
    decreases e, k,
{
    match e.kind {
        RomKind::Dir(ch) => if 0 < k <= entry_order(e).len() && 0 <= entry_order(e)[k - 1]
            < ch@.len() {
            let child = ch@[entry_order(e)[k - 1]];
            let path = joined(rel, text_of(child.name@));
            files_under(e, rel, k - 1) + match child.kind {
                RomKind::File { data, executable } => seq![
                    RomFileView { path, data: data@, executable },
                ],
                RomKind::Dir(_) => files_under(child, path, entry_order(child).len() as int),
            }
        } else {
            Seq::empty()
        },
        _ => Seq::empty(),
    }
}

/// The files of the ROM folder.
pub open spec fn rom_files(root: RomEntry) -> Seq<RomFileView> {
    files_under(root, Seq::empty(), entry_order(root).len() as int)
}

/// Appends the files under the directory at `rel`, sorted.
fn collect_under<'a>(e: &'a RomEntry, rel: &[char], out: &mut Vec<RomFile<'a>>)
    ensures
        rom_view(final(out)@) == rom_view(old(out)@) + files_under(
            *e,
            rel@,
            entry_order(*e).len() as int,
        ),
    decreases e,
{
    let ghost start = rom_view(out@);
    match &e.kind {
        RomKind::Dir(ch) => {
            let positions: Vec<usize> = by_name(ch);
            let ghost ix = entry_order(*e);
            let n: usize = ch.len();
            let mut k: usize = 0;
            assert(start + files_under(*e, rel@, 0) =~= start);
            while k < n
                invariant
                    n == ch@.len(),
                    k <= n,
                    e.kind == RomKind::Dir(*ch),
                    ix == entry_order(*e),
                    ix.len() == n,
                    positions@.map_values(|i: usize| i as int) == ix,
                    positions.len() == n,
                    forall|j: int| 0 <= j < n ==> #[trigger] positions@[j] < n,
                    rom_view(out@) == start + files_under(*e, rel@, k as int),
                decreases n - k,
            {
                let i: usize = positions[k];
                proof {
                    assert(positions@.map_values(|i: usize| i as int)[k as int] == i);
                    assert(ix[k as int] == i);
                }
                let child: &'a RomEntry = &ch[i];
                let text: String = lossy(&child.name);
                let path: Vec<char> = join(rel, &chars_of(text.as_str()));
                let ghost was = out@;
                match &child.kind {
                    RomKind::File { data, executable } => {
                        let f: RomFile<'a> = RomFile {
                            path: string_of(&path),
                            data,
                            executable: *executable,
                        };
                        out.push(f);
                        assert(rom_view(out@) =~= rom_view(was) + seq![f@]);
                    },
                    RomKind::Dir(_) => {
                        collect_under(child, &path, out);
                    },
                }
                assert(rom_view(out@) =~= start + files_under(*e, rel@, k + 1));
                k += 1;
            }
        },
        _ => {
            assert(start + files_under(*e, rel@, 0) =~= start);
        },
    }
}

/// The files of the ROM folder, sorted within each directory.
pub fn collect_files<'a>(root: &'a RomEntry) -> (r: Vec<RomFile<'a>>)
    ensures
        rom_view(r@) == rom_files(*root),
{
    let mut out: Vec<RomFile<'a>> = Vec::new();
    let rel: Vec<char> = Vec::new();
    assert(rel@ =~= Seq::<char>::empty());
    collect_under(root, &rel, &mut out);
    assert(rom_view(out@) =~= rom_files(*root));
    out
}

/// The image of a partition is built with the size that it had. Where that is
/// too small, the partition grows if there is a list of dynamic partitions.
/// Tells whether it grew.
pub fn build_partition(
    part: &str,
    fs_config: &str,
    file_contexts: &str,
    symlinks: &str,
    info: &str,
    folder: &HostEntry,
    dynamic: bool,
    now: u128,
) -> (r: Result<(Vec<u8>, Summary, bool), Error>)
    ensures
        ({
            let meta = meta_in(fs_config@, file_contexts@, symlinks@, info@);
            exists|first: Result<(Vec<u8>, Summary), Error>|
                #[trigger] builds(first, part@, meta, *folder, Size::Original, now) && match r {
                    Ok((image, s, grew)) => {
                        let now_built = Ok::<(Vec<u8>, Summary), Error>((image, s));
                        &&& grew == (dynamic && first == Err::<(Vec<u8>, Summary), Error>(
                            Error::StorageFull,
                        ))
                        &&& if grew {
                            builds(now_built, part@, meta, *folder, Size::Auto, now)
                        } else {
                            first == now_built
                        }
                    },
                    Err(e) => {
                        let failed = Err::<(Vec<u8>, Summary), Error>(e);
                        if dynamic && first == Err::<(Vec<u8>, Summary), Error>(Error::StorageFull) {
                            builds(failed, part@, meta, *folder, Size::Auto, now)
                        } else {
                            first == failed
                        }
                    },
                }
        }),
        match r {
            Ok((_, s, _)) => s.stats.blocks <= u32::MAX && s.block_size <= 4096,
            Err(_) => true,
        },
{
    let first: Result<(Vec<u8>, Summary), Error> = build(
        part,
        fs_config,
        file_contexts,
        symlinks,
        info,
        folder,
        Size::Original,
        now,
    );
    let ghost meta = meta_in(fs_config@, file_contexts@, symlinks@, info@);
    assert(builds(first, part@, meta, *folder, Size::Original, now));
    match first {
        Ok((image, s)) => Ok((image, s, false)),
        Err(e) => {
            if e == Error::StorageFull && dynamic {
                match build(
                    part,
                    fs_config,
                    file_contexts,
                    symlinks,
                    info,
                    folder,
                    Size::Auto,
                    now,
                ) {
                    Ok((image, s)) => Ok((image, s, true)),
                    Err(e) => Err(e),
                }
            } else {
                Err(e)
            }
        },
    }
}

/// Bytes that a file system takes.
pub fn fs_bytes(s: &Summary) -> (r: u64)
    requires
        s.stats.blocks <= u32::MAX,
        s.block_size <= 4096,
    ensures
        r == s.stats.blocks * s.block_size,
{
    assert(s.stats.blocks * s.block_size <= u32::MAX * 4096) by (nonlinear_arith)
        requires
            s.stats.blocks <= u32::MAX,
            s.block_size <= 4096,
    ;
    s.stats.blocks * s.block_size
}

/// How files are packed with a level: 0 stores them.
pub open spec fn packing_for(level: i64) -> Packing {
    if level == 0 {
        Packing::Stored
    } else {
        Packing::Deflated(level)
    }
}

fn packing_of(level: i64) -> (r: Packing)
    ensures
        r == packing_for(level),
{
    if level == 0 {
        Packing::Stored
    } else {
        Packing::Deflated(level)
    }
}

/// Data that needs the zip64 form of an entry.
pub open spec fn is_large(data: Seq<u8>) -> bool {
    data.len() >= u32::MAX
}

/// The transfer list of a partition in the zip.
pub open spec fn list_file(p: PartitionView, list: Seq<u8>, opts: RepackOptions) -> Written {
    Written {
        name: p.name + ".transfer.list"@,
        data: list,
        packing: packing_for(opts.zip_level),
        mode: 0o644,
        large: false,
    }
}

/// The block data of a partition in the zip: compressed with brotli and
/// stored, or plain.
pub open spec fn is_data_file(f: Written, p: PartitionView, data: Seq<u8>, opts: RepackOptions) -> bool {
    &&& f.name == data_name(p)
    &&& f.mode == 0o644
    &&& f.large == is_large(data)
    &&& if p.brotli {
        &&& f.packing == Packing::Stored
        &&& brotli_makes(data, opts.brotli_quality, DEFAULT_LGWIN, f.data)
        &&& brotli_plain(f.data) == Some(data)
    } else {
        f.packing == packing_for(opts.zip_level) && f.data == data
    }
}

/// The patch of a partition in the zip, which is empty.
pub open spec fn patch_file(p: PartitionView) -> Written {
    Written {
        name: p.name + ".patch.dat"@,
        data: Seq::empty(),
        packing: Packing::Stored,
        mode: 0o644,
        large: false,
    }
}

/// The files of a partition in the zip: the transfer list, the block data,
/// and an empty patch.
pub open spec fn packs(
    files: Seq<Written>,
    p: PartitionView,
    list: Seq<u8>,
    data: Seq<u8>,
    opts: RepackOptions,
) -> bool {
    &&& files.len() == 3
    &&& files[0] == list_file(p, list, opts)
    &&& is_data_file(files[1], p, data, opts)
    &&& files[2] == patch_file(p)
}

/// The zip does not take one of the files of a partition.
pub open spec fn part_refused(
    files: Seq<Written>,
    p: PartitionView,
    list: Seq<u8>,
    data: Seq<u8>,
    opts: RepackOptions,
) -> bool {
    let first = list_file(p, list, opts);
    ||| !zip_takes(files, first)
    ||| exists|f: Written| #[trigger]
        is_data_file(f, p, data, opts) && (!zip_takes(files.push(first), f) || !zip_takes(
            files.push(first).push(f),
            patch_file(p),
        ))
}

proof fn lemma_takes_on(a: Seq<Written>, b: Seq<Written>, c: Seq<Written>)
    requires
        takes_all(a, b),
        takes_all(a + b, c),
    ensures
        takes_all(a, b + c),
{
    let d = b + c;
    assert forall|k: int| 0 <= k < d.len() implies zip_takes(a + d.take(k), #[trigger] d[k]) by {
        if k < b.len() {
            assert(d.take(k) =~= b.take(k));
            assert(zip_takes(a + b.take(k), b[k]));
        } else {
            assert(a + d.take(k) =~= a + b + c.take(k - b.len()));
            assert(zip_takes(a + b + c.take(k - b.len()), c[k - b.len()]));
        }
    }
}

/// The list of dynamic partitions.
pub open spec fn op_list_name() -> Seq<char> {
    "dynamic_partitions_op_list"@
}

/// A file of the ROM in the zip: the list of dynamic partitions has the new
/// sizes, the others are as they were.
pub open spec fn rom_written(
    f: RomFileView,
    op_list: Option<Seq<char>>,
    sizes: Seq<(String, u64)>,
    level: i64,
) -> Written {
    if f.path == op_list_name() && op_list is Some {
        let lines = lines_of(op_list->Some_0);
        Written {
            name: f.path,
            data: encode_utf8(op_text(lines, sizes, lines.len() as int)),
            packing: packing_for(level),
            mode: 0o644,
            large: false,
        }
    } else {
        Written {
            name: f.path,
            data: f.data,
            packing: packing_for(level),
            mode: if f.executable {
                0o755
            } else {
                0o644
            },
            large: is_large(f.data),
        }
    }
}

/// The files of the ROM in the zip.
pub open spec fn all_written(
    files: Seq<RomFileView>,
    op_list: Option<Seq<char>>,
    sizes: Seq<(String, u64)>,
    level: i64,
) -> Seq<Written> {
    Seq::new(files.len(), |i: int| rom_written(files[i], op_list, sizes, level))
}

/// The list of dynamic partitions is packed, and some group in it is too
/// small for the new sizes.
pub open spec fn sizes_fault(
    files: Seq<RomFileView>,
    op_list: Option<Seq<char>>,
    sizes: Seq<(String, u64)>,
) -> bool {
    op_list is Some && group_fault(lines_of(op_list->Some_0), sizes) && exists|i: int|
        0 <= i < files.len() && (#[trigger] files[i]).path == op_list_name()
}

/// The sizes with that of a partition, where its file system outgrew it.
pub open spec fn with_size(
    sizes: Seq<(Seq<char>, u64)>,
    p: PartitionView,
    fs_bytes: u64,
) -> Seq<(Seq<char>, u64)> {
    if fs_bytes > p.size {
        sizes.push((p.name, fs_bytes))
    } else {
        sizes
    }
}

pub open spec fn sizes_view(v: Seq<(String, u64)>) -> Seq<(Seq<char>, u64)> {
    Seq::new(v.len(), |i: int| (v[i].0@, v[i].1))
}

pub open spec fn opt_text(s: Option<&str>) -> Option<Seq<char>> {
    match s {
        Some(t) => Some(t@),
        None => None,
    }
}

/// A ROM being packed.
pub struct Repack {
    pub zip: ZipOut,
    pub opts: RepackOptions,
    /// The sizes of the partitions that grew.
    pub new_sizes: Vec<(String, u64)>,
}

impl Repack {
    /// The options are in their ranges, and no two files have the same name.
    pub open spec fn wf(&self) -> bool {
        options_valid(self.opts) && distinct(written(self.zip))
    }

    /// A ROM without files.
    pub fn new(opts: RepackOptions) -> (r: Result<Self, Error>)
        ensures
            match r {
                Ok(x) => {
                    &&& options_valid(opts)
                    &&& x.wf()
                    &&& x.opts == opts
                    &&& written(x.zip) == Seq::<Written>::empty()
                    &&& x.new_sizes@ == Seq::<(String, u64)>::empty()
                },
                Err(e) => e == Error::BadOptions && !options_valid(opts),
            },
    {
        if opts.brotli_quality > 11 || opts.zip_level < 0 || opts.zip_level > 9 {
            return Err(Error::BadOptions);
        }
        Ok(Repack { zip: ZipOut::new(), opts, new_sizes: Vec::new() })
    }

    /// Adds a partition: the bytes that its file system takes, its transfer
    /// list and its block data.
    pub fn add_partition(&mut self, p: &Partition, fs_bytes: u64, list: &[u8], data: &[u8]) -> (r:
        Result<(), Error>)
        requires
            old(self).wf(),
        ensures
            r is Ok ==> final(self).wf(),
            final(self).opts == old(self).opts,
            sizes_view(final(self).new_sizes@) == with_size(
                sizes_view(old(self).new_sizes@),
                p@,
                fs_bytes,
            ),
            match r {
                Ok(()) => {
                    let n = written(old(self).zip).len() as int;
                    &&& written(final(self).zip).len() == n + 3
                    &&& written(final(self).zip).take(n) == written(old(self).zip)
                    &&& packs(
                        written(final(self).zip).skip(n),
                        p@,
                        list@,
                        data@,
                        old(self).opts,
                    )
                    &&& takes_all(written(old(self).zip), written(final(self).zip).skip(n))
                },
                Err(e) => {
                    ||| e == Error::ZipRefused && part_refused(
                        written(old(self).zip),
                        p@,
                        list@,
                        data@,
                        old(self).opts,
                    )
                    ||| e == Error::BrotliFailed && p.brotli && !brotli_takes(
                        data@,
                        old(self).opts.brotli_quality,
                        DEFAULT_LGWIN,
                    )
                },
            },
    {
        let level: i64 = self.opts.zip_level;
        let name: &str = p.name.as_str();
        let ghost before = written(self.zip);
        if fs_bytes > p.size {
            let ghost was = self.new_sizes@;
            self.new_sizes.push((name.to_string(), fs_bytes));
            assert(sizes_view(self.new_sizes@) =~= sizes_view(was).push((p.name@, fs_bytes)));
        }
        let packing: Packing = packing_of(level);
        let large: bool = data.len() as u64 >= 0xFFFF_FFFF;
        if let Err(e) = self.zip.add_file(
            followed_by(name, ".transfer.list").as_str(),
            list,
            packing,
            0o644,
            false,
        ) {
            return Err(e);
        }
        let ghost a = list_file(p@, list@, self.opts);
        assert(written(self.zip) == before.push(a));
        let none: Vec<u8> = Vec::new();
        assert(none@ =~= Seq::<u8>::empty());
        if p.brotli {
            let packed: Vec<u8> = match compress_file(data, self.opts.brotli_quality, DEFAULT_LGWIN) {
                Ok(b) => b,
                Err(e) => {
                    return Err(e);
                },
            };
            proof {
                let f = Written {
                    name: data_name(p@),
                    data: packed@,
                    packing: Packing::Stored,
                    mode: 0o644,
                    large,
                };
                assert(is_data_file(f, p@, data@, self.opts));
            }
            if let Err(e) = self.zip.add_file(
                followed_by(name, ".new.dat.br").as_str(),
                &packed,
                Packing::Stored,
                0o644,
                large,
            ) {
                return Err(e);
            }
        } else {
            proof {
                let f = Written { name: data_name(p@), data: data@, packing, mode: 0o644, large };
                assert(is_data_file(f, p@, data@, self.opts));
            }
            if let Err(e) = self.zip.add_file(
                followed_by(name, ".new.dat").as_str(),
                data,
                packing,
                0o644,
                large,
            ) {
                return Err(e);
            }
        }
        let ghost b = written(self.zip).last();
        assert(is_data_file(b, p@, data@, self.opts));
        assert(written(self.zip) == before.push(a).push(b));
        if let Err(e) = self.zip.add_file(
            followed_by(name, ".patch.dat").as_str(),
            &none,
            Packing::Stored,
            0o644,
            false,
        ) {
            return Err(e);
        }
        proof {
            let now = written(self.zip);
            let c = now.last();
            assert(now == before.push(a).push(b).push(c));
            assert(now.take(before.len() as int) =~= before);
            let three = seq![a, b, c];
            assert(now.skip(before.len() as int) =~= three);
            assert(before + three.take(0) =~= before);
            assert(before + three.take(1) =~= before.push(a));
            assert(before + three.take(2) =~= before.push(a).push(b));
        }
        Ok(())
    }

    /// Adds a file of the ROM.
    fn add_file(&mut self, f: &RomFile, op_list: Option<&str>) -> (r: Result<(), Error>)
        requires
            old(self).wf(),
        ensures
            r is Ok ==> final(self).wf(),
            final(self).opts == old(self).opts,
            final(self).new_sizes == old(self).new_sizes,
            ({
                let is_list = f@.path == op_list_name() && op_list is Some;
                let fault = is_list && group_fault(
                    lines_of(opt_text(op_list)->Some_0),
                    old(self).new_sizes@,
                );
                let file = rom_written(
                    f@,
                    opt_text(op_list),
                    old(self).new_sizes@,
                    old(self).opts.zip_level,
                );
                match r {
                    Ok(()) => {
                        &&& !fault
                        &&& zip_takes(written(old(self).zip), file)
                        &&& written(final(self).zip) == written(old(self).zip).push(file)
                    },
                    Err(e) => if fault {
                        e == Error::OpListFull
                    } else {
                        e == Error::ZipRefused && !zip_takes(written(old(self).zip), file)
                    },
                }
            }),
    {
        let packing: Packing = packing_of(self.opts.zip_level);
        if let Some(text) = op_list {
            if same_text(f.path.as_str(), "dynamic_partitions_op_list") {
                let updated: String = match update_op_list(text, &self.new_sizes) {
                    Ok(s) => s,
                    Err(e) => {
                        return Err(e);
                    },
                };
                let bytes: Vec<u8> = utf8_of(&chars_of(updated.as_str()));
                return self.zip.add_file(f.path.as_str(), &bytes, packing, 0o644, false);
            }
        }
        let mode: u32 = if f.executable {
            0o755
        } else {
            0o644
        };
        let large: bool = f.data.len() as u64 >= 0xFFFF_FFFF;
        self.zip.add_file(f.path.as_str(), f.data, packing, mode, large)
    }

    /// Adds the rest of the ROM: the files of its folder, with the text of the
    /// list of dynamic partitions where there is one.
    pub fn add_rom(&mut self, folder: &RomEntry, op_list: Option<&str>) -> (r: Result<(), Error>)
        requires
            old(self).wf(),
        ensures
            r is Ok ==> final(self).wf(),
            final(self).opts == old(self).opts,
            final(self).new_sizes == old(self).new_sizes,
            ({
                let fault = sizes_fault(
                    rom_files(*folder),
                    opt_text(op_list),
                    old(self).new_sizes@,
                );
                let more = all_written(
                    rom_files(*folder),
                    opt_text(op_list),
                    old(self).new_sizes@,
                    old(self).opts.zip_level,
                );
                match r {
                    Ok(()) => {
                        &&& !fault
                        &&& takes_all(written(old(self).zip), more)
                        &&& written(final(self).zip) == written(old(self).zip) + more
                    },
                    Err(e) => {
                        ||| e == Error::ZipRefused && !takes_all(written(old(self).zip), more)
                        ||| e == Error::OpListFull && fault
                    },
                }
            }),
    {
        let files: Vec<RomFile> = collect_files(folder);
        let ghost all = rom_files(*folder);
        let ghost list = opt_text(op_list);
        let ghost sizes = self.new_sizes@;
        let ghost level = self.opts.zip_level;
        let ghost want = all_written(all, list, sizes, level);
        let ghost before = written(self.zip);
        let n: usize = files.len();
        let mut i: usize = 0;
        assert(before + want.take(0) =~= before);
        while i < n
            invariant
                i <= n,
                n == files@.len(),
                n == all.len(),
                all == rom_view(files@),
                all == rom_files(*folder),
                list == opt_text(op_list),
                want == all_written(all, list, sizes, level),
                sizes == old(self).new_sizes@,
                before == written(old(self).zip),
                level == old(self).opts.zip_level,
                self.new_sizes == old(self).new_sizes,
                self.opts == old(self).opts,
                self.wf(),
                written(self.zip) == before + want.take(i as int),
                forall|k: int|
                    0 <= k < i ==> zip_takes(before + want.take(k), #[trigger] want[k]),
                list is Some && group_fault(lines_of(list->Some_0), sizes) ==> forall|k: int|
                    0 <= k < i ==> (#[trigger] all[k]).path != op_list_name(),
            decreases n - i,
        {
            let ghost f = files@[i as int]@;
            assert(all[i as int] == f);
            assert(want[i as int] == rom_written(f, list, sizes, level));
            match self.add_file(&files[i], op_list) {
                Ok(()) => {},
                Err(e) => {
                    return Err(e);
                },
            }
            assert(before + want.take(i as int).push(want[i as int]) =~= before + want.take(i + 1));
            assert((before + want.take(i as int)).push(want[i as int]) =~= before + want.take(i + 1));
            i += 1;
        }
        assert(want.take(n as int) =~= want);
        Ok(())
    }

    /// The bytes of the zip.
    pub fn finish(self) -> (r: Result<Vec<u8>, Error>)
        ensures
            match r {
                Ok(b) => zip_makes(written(self.zip), b@) && holds(b@, written(self.zip)),
                Err(e) => e == Error::ZipRefused && !zip_closes(written(self.zip)),
            },
    {
        self.zip.finish()
    }
}

/// A partition that was built: the bytes that its file system takes, its
/// transfer list and its block data.
#[derive(Debug)]
pub struct BuiltPart {
    pub partition: Partition,
    pub fs_bytes: u64,
    pub transfer_list: Vec<u8>,
    pub new_data: Vec<u8>,
}

/// The sizes of those of the first `n` partitions that grew.
pub open spec fn grown(parts: Seq<BuiltPart>, n: int) -> Seq<(Seq<char>, u64)>
    decreases n,
{
    if n <= 0 {
        Seq::empty()
    } else {
        with_size(grown(parts, n - 1), parts[n - 1].partition@, parts[n - 1].fs_bytes)
    }
}

/// The files of partition `i` of a ROM.
pub open spec fn packs_part(
    files: Seq<Written>,
    parts: Seq<BuiltPart>,
    i: int,
    opts: RepackOptions,
) -> bool {
    packs(
        files.subrange(3 * i, 3 * i + 3),
        parts[i].partition@,
        parts[i].transfer_list@,
        parts[i].new_data@,
        opts,
    )
}

/// The files of the first `n` partitions of a ROM, which the zip takes.
pub open spec fn packed_upto(
    files: Seq<Written>,
    parts: Seq<BuiltPart>,
    n: int,
    opts: RepackOptions,
) -> bool {
    &&& files.len() == 3 * n
    &&& takes_all(Seq::empty(), files)
    &&& forall|i: int| 0 <= i < n ==> #[trigger] packs_part(files, parts, i, opts)
}

/// The zip does not take one of the files of a ROM, or cannot be finished.
pub open spec fn rom_refused(
    opts: RepackOptions,
    parts: Seq<BuiltPart>,
    folder: RomEntry,
    op_list: Option<Seq<char>>,
) -> bool {
    ||| parts_refused(opts, parts)
    ||| exists|front: Seq<Written>, sizes: Seq<(String, u64)>|
        {
            let rest = #[trigger] all_written(rom_files(folder), op_list, sizes, opts.zip_level);
            &&& #[trigger] packed_upto(front, parts, parts.len() as int, opts)
            &&& sizes_view(sizes) == grown(parts, parts.len() as int)
            &&& !takes_all(front, rest) || !zip_closes(front + rest)
        }
}

/// The files of a ROM: those of its partitions, then the rest.
pub open spec fn repacks(
    files: Seq<Written>,
    opts: RepackOptions,
    parts: Seq<BuiltPart>,
    folder: RomEntry,
    op_list: Option<Seq<char>>,
    sizes: Seq<(String, u64)>,
) -> bool {
    &&& distinct(files)
    &&& sizes_view(sizes) == grown(parts, parts.len() as int)
    &&& !sizes_fault(rom_files(folder), op_list, sizes)
    &&& files.len() == 3 * parts.len() + rom_files(folder).len()
    &&& forall|i: int| 0 <= i < parts.len() ==> #[trigger] packs_part(files, parts, i, opts)
    &&& takes_all(Seq::empty(), files)
    &&& zip_closes(files)
    &&& files.skip(3 * parts.len() as int) == all_written(
        rom_files(folder),
        op_list,
        sizes,
        opts.zip_level,
    )
}

/// The files of one more partition behind those of the first `i`.
proof fn lemma_one_more(
    before: Seq<Written>,
    after: Seq<Written>,
    parts: Seq<BuiltPart>,
    i: int,
    opts: RepackOptions,
)
    requires
        0 <= i < parts.len(),
        packed_upto(before, parts, i, opts),
        after.len() == before.len() + 3,
        after.take(before.len() as int) == before,
        packs(
            after.skip(before.len() as int),
            parts[i].partition@,
            parts[i].transfer_list@,
            parts[i].new_data@,
            opts,
        ),
        takes_all(before, after.skip(before.len() as int)),
    ensures
        packed_upto(after, parts, i + 1, opts),
{
    let e = Seq::<Written>::empty();
    assert(e + before =~= before);
    lemma_takes_on(e, before, after.skip(before.len() as int));
    assert(before + after.skip(before.len() as int) =~= after);
    assert(after.skip(3 * i) =~= after.subrange(3 * i, 3 * i + 3));
    assert forall|k: int| 0 <= k < i + 1 implies #[trigger] packs_part(after, parts, k, opts) by {
        if k < i {
            assert(packs_part(before, parts, k, opts));
            assert(after.subrange(3 * k, 3 * k + 3) =~= before.subrange(3 * k, 3 * k + 3));
        }
    }
}

/// The files of a ROM are those of its partitions and the rest.
proof fn lemma_whole(
    front: Seq<Written>,
    opts: RepackOptions,
    parts: Seq<BuiltPart>,
    folder: RomEntry,
    op_list: Option<Seq<char>>,
    sizes: Seq<(String, u64)>,
)
    requires
        packed_upto(front, parts, parts.len() as int, opts),
        sizes_view(sizes) == grown(parts, parts.len() as int),
        !sizes_fault(rom_files(folder), op_list, sizes),
        ({
            let files = front + all_written(rom_files(folder), op_list, sizes, opts.zip_level);
            distinct(files) && zip_closes(files)
        }),
        takes_all(front, all_written(rom_files(folder), op_list, sizes, opts.zip_level)),
    ensures
        repacks(
            front + all_written(rom_files(folder), op_list, sizes, opts.zip_level),
            opts,
            parts,
            folder,
            op_list,
            sizes,
        ),
{
    let rest = all_written(rom_files(folder), op_list, sizes, opts.zip_level);
    let files = front + rest;
    let e = Seq::<Written>::empty();
    let n = parts.len() as int;
    assert(e + front =~= front);
    lemma_takes_on(e, front, rest);
    assert(files.skip(3 * n) =~= rest);
    assert forall|k: int| 0 <= k < n implies #[trigger] packs_part(files, parts, k, opts) by {
        assert(packs_part(front, parts, k, opts));
        assert(files.subrange(3 * k, 3 * k + 3) =~= front.subrange(3 * k, 3 * k + 3));
    }
}

/// The compressor does not take the block data of some partition.
pub open spec fn data_refused(opts: RepackOptions, parts: Seq<BuiltPart>) -> bool {
    exists|i: int|
        0 <= i < parts.len() && (#[trigger] parts[i]).partition.brotli && !brotli_takes(
            parts[i].new_data@,
            opts.brotli_quality,
            DEFAULT_LGWIN,
        )
}

/// The zip does not take one of the files of a ROM's partitions.
pub open spec fn parts_refused(opts: RepackOptions, parts: Seq<BuiltPart>) -> bool {
    exists|front: Seq<Written>, i: int| #[trigger]
        packed_upto(front, parts, i, opts) && 0 <= i < parts.len() && part_refused(
            front,
            parts[i].partition@,
            parts[i].transfer_list@,
            parts[i].new_data@,
            opts,
        )
}

/// Adds the partitions of a ROM.
fn add_partitions(rom: &mut Repack, parts: &Vec<BuiltPart>) -> (r: Result<(), Error>)
    requires
        old(rom).wf(),
        written(old(rom).zip).len() == 0,
        old(rom).new_sizes@.len() == 0,
    ensures
        r is Ok ==> final(rom).wf(),
        final(rom).opts == old(rom).opts,
        match r {
            Ok(()) => {
                &&& sizes_view(final(rom).new_sizes@) == grown(parts@, parts@.len() as int)
                &&& packed_upto(
                    written(final(rom).zip),
                    parts@,
                    parts@.len() as int,
                    old(rom).opts,
                )
            },
            Err(e) => {
                ||| e == Error::ZipRefused && parts_refused(old(rom).opts, parts@)
                ||| e == Error::BrotliFailed && data_refused(old(rom).opts, parts@)
            },
        },
{
    let n: usize = parts.len();
    let mut i: usize = 0;
    let ghost opts = rom.opts;
    assert(sizes_view(rom.new_sizes@) =~= grown(parts@, 0));
    while i < n
        invariant
            i <= n,
            n == parts@.len(),
            rom.wf(),
            rom.opts == opts,
            opts == old(rom).opts,
            sizes_view(rom.new_sizes@) == grown(parts@, i as int),
            packed_upto(written(rom.zip), parts@, i as int, opts),
        decreases n - i,
    {
        let p: &BuiltPart = &parts[i];
        let ghost before = written(rom.zip);
        match rom.add_partition(&p.partition, p.fs_bytes, &p.transfer_list, &p.new_data) {
            Ok(()) => {},
            Err(e) => {
                return Err(e);
            },
        }
        proof {
            lemma_one_more(before, written(rom.zip), parts@, i as int, opts);
        }
        i += 1;
    }
    Ok(())
}

/// Packs a ROM: its partitions, and the files of its folder, with the text of
/// the list of dynamic partitions where there is one.
pub fn repack(
    opts: RepackOptions,
    parts: &Vec<BuiltPart>,
    folder: &RomEntry,
    op_list: Option<&str>,
) -> (r: Result<Vec<u8>, Error>)
    ensures
        match r {
            Ok(b) => options_valid(opts) && exists|files: Seq<Written>, sizes: Seq<(String, u64)>|
                zip_makes(files, b@) && holds(b@, files) && #[trigger] repacks(
                    files,
                    opts,
                    parts@,
                    *folder,
                    opt_text(op_list),
                    sizes,
                ),
            Err(e) => if !options_valid(opts) {
                e == Error::BadOptions
            } else {
                ||| e == Error::ZipRefused && rom_refused(opts, parts@, *folder, opt_text(op_list))
                ||| e == Error::BrotliFailed && data_refused(opts, parts@)
                ||| e == Error::OpListFull && exists|sizes: Seq<(String, u64)>|
                    sizes_view(sizes) == grown(parts@, parts@.len() as int) && #[trigger] sizes_fault(
                        rom_files(*folder),
                        opt_text(op_list),
                        sizes,
                    )
            },
        },
{
    let mut rom: Repack = match Repack::new(opts) {
        Ok(x) => x,
        Err(e) => {
            return Err(e);
        },
    };
    match add_partitions(&mut rom, parts) {
        Ok(()) => {},
        Err(e) => {
            return Err(e);
        },
    }
    let ghost front = written(rom.zip);
    let ghost sizes = rom.new_sizes@;
    let ghost rest = all_written(rom_files(*folder), opt_text(op_list), sizes, opts.zip_level);
    match rom.add_rom(folder, op_list) {
        Ok(()) => {},
        Err(e) => {
            return Err(e);
        },
    }
    let ghost files = written(rom.zip);
    assert(files == front + rest);
    match rom.finish() {
        Ok(b) => {
            proof {
                assert(zip_closes(files));
                lemma_whole(front, opts, parts@, *folder, opt_text(op_list), sizes);
            }
            Ok(b)
        },
        Err(e) => Err(e),
    }
}

} // verus!
