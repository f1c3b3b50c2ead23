//! What is packed of a ROM folder, and how.
use vstd::prelude::*;
use vstd::utf8::encode_utf8;
use crate::archive::{Packing, Written};
use crate::br::{brotli_plain, params_fault};
use crate::build::config::{value_for, MetaView};
use crate::build::folder::{joined, known_owner, TreeKind};
use crate::build::links::link_at;
use crate::dat::dat_files;
use crate::error::Error;
use crate::extract::{count_class, device_of, sum_bytes, tamed, VisitView};
use crate::fs::order::{labels, lemma_order, order, picked, place};
use crate::fs::Kind;
use crate::laws::folders::below;
use crate::laws::work_folders::texts_are_parted;
use crate::rom::config::RepackOptions;
use crate::rom::repack::{entry_order, files_under, packs, rom_files, rom_written, RomEntry,
    RomFileView, RomKind};
use crate::rom::state::PartitionView;
use crate::text::text_of;

verus! {

/// Every file below a directory is in a list, with its path, content and
/// whether it is executable.
pub open spec fn has_all(e: RomEntry, rel: Seq<char>, files: Seq<RomFileView>) -> bool
    decreases e,
{
    match e.kind {
        RomKind::File { .. } => false,
        RomKind::Dir(ch) => forall|i: int|
            0 <= i < ch@.len() ==> {
                let c = #[trigger] ch@[i];
                let path = below(rel, c.name@);
                match c.kind {
                    RomKind::File { data, executable } => files.contains(
                        (RomFileView { path, data: data@, executable }),
                    ),
                    RomKind::Dir(_) => 0 <= i < ch@.len() && has_all(ch@[i], path, files),
                }
            },
    }
}

/// How many files are below an entry.
pub open spec fn file_count(e: RomEntry) -> int
    decreases e, 0int,
{
    match e.kind {
        RomKind::File { .. } => 1,
        RomKind::Dir(ch) => file_count_of(ch@, ch@.len() as int),
    }
}

/// How many files are below the first `n` entries.
pub open spec fn file_count_of(ch: Seq<RomEntry>, n: int) -> int
    decreases ch, n,
{
    if 0 < n <= ch.len() {
        file_count_of(ch, n - 1) + file_count(ch[n - 1])
    } else {
        0
    }
}

proof fn lemma_more_files(e: RomEntry, rel: Seq<char>, files: Seq<RomFileView>,
    more: Seq<RomFileView>)
    requires
        has_all(e, rel, files),
        forall|f: RomFileView| files.contains(f) ==> #[trigger] more.contains(f),
    ensures
        has_all(e, rel, more),
    decreases e,
{
    if let RomKind::Dir(ch) = e.kind {
        assert forall|i: int| 0 <= i < ch@.len() implies {
            let c = #[trigger] ch@[i];
            let path = below(rel, c.name@);
            match c.kind {
                RomKind::File { data, executable } => more.contains(
                    (RomFileView { path, data: data@, executable }),
                ),
                RomKind::Dir(_) => 0 <= i < ch@.len() && has_all(ch@[i], path, more),
            }
        } by {
            let c = ch@[i];
            let path = below(rel, c.name@);
            match c.kind {
                RomKind::File { data, executable } => {
                    assert(files.contains((RomFileView { path, data: data@, executable })));
                },
                RomKind::Dir(_) => {
                    lemma_more_files(c, path, files, more);
                },
            }
        }
    }
}

proof fn lemma_front_files(a: Seq<RomFileView>, b: Seq<RomFileView>)
    ensures
        forall|f: RomFileView| a.contains(f) ==> #[trigger] (a + b).contains(f),
        forall|f: RomFileView| b.contains(f) ==> #[trigger] (a + b).contains(f),
{
    assert forall|f: RomFileView| a.contains(f) implies #[trigger] (a + b).contains(f) by {
        let k = choose|k: int| 0 <= k < a.len() && a[k] == f;
        assert((a + b)[k] == f);
    }
    assert forall|f: RomFileView| b.contains(f) implies #[trigger] (a + b).contains(f) by {
        let k = choose|k: int| 0 <= k < b.len() && b[k] == f;
        assert((a + b)[a.len() + k] == f);
    }
}

/// How many files are below the entries at the first `n` positions.
spec fn count_at(ch: Seq<RomEntry>, ix: Seq<int>, n: int) -> int
    decreases n,
{
    if n <= 0 {
        0
    } else {
        count_at(ch, ix, n - 1) + file_count(ch[ix[n - 1]])
    }
}

proof fn lemma_count_insert(ch: Seq<RomEntry>, ix: Seq<int>, at: int, v: int, n: int)
    requires
        0 <= at <= ix.len(),
        0 <= n <= ix.len(),
    ensures
        n <= at ==> count_at(ch, ix.insert(at, v), n) == count_at(ch, ix, n),
        n >= at ==> count_at(ch, ix.insert(at, v), n + 1)
            == count_at(ch, ix, n) + file_count(ch[v]),
    decreases n,
{
    let new = ix.insert(at, v);
    reveal_with_fuel(count_at, 2);
    if n > 0 {
        lemma_count_insert(ch, ix, at, v, n - 1);
        if n <= at {
            assert(new[n - 1] == ix[n - 1]);
        } else {
            assert(new[n] == ix[n - 1]);
        }
    }
    if n == at {
        assert(new[n] == v);
    }
}

proof fn lemma_count_order(ch: Seq<RomEntry>, names: Seq<Seq<u8>>, n: int)
    requires
        0 <= n <= names.len(),
        names.len() == ch.len(),
    ensures
        count_at(ch, order(names, n), n) == file_count_of(ch, n),
    decreases n,
{
    if n > 0 {
        lemma_count_order(ch, names, n - 1);
        lemma_order(names, n - 1);
        lemma_order(names, n);
        let ix = order(names, n - 1);
        let at = place(picked(names, ix), n - 1, names[n - 1]);
        crate::fs::order::lemma_place(picked(names, ix), n - 1, names[n - 1]);
        lemma_count_insert(ch, ix, at, n - 1, n - 1);
    }
}

#[verifier::rlimit(40)]
proof fn lemma_files(e: RomEntry, rel: Seq<char>, k: int)
    requires
        e.kind is Dir,
        0 <= k <= entry_order(e).len(),
    ensures
        ({
            let ch = e.kind->Dir_0@;
            let ix = entry_order(e);
            let files = files_under(e, rel, k);
            &&& files.len() == count_at(ch, ix, k)
            &&& forall|q: int|
                0 <= q < k ==> {
                    let c = ch[#[trigger] ix[q]];
                    let path = below(rel, c.name@);
                    match c.kind {
                        RomKind::File { data, executable } => files.contains(
                            (RomFileView { path, data: data@, executable }),
                        ),
                        RomKind::Dir(_) => has_all(c, path, files),
                    }
                }
        }),
    decreases e, k,
{
    let ch = e.kind->Dir_0@;
    let ix = entry_order(e);
    lemma_order(labels(ch), ch.len() as int);
    if k > 0 {
        lemma_files(e, rel, k - 1);
        assert(0 <= ix[k - 1] < ch.len());
        let had = files_under(e, rel, k - 1);
        let files = files_under(e, rel, k);
        let c = ch[ix[k - 1]];
        let path = joined(rel, text_of(c.name@));
        assert(path =~= below(rel, c.name@));
        let new = match c.kind {
            RomKind::File { data, executable } => seq![
                RomFileView { path, data: data@, executable },
            ],
            RomKind::Dir(_) => files_under(c, path, entry_order(c).len() as int),
        };
        assert(files == had + new);
        lemma_front_files(had, new);
        match c.kind {
            RomKind::File { data, executable } => {
                assert(new[0] == (RomFileView { path, data: data@, executable }));
                assert(new.contains(new[0]));
            },
            RomKind::Dir(_) => {
                lemma_dir_files(c, path);
                lemma_more_files(c, path, new, files);
            },
        }
        assert forall|q: int| 0 <= q < k implies {
            let c = ch[#[trigger] ix[q]];
            let path = below(rel, c.name@);
            match c.kind {
                RomKind::File { data, executable } => files.contains(
                    (RomFileView { path, data: data@, executable }),
                ),
                RomKind::Dir(_) => has_all(c, path, files),
            }
        } by {
            if q < k - 1 {
                let c = ch[ix[q]];
                let path = below(rel, c.name@);
                match c.kind {
                    RomKind::File { data, executable } => {
                        assert(had.contains((RomFileView { path, data: data@, executable })));
                    },
                    RomKind::Dir(_) => {
                        lemma_more_files(c, path, had, files);
                    },
                }
            }
        }
    }
}

proof fn lemma_dir_files(e: RomEntry, rel: Seq<char>)
    requires
        e.kind is Dir,
    ensures
        has_all(e, rel, files_under(e, rel, entry_order(e).len() as int)),
        files_under(e, rel, entry_order(e).len() as int).len() == file_count(e),
    decreases e, entry_order(e).len() + 1,
{
    let ch = e.kind->Dir_0@;
    let ix = entry_order(e);
    let files = files_under(e, rel, ix.len() as int);
    lemma_order(labels(ch), ch.len() as int);
    lemma_count_order(ch, labels(ch), ch.len() as int);
    lemma_files(e, rel, ix.len() as int);
    assert forall|i: int| 0 <= i < ch.len() implies {
        let c = #[trigger] ch[i];
        let path = below(rel, c.name@);
        match c.kind {
            RomKind::File { data, executable } => files.contains(
                (RomFileView { path, data: data@, executable }),
            ),
            RomKind::Dir(_) => 0 <= i < ch.len() && has_all(ch[i], path, files),
        }
    } by {
        assert(ix.contains(i));
        let q = choose|q: int| 0 <= q < ix.len() && ix[q] == i;
        assert(ch[ix[q]] == ch[i]);
    }
}

/// Every file of the ROM folder is packed, in whatever folder it is, and there
/// are no more files than the folder has.
pub proof fn rom_folder_is_packed(root: RomEntry)
    requires
        root.kind is Dir,
    ensures
        has_all(root, Seq::empty(), rom_files(root)),
        rom_files(root).len() == file_count(root),
{
    lemma_dir_files(root, Seq::empty());
}

/// A file of the ROM is packed under its path with its content; it is
/// executable where it was. Level 0 stores, any other packs with that level.
pub proof fn rom_files_are_kept(
    f: RomFileView,
    op_list: Option<Seq<char>>,
    sizes: Seq<(String, u64)>,
    level: i64,
)
    requires
        f.path != "dynamic_partitions_op_list"@ || op_list is None,
    ensures
        ({
            let w = rom_written(f, op_list, sizes, level);
            &&& w.name == f.path && w.data == f.data
            &&& w.mode == if f.executable {
                0x1EDu32
            } else {
                0x1A4
            }
            &&& level == 0 ==> w.packing == Packing::Stored
            &&& level != 0 ==> w.packing == Packing::Deflated(level)
            &&& w.large == (f.data.len() >= 0xFFFF_FFFF)
        }),
{
}

/// A partition is packed as its transfer list, its block data and an empty
/// patch. The block data is plain, or compressed and then not packed again.
pub proof fn partitions_are_packed(
    files: Seq<Written>,
    p: PartitionView,
    list: Seq<u8>,
    data: Seq<u8>,
    opts: RepackOptions,
)
    requires
        packs(files, p, list, data, opts),
    ensures
        files.len() == 3,
        files[0].name == p.name + ".transfer.list"@ && files[0].data == list,
        p.brotli ==> files[1].name == p.name + ".new.dat.br"@ && brotli_plain(files[1].data)
            == Some(
            data,
        ) && files[1].packing == Packing::Stored,
        !p.brotli ==> files[1].name == p.name + ".new.dat"@ && files[1].data == data,
        files[2].name == p.name + ".patch.dat"@ && files[2].data.len() == 0,
        opts.zip_level == 0 ==> files[0].packing == Packing::Stored,
        opts.zip_level != 0 ==> files[0].packing == Packing::Deflated(opts.zip_level),
        opts.zip_level != 0 && !p.brotli ==> files[1].packing == Packing::Deflated(opts.zip_level),
        files[0].mode == 0x1A4 && files[1].mode == 0x1A4 && files[2].mode == 0x1A4,
{
}

/// The block data of an image is written compressed, with an empty patch and the
/// transfer list, each named after the prefix.
pub proof fn block_data_is_written(
    files: Seq<(String, Vec<u8>)>,
    prefix: Seq<char>,
    quality: u32,
    list: Seq<u8>,
    data: Seq<u8>,
)
    requires
        dat_files(files, prefix, quality, list, data),
    ensures
        files.len() == 3,
        files[0].0@ == prefix + ".new.dat.br"@ && brotli_plain(files[0].1@) == Some(data),
        files[1].0@ == prefix + ".patch.dat"@ && files[1].1@.len() == 0,
        files[2].0@ == prefix + ".transfer.list"@ && files[2].1@ == list,
{
}

/// A symlink that is put back has the last part of its path for its name, and
/// its target. Where nothing is listed for it, it belongs to root and has the
/// label that is listed for its directory.
pub proof fn put_back_links_are_described(
    meta: MetaView,
    mount: Seq<char>,
    dir: Seq<char>,
    name: Seq<char>,
    target: Seq<char>,
)
    requires
        !name.contains('/'),
    ensures
        ({
            let rel = dir + seq!['/'] + name;
            let t = link_at(meta, mount, rel, target);
            let n = meta.contexts.len() as int;
            &&& t.name == encode_utf8(name)
            &&& t.kind == TreeKind::Symlink(encode_utf8(target))
            &&& known_owner(meta, mount, rel) is None ==> t.uid == 0 && t.gid == 0 && t.mode == 0x1FF
            &&& value_for(meta.contexts, device_of(mount, rel), n) is Some ==> t.selinux == value_for(
                meta.contexts,
                device_of(mount, rel),
                n,
            )
            &&& value_for(meta.contexts, device_of(mount, rel), n) is None && known_owner(
                meta,
                mount,
                rel,
            ) is None ==> t.selinux == value_for(meta.contexts, device_of(mount, dir), n)
        }),
{
    texts_are_parted(dir, '/', name);
}

/// The compressor takes qualities up to 11 and windows from 10 to 24.
pub proof fn compression_has_limits(quality: u32, lgwin: u32)
    ensures
        params_fault(quality, lgwin) == if quality >= 12 {
            Some(Error::BadQuality)
        } else if lgwin < 10 || lgwin >= 25 {
            Some(Error::BadWindow)
        } else {
            None::<Error>
        },
{
}

/// One more node is counted with its kind, and its bytes are added.
pub proof fn extracted_nodes_are_counted(v: Seq<VisitView>, x: VisitView)
    ensures
        ({
            let n = v.len() as int;
            let w = v.push(x);
            &&& count_class(w, 0, n + 1) == count_class(v, 0, n) + if x.meta.kind == Kind::Dir {
                1int
            } else {
                0
            }
            &&& count_class(w, 1, n + 1) == count_class(v, 1, n) + if x.meta.kind == Kind::File {
                1int
            } else {
                0
            }
            &&& count_class(w, 2, n + 1) == count_class(v, 2, n) + if x.meta.kind == Kind::Symlink {
                1int
            } else {
                0
            }
            &&& count_class(w, 0, n + 1) + count_class(w, 1, n + 1) + count_class(w, 2, n + 1)
                + count_class(w, 3, n + 1) == n + 1
            &&& sum_bytes(w, n + 1) == sum_bytes(v, n) + x.bytes
        }),
{
    let n = v.len() as int;
    lemma_counts(v, x, n);
    lemma_all_counted(v.push(x), n + 1);
}

proof fn lemma_counts(v: Seq<VisitView>, x: VisitView, n: int)
    requires
        0 <= n <= v.len(),
    ensures
        count_class(v.push(x), 0, n) == count_class(v, 0, n),
        count_class(v.push(x), 1, n) == count_class(v, 1, n),
        count_class(v.push(x), 2, n) == count_class(v, 2, n),
        sum_bytes(v.push(x), n) == sum_bytes(v, n),
    decreases n,
{
    if n > 0 {
        lemma_counts(v, x, n - 1);
        assert(v.push(x)[n - 1] == v[n - 1]);
    }
}

proof fn lemma_all_counted(v: Seq<VisitView>, n: int)
    requires
        0 <= n <= v.len(),
    ensures
        count_class(v, 0, n) + count_class(v, 1, n) + count_class(v, 2, n) + count_class(v, 3, n)
            == n,
    decreases n,
{
    if n > 0 {
        lemma_all_counted(v, n - 1);
    }
}

/// A name for a host that refuses some characters has an underscore in place of
/// each of them, and is the same in all other places.
pub proof fn refused_characters_are_replaced(s: Seq<char>, i: int)
    requires
        0 <= i < s.len(),
    ensures
        tamed(s).len() == s.len(),
        "<>:\"\\|?*"@.contains(s[i]) || (s[i] as int) < 0x20 || 0x7f <= s[i] as int <= 0x9f
            ==> tamed(
            s,
        )[i] == '_',
        !"<>:\"\\|?*"@.contains(s[i]) && (s[i] as int) >= 0x20 && !(0x7f <= s[i] as int <= 0x9f)
            ==> tamed(s)[i] == s[i],
{
    reveal_strlit("<>:\"\\|?*");
    let t = "<>:\"\\|?*"@;
    assert(t.len() == 8);
    assert(t[0] == '<' && t[1] == '>' && t[2] == ':' && t[3] == '"' && t[4] == '\\' && t[5] == '|'
        && t[6] == '?' && t[7] == '*');
}

} // verus!
