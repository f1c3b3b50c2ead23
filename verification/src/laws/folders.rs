//! What an image tree has of the folder that it is made of.
use vstd::prelude::*;
use crate::build::config::{value_for, MetaView};
use crate::build::folder::{config_at, dir_walk, joined, kid_order, kids_walk, label_at, noted,
    HostEntry, HostKind, Met, Tree, TreeKind};
use crate::build::links::{device_for, dir_named, inside, link_at, link_order, names_on,
    put_all_back,
    with_link};
use crate::build::{mount_in, nothing_met, partition_tree};
use crate::extract::device_of;
use crate::fs::mkext4::inode::lost_found_name;
use crate::fs::order::{before, labels, lemma_order, order, picked, place};
use crate::text::text_of;

verus! {

/// How many of the first `n` entries an image can hold: files, directories and
/// symlinks.
pub open spec fn fitting(ch: Seq<HostEntry>, n: int) -> int
    decreases n,
{
    if n <= 0 {
        0
    } else {
        fitting(ch, n - 1) + if ch[n - 1].kind is Other {
            0int
        } else {
            1
        }
    }
}

/// The path of an entry of the directory at `rel`.
pub open spec fn below(rel: Seq<char>, name: Seq<u8>) -> Seq<char> {
    if rel.len() == 0 {
        text_of(name)
    } else {
        rel + seq!['/'] + text_of(name)
    }
}

/// The node has the owner, mode and capabilities that are listed for its path,
/// and the label. Where nothing is listed it has the label of its directory.
pub open spec fn is_described(
    meta: MetaView,
    mount: Seq<char>,
    rel: Seq<char>,
    parent: Option<Seq<char>>,
    t: Tree,
) -> bool {
    let owner = value_for(meta.owners, config_at(mount, rel), meta.owners.len() as int);
    let label = value_for(meta.contexts, device_of(mount, rel), meta.contexts.len() as int);
    &&& owner is Some ==> t.uid == owner->Some_0.uid && t.gid == owner->Some_0.gid && t.mode
        == owner->Some_0.mode && t.capabilities == owner->Some_0.caps
    &&& label is Some ==> t.selinux == label
    &&& label is None && owner is Some ==> t.selinux is None
    &&& label is None && owner is None ==> t.selinux == parent
}

/// The node is the entry: it has its name and content. A directory has every
/// entry that an image can hold, as often as the folder does, and nothing
/// else, in the order of the names.
pub open spec fn is_copy(
    meta: MetaView,
    mount: Seq<char>,
    rel: Seq<char>,
    parent: Option<Seq<char>>,
    e: HostEntry,
    t: Tree,
) -> bool
    decreases e,
{
    &&& t.name == e.name@
    &&& is_described(meta, mount, rel, parent, t)
    &&& match e.kind {
        HostKind::File { data, executable } => t.kind == TreeKind::File(data@),
        HostKind::Symlink(target) => t.kind == TreeKind::Symlink(target@),
        HostKind::Other => false,
        HostKind::Dir(ch) => match t.kind {
            TreeKind::Dir(kids) => {
                &&& kids.len() == fitting(ch@, ch@.len() as int)
                &&& forall|i: int|
                    0 <= i < ch@.len() && !((#[trigger] ch@[i]).kind is Other) ==> exists|j: int|
                        0 <= j < kids.len() && is_copy(
                            meta,
                            mount,
                            below(rel, ch@[i].name@),
                            t.selinux,
                            ch@[i],
                            #[trigger] kids[j],
                        )
                &&& forall|j: int|
                    0 <= j < kids.len() ==> exists|i: int|
                        0 <= i < ch@.len() && is_copy(
                            meta,
                            mount,
                            below(rel, ch@[i].name@),
                            t.selinux,
                            #[trigger] ch@[i],
                            #[trigger] kids[j],
                        )
                &&& forall|j: int, k: int|
                    0 <= j < k < kids.len() ==> !before(
                        (#[trigger] kids[k]).name,
                        (#[trigger] kids[j]).name,
                    )
            },
            _ => false,
        },
    }
}

/// How many of the entries at the first `n` positions an image can hold.
spec fn fitting_at(ch: Seq<HostEntry>, ix: Seq<int>, n: int) -> int
    decreases n,
{
    if n <= 0 {
        0
    } else {
        fitting_at(ch, ix, n - 1) + if ch[ix[n - 1]].kind is Other {
            0int
        } else {
            1
        }
    }
}

proof fn lemma_fitting_insert(ch: Seq<HostEntry>, ix: Seq<int>, at: int, v: int, n: int)
    requires
        0 <= at <= ix.len(),
        0 <= n <= ix.len(),
    ensures
        n <= at ==> fitting_at(ch, ix.insert(at, v), n) == fitting_at(ch, ix, n),
        n >= at ==> fitting_at(ch, ix.insert(at, v), n + 1) == fitting_at(ch, ix, n)
            + fitting_at(ch, seq![v], 1),
    decreases n,
{
    let new = ix.insert(at, v);
    reveal_with_fuel(fitting_at, 2);
    if n > 0 {
        lemma_fitting_insert(ch, ix, at, v, n - 1);
        if n <= at {
            assert(new[n - 1] == ix[n - 1]);
        } else {
            assert(new[n] == ix[n - 1]);
        }
    }
    if n == at {
        assert(new[n] == v);
    }
}

proof fn lemma_fitting_order(ch: Seq<HostEntry>, names: Seq<Seq<u8>>, n: int)
    requires
        0 <= n <= names.len(),
    ensures
        fitting_at(ch, order(names, n), n) == fitting(ch, n),
    decreases n,
{
    if n > 0 {
        lemma_fitting_order(ch, names, n - 1);
        lemma_order(names, n - 1);
        lemma_order(names, n);
        let ix = order(names, n - 1);
        let at = place(picked(names, ix), n - 1, names[n - 1]);
        crate::fs::order::lemma_place(picked(names, ix), n - 1, names[n - 1]);
        lemma_fitting_insert(ch, ix, at, n - 1, n - 1);
        reveal_with_fuel(fitting_at, 2);
        assert(seq![n - 1][0] == n - 1);
    }
}

#[verifier::rlimit(60)]
#[verifier::spinoff_prover]
proof fn lemma_copied_kids(
    meta: MetaView,
    mount: Seq<char>,
    e: HostEntry,
    rel: Seq<char>,
    label: Option<Seq<char>>,
    m: Met,
    k: int,
)
    requires
        e.kind is Dir,
        0 <= k <= kid_order(e).len(),
    ensures
        ({
            let ch = e.kind->Dir_0@;
            let ix = kid_order(e);
            let kids = kids_walk(meta, mount, e, rel, label, m, k).0;
            &&& kids.len() == fitting_at(ch, ix, k)
            &&& forall|q: int|
                0 <= q < k && !(ch[#[trigger] ix[q]].kind is Other) ==> exists|j: int|
                    0 <= j < kids.len() && is_copy(
                        meta,
                        mount,
                        below(rel, ch[ix[q]].name@),
                        label,
                        ch[ix[q]],
                        #[trigger] kids[j],
                    )
            &&& forall|j: int|
                0 <= j < kids.len() ==> exists|q: int|
                    0 <= q < k && is_copy(
                        meta,
                        mount,
                        below(rel, ch[ix[q]].name@),
                        label,
                        ch[#[trigger] ix[q]],
                        #[trigger] kids[j],
                    )
            &&& forall|i: int, j: int|
                0 <= i < j < kids.len() ==> !before(
                    (#[trigger] kids[j]).name,
                    (#[trigger] kids[i]).name,
                )
        }),
    decreases e, k,
{
    let ch = e.kind->Dir_0@;
    let names = labels(ch);
    let ix = kid_order(e);
    lemma_order(names, ch.len() as int);
    if k > 0 {
        lemma_copied_kids(meta, mount, e, rel, label, m, k - 1);
        assert(0 <= ix[k - 1] < ch.len());
        let (had, met) = kids_walk(meta, mount, e, rel, label, m, k - 1);
        let kids = kids_walk(meta, mount, e, rel, label, m, k).0;
        let c = ch[ix[k - 1]];
        let path = joined(rel, text_of(c.name@));
        assert(path =~= below(rel, c.name@));
        if c.kind is Dir {
            folder_is_copied(meta, mount, c, path, label, met);
        }
        if !(c.kind is Other) {
            assert(kids == had.push(kids[had.len() as int]));
            assert(is_copy(meta, mount, below(rel, c.name@), label, c, kids[had.len() as int]));
        }
        assert forall|q: int| 0 <= q < k && !(ch[#[trigger] ix[q]].kind is Other) implies exists|
            j: int,
        |
            0 <= j < kids.len() && is_copy(
                meta,
                mount,
                below(rel, ch[ix[q]].name@),
                label,
                ch[ix[q]],
                #[trigger] kids[j],
            ) by {
            if q < k - 1 {
                let j = choose|j: int|
                    0 <= j < had.len() && is_copy(
                        meta,
                        mount,
                        below(rel, ch[ix[q]].name@),
                        label,
                        ch[ix[q]],
                        #[trigger] had[j],
                    );
                assert(kids[j] == had[j]);
            }
        }
        assert forall|j: int| 0 <= j < kids.len() implies exists|q: int|
            0 <= q < k && is_copy(
                meta,
                mount,
                below(rel, ch[ix[q]].name@),
                label,
                ch[#[trigger] ix[q]],
                #[trigger] kids[j],
            ) by {
            if j < had.len() {
                assert(kids[j] == had[j]);
            }
        }
        assert forall|i: int, j: int| 0 <= i < j < kids.len() implies !before(
            (#[trigger] kids[j]).name,
            (#[trigger] kids[i]).name,
        ) by {
            assert(kids[i] == had[i]);
            if j < had.len() {
                assert(kids[j] == had[j]);
            } else {
                let q = choose|q: int|
                    0 <= q < k - 1 && is_copy(
                        meta,
                        mount,
                        below(rel, ch[ix[q]].name@),
                        label,
                        ch[#[trigger] ix[q]],
                        had[i],
                    );
                let sorted = picked(names, ix);
                assert(sorted[q] == ch[ix[q]].name@);
                assert(sorted[k - 1] == c.name@);
                assert(!before(sorted[k - 1], sorted[q]));
            }
        }
    }
}

/// Nothing that a folder has is left out, and nothing is added: every file,
/// directory and symlink of every directory is in the image under its name and
/// with its content, empty directories too.
#[verifier::rlimit(60)]
pub proof fn folder_is_copied(
    meta: MetaView,
    mount: Seq<char>,
    e: HostEntry,
    rel: Seq<char>,
    parent: Option<Seq<char>>,
    m: Met,
)
    requires
        e.kind is Dir,
    ensures
        is_copy(meta, mount, rel, parent, e, dir_walk(meta, mount, e, rel, parent, m).0),
    decreases e, kid_order(e).len() + 1,
{
    let ch = e.kind->Dir_0@;
    let names = labels(ch);
    let ix = kid_order(e);
    let label = label_at(meta, mount, rel, parent);
    let all = noted(meta, mount, rel, m);
    let t = dir_walk(meta, mount, e, rel, parent, m).0;
    let kids = kids_walk(meta, mount, e, rel, label, all, ix.len() as int).0;
    lemma_order(names, ch.len() as int);
    lemma_fitting_order(ch, names, ch.len() as int);
    lemma_copied_kids(meta, mount, e, rel, label, all, ix.len() as int);
    assert(t.kind == TreeKind::Dir(kids));
    assert(t.selinux == label);
    assert forall|i: int| 0 <= i < ch.len() && !((#[trigger] ch[i]).kind is Other) implies exists|
        j: int,
    |
        0 <= j < kids.len() && is_copy(
            meta,
            mount,
            below(rel, ch[i].name@),
            t.selinux,
            ch[i],
            #[trigger] kids[j],
        ) by {
        assert(ix.contains(i));
        let q = choose|q: int| 0 <= q < ix.len() && ix[q] == i;
        assert(!(ch[ix[q]].kind is Other));
        let j = choose|j: int|
            0 <= j < kids.len() && is_copy(
                meta,
                mount,
                below(rel, ch[ix[q]].name@),
                label,
                ch[ix[q]],
                #[trigger] kids[j],
            );
        assert(is_copy(meta, mount, below(rel, ch[i].name@), t.selinux, ch[i], kids[j]));
    }
    assert forall|j: int| 0 <= j < kids.len() implies exists|i: int|
        0 <= i < ch.len() && is_copy(
            meta,
            mount,
            below(rel, ch[i].name@),
            t.selinux,
            #[trigger] ch[i],
            #[trigger] kids[j],
        ) by {
        let q = choose|q: int|
            0 <= q < ix.len() && is_copy(
                meta,
                mount,
                below(rel, ch[ix[q]].name@),
                label,
                ch[#[trigger] ix[q]],
                kids[j],
            );
        assert(0 <= ix[q] < ch.len());
        assert(is_copy(meta, mount, below(rel, ch[ix[q]].name@), t.selinux, ch[ix[q]], kids[j]));
    }
}

/// The node has the entry: its name, content and metadata. A directory has
/// every entry that an image can hold.
pub open spec fn is_kept(
    meta: MetaView,
    mount: Seq<char>,
    rel: Seq<char>,
    parent: Option<Seq<char>>,
    e: HostEntry,
    t: Tree,
) -> bool
    decreases e,
{
    &&& t.name == e.name@
    &&& is_described(meta, mount, rel, parent, t)
    &&& match e.kind {
        HostKind::File { data, executable } => t.kind == TreeKind::File(data@),
        HostKind::Symlink(target) => t.kind == TreeKind::Symlink(target@),
        HostKind::Other => false,
        HostKind::Dir(ch) => match t.kind {
            TreeKind::Dir(kids) => forall|i: int|
                0 <= i < ch@.len() && !((#[trigger] ch@[i]).kind is Other) ==> exists|j: int|
                    0 <= j < kids.len() && is_kept(
                        meta,
                        mount,
                        below(rel, ch@[i].name@),
                        t.selinux,
                        ch@[i],
                        #[trigger] kids[j],
                    ),
            _ => false,
        },
    }
}

proof fn lemma_copy_is_kept(
    meta: MetaView,
    mount: Seq<char>,
    rel: Seq<char>,
    parent: Option<Seq<char>>,
    e: HostEntry,
    t: Tree,
)
    requires
        is_copy(meta, mount, rel, parent, e, t),
    ensures
        is_kept(meta, mount, rel, parent, e, t),
    decreases e,
{
    if let HostKind::Dir(ch) = e.kind {
        let kids = t.kind->Dir_0;
        assert forall|i: int|
            0 <= i < ch@.len() && !((#[trigger] ch@[i]).kind is Other) implies exists|j: int|
            0 <= j < kids.len() && is_kept(
                meta,
                mount,
                below(rel, ch@[i].name@),
                t.selinux,
                ch@[i],
                #[trigger] kids[j],
            ) by {
            let path = below(rel, ch@[i].name@);
            let j = choose|j: int|
                0 <= j < kids.len() && is_copy(
                    meta,
                    mount,
                    path,
                    t.selinux,
                    ch@[i],
                    #[trigger] kids[j],
                );
            lemma_copy_is_kept(meta, mount, path, t.selinux, ch@[i], kids[j]);
        }
    }
}

proof fn lemma_dir_named_range(ch: Seq<Tree>, name: Seq<u8>, i: int)
    requires
        0 <= i <= ch.len(),
    ensures
        i <= dir_named(ch, name, i) <= ch.len(),
    decreases ch.len() - i,
{
    if i < ch.len() {
        lemma_dir_named_range(ch, name, i + 1);
    }
}

proof fn lemma_link_keeps(
    meta: MetaView,
    mount: Seq<char>,
    rel: Seq<char>,
    parent: Option<Seq<char>>,
    e: HostEntry,
    t: Tree,
    names: Seq<Seq<u8>>,
    k: int,
    link: Tree,
)
    requires
        is_kept(meta, mount, rel, parent, e, t),
        with_link(t, names, k, link) is Some,
    ensures
        is_kept(meta, mount, rel, parent, e, with_link(t, names, k, link)->Some_0),
    decreases e,
{
    let new = with_link(t, names, k, link)->Some_0;
    if let HostKind::Dir(ch) = e.kind {
        let kids = t.kind->Dir_0;
        let after = new.kind->Dir_0;
        lemma_dir_named_range(kids, names[k], 0);
        assert forall|i: int|
            0 <= i < ch@.len() && !((#[trigger] ch@[i]).kind is Other) implies exists|j: int|
            0 <= j < after.len() && is_kept(
                meta,
                mount,
                below(rel, ch@[i].name@),
                new.selinux,
                ch@[i],
                #[trigger] after[j],
            ) by {
            let path = below(rel, ch@[i].name@);
            let j = choose|j: int|
                0 <= j < kids.len() && is_kept(
                    meta,
                    mount,
                    path,
                    t.selinux,
                    ch@[i],
                    #[trigger] kids[j],
                );
            if k >= names.len() - 1 {
                assert(after[j] == kids[j]);
            } else if j == dir_named(kids, names[k], 0) {
                lemma_link_keeps(
                    meta,
                    mount,
                    path,
                    t.selinux,
                    ch@[i],
                    kids[j],
                    names,
                    k + 1,
                    link,
                );
                assert(after[j] == with_link(kids[j], names, k + 1, link)->Some_0);
            } else {
                assert(after[j] == kids[j]);
            }
        }
    }
}

proof fn lemma_links_keep(
    meta: MetaView,
    mount: Seq<char>,
    e: HostEntry,
    t: Tree,
    m: Met,
    n: int,
)
    requires
        is_kept(meta, mount, Seq::empty(), None, e, t),
    ensures
        is_kept(meta, mount, Seq::empty(), None, e, put_all_back(meta, mount, t, m, n).0),
    decreases n,
{
    if n > 0 {
        lemma_links_keep(meta, mount, e, t, m, n - 1);
        let (had, met) = put_all_back(meta, mount, t, m, n - 1);
        let link = meta.symlinks[link_order(meta.symlinks)[n - 1]];
        if let Some(rel) = inside(mount, device_for(link.0)) {
            let names = names_on(rel);
            let new = link_at(meta, mount, rel, link.1);
            if with_link(had, names, 0, new) is Some {
                lemma_link_keeps(meta, mount, Seq::empty(), None, e, had, names, 0, new);
            }
        }
    }
}

/// The image of a partition has everything that its folder has; symlinks that
/// are put back and lost+found take nothing away. There is a lost+found.
pub proof fn image_has_the_folder(meta: MetaView, part: Seq<char>, folder: HostEntry)
    requires
        folder.kind is Dir,
    ensures
        ({
            let (t, _) = partition_tree(meta, part, folder);
            &&& is_kept(meta, mount_in(meta.info, part), Seq::empty(), None, folder, t)
            &&& exists|j: int|
                0 <= j < t.kind->Dir_0.len() && (#[trigger] t.kind->Dir_0[j]).name == seq![
                    0x6cu8,
                    0x6f,
                    0x73,
                    0x74,
                    0x2b,
                    0x66,
                    0x6f,
                    0x75,
                    0x6e,
                    0x64,
                ]
        }),
{
    let mount = mount_in(meta.info, part);
    let rel = Seq::<char>::empty();
    let (t0, m0) = dir_walk(meta, mount, folder, rel, None, nothing_met());
    folder_is_copied(meta, mount, folder, rel, None, nothing_met());
    lemma_copy_is_kept(meta, mount, rel, None, folder, t0);
    let n = link_order(meta.symlinks).len() as int;
    lemma_links_keep(meta, mount, folder, t0, m0, n);
    let (t1, m1) = put_all_back(meta, mount, t0, m0, n);
    let (t, _) = partition_tree(meta, part, folder);
    let ch = folder.kind->Dir_0;
    let kids = t1.kind->Dir_0;
    let after = t.kind->Dir_0;
    assert forall|i: int| 0 <= i < ch@.len() && !((#[trigger] ch@[i]).kind is Other) implies exists|
        j: int,
    |
        0 <= j < after.len() && is_kept(
            meta,
            mount,
            below(rel, ch@[i].name@),
            t.selinux,
            ch@[i],
            #[trigger] after[j],
        ) by {
        let j = choose|j: int|
            0 <= j < kids.len() && is_kept(
                meta,
                mount,
                below(rel, ch@[i].name@),
                t1.selinux,
                ch@[i],
                #[trigger] kids[j],
            );
        assert(after[j] == kids[j]);
    }
    let name = seq![0x6cu8, 0x6f, 0x73, 0x74, 0x2b, 0x66, 0x6f, 0x75, 0x6e, 0x64];
    assert(lost_found_name() =~= name);
    if after.len() > kids.len() {
        assert(after[kids.len() as int].name == name);
    }
}

/// How many files, directories and symlinks are in a node, itself counted.
pub open spec fn tally(t: Tree) -> (int, int, int)
    decreases t, 0int,
{
    match t.kind {
        TreeKind::File(_) => (1, 0, 0),
        TreeKind::Symlink(_) => (0, 0, 1),
        TreeKind::Dir(kids) => {
            let (f, d, l) = tally_of(kids, kids.len() as int);
            (f, d + 1, l)
        },
    }
}

/// How many files, directories and symlinks are in the first `n` nodes.
pub open spec fn tally_of(kids: Seq<Tree>, n: int) -> (int, int, int)
    decreases kids, n,
{
    if 0 < n <= kids.len() {
        let (f, d, l) = tally_of(kids, n - 1);
        let (x, y, z) = tally(kids[n - 1]);
        (f + x, d + y, l + z)
    } else {
        (0, 0, 0)
    }
}

proof fn lemma_tally_push(kids: Seq<Tree>, t: Tree, n: int)
    requires
        0 <= n <= kids.len(),
    ensures
        tally_of(kids.push(t), n) == tally_of(kids, n),
    decreases n,
{
    if n > 0 {
        lemma_tally_push(kids, t, n - 1);
        assert(kids.push(t)[n - 1] == kids[n - 1]);
    }
}

proof fn lemma_counted_kids(
    meta: MetaView,
    mount: Seq<char>,
    e: HostEntry,
    rel: Seq<char>,
    label: Option<Seq<char>>,
    m: Met,
    k: int,
)
    requires
        0 <= k <= kid_order(e).len(),
    ensures
        ({
            let (kids, n) = kids_walk(meta, mount, e, rel, label, m, k);
            let (f, d, l) = tally_of(kids, kids.len() as int);
            n.files == m.files + f && n.dirs == m.dirs + d && n.links == m.links + l && n.seen.len()
                == m.seen.len() + f + d + l
        }),
    decreases e, k,
{
    if let HostKind::Dir(ch) = e.kind {
        lemma_order(labels(ch@), ch@.len() as int);
        if k > 0 {
            lemma_counted_kids(meta, mount, e, rel, label, m, k - 1);
            let (had, met) = kids_walk(meta, mount, e, rel, label, m, k - 1);
            let (kids, _) = kids_walk(meta, mount, e, rel, label, m, k);
            assert(0 <= kid_order(e)[k - 1] < ch@.len());
            let c = ch@[kid_order(e)[k - 1]];
            if c.kind is Dir {
                entries_are_counted(meta, mount, c, joined(rel, text_of(c.name@)), label, met);
            }
            if !(c.kind is Other) {
                let t = kids[had.len() as int];
                assert(kids == had.push(t));
                lemma_tally_push(had, t, had.len() as int);
                assert(tally_of(kids, kids.len() as int) == ({
                    let (f, d, l) = tally_of(kids, had.len() as int);
                    let (x, y, z) = tally(t);
                    (f + x, d + y, l + z)
                }));
                assert(c.kind is File ==> tally(t) == (1int, 0int, 0int));
                assert(c.kind is Symlink ==> tally(t) == (0int, 0int, 1int));
            } else {
                assert(kids == had);
            }
        }
    }
}

/// The numbers of files, directories and symlinks that are reported are those
/// in the tree, and each of them was seen once.
pub proof fn entries_are_counted(
    meta: MetaView,
    mount: Seq<char>,
    e: HostEntry,
    rel: Seq<char>,
    parent: Option<Seq<char>>,
    m: Met,
)
    ensures
        ({
            let (t, n) = dir_walk(meta, mount, e, rel, parent, m);
            let (f, d, l) = tally(t);
            n.files == m.files + f && n.dirs == m.dirs + d && n.links == m.links + l && n.seen.len()
                == m.seen.len() + f + d + l
        }),
    decreases e, kid_order(e).len() + 1,
{
    let all = noted(meta, mount, rel, m);
    lemma_counted_kids(
        meta,
        mount,
        e,
        rel,
        label_at(meta, mount, rel, parent),
        all,
        kid_order(e).len() as int,
    );
}

} // verus!
