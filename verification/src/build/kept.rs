//! What a partition keeps when it is extracted and built again.
use vstd::prelude::*;
use crate::build::config::{meta_in, value_for, MetaView};
use crate::build::folder::{dir_walk, file_at, joined, kid_order, kids_walk, known_owner, label_at,
    node_at, noted, HostEntry, Met, Sort, Tree, TreeKind};
use crate::build::links::{device_for as device_in, dir_named, inside, link_at, link_order, names_on,
    put_all_back, with_link};
use crate::build::round_trip::{config_for, device_for, file_contexts_round_trip,
    fs_config_round_trip, labelable, labels_of, linkable, owners_of, recordable};
use crate::extract::{contexts_text, fs_config_text, path_text, symlinks_text, VisitView};
use crate::text::text_of;

verus! {

pub(crate) proof fn lemma_only_value<T>(v: Seq<(Seq<char>, T)>, key: Seq<char>, i: int, n: int)
    requires
        0 <= i < n <= v.len(),
        v[i].0 == key,
        forall|j: int| i < j < n ==> (#[trigger] v[j]).0 != key,
    ensures
        value_for(v, key, n) == Some(v[i].1),
    decreases n - i,
{
    if i < n - 1 {
        assert(v[n - 1].0 != key);
        lemma_only_value(v, key, i, n - 1);
    }
}

/// The label that file_contexts has for a node.
proof fn lemma_label(mount: Seq<char>, v: Seq<VisitView>, i: int, n: int)
    requires
        0 <= n <= v.len(),
        0 <= i < v.len(),
        forall|a: int, b: int|
            0 <= a < b < v.len() ==> config_for(mount, #[trigger] v[a]) != config_for(
                mount,
                #[trigger] v[b],
            ),
    ensures
        value_for(
            labels_of(mount, v, n),
            device_for(mount, v[i]),
            labels_of(mount, v, n).len() as int,
        ) == (if i < n {
            v[i].meta.selinux
        } else {
            None
        }),
    decreases n,
{
    if n > 0 {
        lemma_label(mount, v, i, n - 1);
        let before = labels_of(mount, v, n - 1);
        let all = labels_of(mount, v, n);
        if i < n - 1 {
            assert(config_for(mount, v[i]) != config_for(mount, v[n - 1]));
        } else if i > n - 1 {
            assert(config_for(mount, v[n - 1]) != config_for(mount, v[i]));
        }
        if v[n - 1].meta.selinux is Some {
            lemma_same_value(before, all, device_for(mount, v[i]), before.len() as int);
        }
    }
}

proof fn lemma_same_value<T>(a: Seq<(Seq<char>, T)>, b: Seq<(Seq<char>, T)>, key: Seq<char>, n: int)
    requires
        n <= a.len(),
        n <= b.len(),
        forall|i: int| 0 <= i < n ==> a[i] == b[i],
    ensures
        value_for(a, key, n) == value_for(b, key, n),
    decreases n,
{
    if n > 0 {
        lemma_same_value(a, b, key, n - 1);
    }
}

/// Nodes that the metadata files can hold, with different paths.
pub open spec fn all_recorded(mount: Seq<char>, v: Seq<VisitView>) -> bool {
    &&& forall|i: int| 0 <= i < v.len() ==> recordable(mount, #[trigger] v[i])
    &&& forall|i: int| 0 <= i < v.len() ==> labelable(mount, #[trigger] v[i])
    &&& forall|i: int| 0 <= i < v.len() ==> linkable(mount, #[trigger] v[i])
    &&& forall|a: int, b: int|
        0 <= a < b < v.len() ==> config_for(mount, #[trigger] v[a]) != config_for(
            mount,
            #[trigger] v[b],
        )
}

/// Owners, modes, SELinux labels and capabilities are kept: a node that was
/// extracted gets them back from the metadata files when it is built, whatever
/// its directory is labeled.
pub proof fn metadata_is_kept(
    mount: Seq<char>,
    v: Seq<VisitView>,
    i: int,
    info: Seq<char>,
    name: Seq<u8>,
    kind: TreeKind,
    sort: Sort,
    parent: Option<Seq<char>>,
)
    requires
        all_recorded(mount, v),
        0 <= i < v.len(),
    ensures
        ({
            let n = v.len() as int;
            let meta = meta_in(
                fs_config_text(mount, v, n),
                contexts_text(mount, v, n),
                symlinks_text(mount, v, n),
                info,
            );
            let t = node_at(meta->Some_0, mount, name, path_text(v[i].rel), kind, sort, parent);
            &&& meta is Some
            &&& known_owner(meta->Some_0, mount, path_text(v[i].rel)) is Some
            &&& t.uid == v[i].meta.uid
            &&& t.gid == v[i].meta.gid
            &&& t.mode == v[i].meta.mode
            &&& t.capabilities == v[i].meta.capabilities
            &&& t.selinux == v[i].meta.selinux
        }),
{
    let n = v.len() as int;
    fs_config_round_trip(mount, v);
    file_contexts_round_trip(mount, v);
    let owners = owners_of(mount, v, n);
    assert forall|j: int| i < j < n implies (#[trigger] owners[j]).0 != config_for(mount, v[i]) by {
        assert(config_for(mount, v[i]) != config_for(mount, v[j]));
    }
    lemma_only_value(owners, config_for(mount, v[i]), i, n);
    lemma_label(mount, v, i, n);
    assert(recordable(mount, v[i]));
}

/// Files that were added get default owners and modes (`0 2000 0755` in a bin
/// directory, else `0 0 0644`, or 0755 where they are executable on disk), and
/// the label of their directory.
pub proof fn added_files_get_defaults(
    meta: MetaView,
    mount: Seq<char>,
    name: Seq<u8>,
    rel: Seq<char>,
    data: Seq<u8>,
    executable: bool,
    parent: Option<Seq<char>>,
)
    requires
        known_owner(meta, mount, rel) is None,
        value_for(
            meta.contexts,
            crate::extract::device_of(mount, rel),
            meta.contexts.len() as int,
        ) is None,
    ensures
        ({
            let t = file_at(meta, mount, name, rel, data, executable, parent);
            let bin = crate::build::folder::is_in_bin(rel);
            &&& t.uid == 0
            &&& t.gid == (if bin {
                2000u32
            } else {
                0
            })
            &&& t.mode == (if bin || executable {
                0o755u32
            } else {
                0o644
            })
            &&& t.capabilities is None
            &&& t.selinux == parent
            &&& t.kind == TreeKind::File(data)
        }),
{
}

proof fn lemma_dir(
    meta: MetaView,
    mount: Seq<char>,
    e: HostEntry,
    rel: Seq<char>,
    parent: Option<Seq<char>>,
    m: Met,
)
    ensures
        dir_walk(meta, mount, e, rel, parent, m).0.name == e.name@,
        dir_walk(meta, mount, e, rel, parent, m).0.kind == TreeKind::Dir(
            kids_walk(
                meta,
                mount,
                e,
                rel,
                label_at(meta, mount, rel, parent),
                noted(meta, mount, rel, m),
                kid_order(e).len() as int,
            ).0,
        ),
{
}

proof fn lemma_kids(
    meta: MetaView,
    mount: Seq<char>,
    e: HostEntry,
    rel: Seq<char>,
    label: Option<Seq<char>>,
    m: Met,
    k: int,
)
    requires
        e.kind is Dir,
        0 <= k,
    ensures
        ({
            let (kids, _) = kids_walk(meta, mount, e, rel, label, m, k);
            forall|j: int|
                0 <= j < kids.len() ==> exists|i: int|
                    0 <= i < e.kind->Dir_0@.len() && (#[trigger] e.kind->Dir_0@[i]).name@
                        == (#[trigger] kids[j]).name
        }),
    decreases k,
{
    let ch = e.kind->Dir_0@;
    let (kids, _) = kids_walk(meta, mount, e, rel, label, m, k);
    if 0 < k <= kid_order(e).len() && 0 <= kid_order(e)[k - 1] < ch.len() {
        lemma_kids(meta, mount, e, rel, label, m, k - 1);
        let (before, met) = kids_walk(meta, mount, e, rel, label, m, k - 1);
        let c = kid_order(e)[k - 1];
        let path = joined(rel, text_of(ch[c].name@));
        lemma_dir(meta, mount, ch[c], path, label, met);
        assert forall|j: int| 0 <= j < kids.len() implies exists|i: int|
            0 <= i < ch.len() && (#[trigger] ch[i]).name@ == (#[trigger] kids[j]).name by {
            if j < before.len() {
                assert(kids[j] == before[j]);
            } else {
                assert(ch[c].name@ == kids[j].name);
            }
        }
    }
}

/// Files that were deleted are left out: every entry of a directory of the
/// image is an entry of that directory of the folder. Symlinks that are put
/// back and lost+found come on top.
pub proof fn deleted_files_are_left_out(
    meta: MetaView,
    mount: Seq<char>,
    e: HostEntry,
    rel: Seq<char>,
    parent: Option<Seq<char>>,
    m: Met,
)
    requires
        e.kind is Dir,
    ensures
        ({
            let (t, _) = dir_walk(meta, mount, e, rel, parent, m);
            &&& t.kind is Dir
            &&& forall|j: int|
                0 <= j < t.kind->Dir_0.len() ==> exists|i: int|
                    0 <= i < e.kind->Dir_0@.len() && (#[trigger] e.kind->Dir_0@[i]).name@
                        == (#[trigger] t.kind->Dir_0[j]).name
        }),
{
    lemma_dir(meta, mount, e, rel, parent, m);
    lemma_kids(
        meta,
        mount,
        e,
        rel,
        label_at(meta, mount, rel, parent),
        noted(meta, mount, rel, m),
        kid_order(e).len() as int,
    );
}

/// The directory that the path `names` leads to, from its name `k` on, has
/// this entry.
pub open spec fn holds_at(t: Tree, names: Seq<Seq<u8>>, k: int, x: Tree) -> bool
    decreases names.len() - k,
{
    match t.kind {
        TreeKind::Dir(ch) => if k >= names.len() - 1 {
            ch.contains(x)
        } else {
            let i = dir_named(ch, names[k], 0);
            i < ch.len() && holds_at(ch[i], names, k + 1, x)
        },
        _ => false,
    }
}

proof fn lemma_dir_named(a: Seq<Tree>, b: Seq<Tree>, name: Seq<u8>, i: int)
    requires
        0 <= i <= a.len() <= b.len(),
        forall|j: int|
            0 <= j < a.len() ==> (#[trigger] a[j]).name == (#[trigger] b[j]).name && (a[j].kind is Dir)
                == (b[j].kind is Dir),
    ensures
        i <= dir_named(a, name, i) <= a.len(),
        dir_named(a, name, i) < a.len() ==> dir_named(b, name, i) == dir_named(a, name, i),
    decreases a.len() - i,
{
    if i < a.len() {
        assert(a[i].name == b[i].name);
        if !(a[i].name == name && a[i].kind is Dir) {
            lemma_dir_named(a, b, name, i + 1);
        }
    }
}

/// Putting a symlink into a tree keeps the other entries, but for the
/// directories that it goes into.
proof fn lemma_link_keeps(
    t: Tree,
    names: Seq<Seq<u8>>,
    k: int,
    link: Tree,
    others: Seq<Seq<u8>>,
    x: Tree,
)
    requires
        with_link(t, names, k, link) is Some,
        holds_at(t, others, k, x),
        x.kind !is Dir,
    ensures
        holds_at(with_link(t, names, k, link)->Some_0, others, k, x),
    decreases names.len() - k,
{
    let ch = t.kind->Dir_0;
    let t2 = with_link(t, names, k, link)->Some_0;
    let ch2 = t2.kind->Dir_0;
    if k >= names.len() - 1 {
        if exists|i: int| 0 <= i < ch.len() && (#[trigger] ch[i]).name == link.name {
        } else {
            assert(ch2 == ch.push(link));
            if k >= others.len() - 1 {
                let p = choose|p: int| 0 <= p < ch.len() && ch[p] == x;
                assert(ch2[p] == x);
            } else {
                lemma_dir_named(ch, ch2, others[k], 0);
            }
        }
    } else {
        let i = dir_named(ch, names[k], 0);
        lemma_found_dir(ch, names[k], 0);
        let c = with_link(ch[i], names, k + 1, link)->Some_0;
        assert(ch2 == ch.update(i, c));
        assert(ch[i].kind is Dir);
        assert(c.name == ch[i].name && c.kind is Dir);
        if k >= others.len() - 1 {
            let p = choose|p: int| 0 <= p < ch.len() && ch[p] == x;
            assert(p != i);
            assert(ch2[p] == x);
        } else {
            lemma_dir_named(ch, ch2, others[k], 0);
            let j = dir_named(ch, others[k], 0);
            if j == i {
                lemma_link_keeps(ch[i], names, k + 1, link, others, x);
            }
        }
    }
}

proof fn lemma_found_dir(ch: Seq<Tree>, name: Seq<u8>, i: int)
    requires
        0 <= i <= ch.len(),
    ensures
        ({
            let d = dir_named(ch, name, i);
            i <= d <= ch.len() && (d < ch.len() ==> ch[d].name == name && ch[d].kind is Dir)
        }),
    decreases ch.len() - i,
{
    if i < ch.len() && !(ch[i].name == name && ch[i].kind is Dir) {
        lemma_found_dir(ch, name, i + 1);
    }
}

/// A symlink that is put into a tree is there, or something else sits at its
/// path.
proof fn lemma_link_is_there(t: Tree, names: Seq<Seq<u8>>, k: int, link: Tree)
    requires
        with_link(t, names, k, link) is Some,
    ensures
        exists|x: Tree|
            x.name == link.name && #[trigger] holds_at(
                with_link(t, names, k, link)->Some_0,
                names,
                k,
                x,
            ) && (x == link || holds_at(t, names, k, x)),
    decreases names.len() - k,
{
    let ch = t.kind->Dir_0;
    let t2 = with_link(t, names, k, link)->Some_0;
    let ch2 = t2.kind->Dir_0;
    if k >= names.len() - 1 {
        if exists|i: int| 0 <= i < ch.len() && (#[trigger] ch[i]).name == link.name {
            let i = choose|i: int| 0 <= i < ch.len() && (#[trigger] ch[i]).name == link.name;
            assert(ch.contains(ch[i]));
            assert(holds_at(t2, names, k, ch[i]));
        } else {
            assert(ch2 == ch.push(link));
            assert(ch2[ch.len() as int] == link);
            assert(holds_at(t2, names, k, link));
        }
    } else {
        let i = dir_named(ch, names[k], 0);
        lemma_found_dir(ch, names[k], 0);
        let c = with_link(ch[i], names, k + 1, link)->Some_0;
        assert(ch2 == ch.update(i, c));
        assert(c.name == ch[i].name && c.kind is Dir);
        lemma_dir_named(ch, ch2, names[k], 0);
        lemma_link_is_there(ch[i], names, k + 1, link);
        let x = choose|x: Tree|
            x.name == link.name && #[trigger] holds_at(c, names, k + 1, x) && (x == link || holds_at(
                ch[i],
                names,
                k + 1,
                x,
            ));
        assert(holds_at(t2, names, k, x));
    }
}

/// What became of a symlink of `_symlinks` in a tree: it is there, or the
/// folder has its path, or it is outside of the partition, or its directory is
/// gone, or something else sits at its path.
pub open spec fn settled(
    meta: MetaView,
    mount: Seq<char>,
    link: (Seq<char>, Seq<char>),
    root: Tree,
    before: (Tree, Met),
) -> bool {
    match inside(mount, device_in(link.0)) {
        None => true,
        Some(rel) => {
            let l = link_at(meta, mount, rel, link.1);
            ||| before.1.seen.contains(link.0)
            ||| with_link(before.0, names_on(rel), 0, l) is None
            ||| exists|x: Tree|
                x.name == l.name && x != l && #[trigger] holds_at(before.0, names_on(rel), 0, x)
            ||| holds_at(root, names_on(rel), 0, l)
        },
    }
}

/// A symlink that `_symlinks` lists stays in the image, even where the folder
/// cannot hold symlinks: it is there once all are put back, unless the folder
/// has its path, it is outside of the partition, its directory is gone, or
/// something else sits at its path.
pub proof fn listed_symlinks_stay(meta: MetaView, mount: Seq<char>, root: Tree, m: Met, j: int, n: int)
    requires
        0 <= j < n <= link_order(meta.symlinks).len(),
    ensures
        settled(
            meta,
            mount,
            meta.symlinks[link_order(meta.symlinks)[j]],
            put_all_back(meta, mount, root, m, n).0,
            put_all_back(meta, mount, root, m, j),
        ),
    decreases n,
{
    let link = meta.symlinks[link_order(meta.symlinks)[j]];
    let before = put_all_back(meta, mount, root, m, j);
    let last = put_all_back(meta, mount, root, m, n - 1);
    let end = put_all_back(meta, mount, root, m, n);
    if let Some(rel) = inside(mount, device_in(link.0)) {
        let names = names_on(rel);
        let l = link_at(meta, mount, rel, link.1);
        if j == n - 1 {
            if !before.1.seen.contains(link.0) && with_link(before.0, names, 0, l) is Some {
                lemma_link_is_there(before.0, names, 0, l);
                assert(end.0 == with_link(before.0, names, 0, l)->Some_0);
            }
        } else {
            listed_symlinks_stay(meta, mount, root, m, j, n - 1);
            if holds_at(last.0, names, 0, l) {
                let other = meta.symlinks[link_order(meta.symlinks)[n - 1]];
                if let Some(rel2) = inside(mount, device_in(other.0)) {
                    let l2 = link_at(meta, mount, rel2, other.1);
                    if with_link(last.0, names_on(rel2), 0, l2) is Some {
                        lemma_link_keeps(last.0, names_on(rel2), 0, l2, names, l);
                    }
                }
            }
        }
    }
}

} // verus!
