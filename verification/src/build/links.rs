//! What an image holds beside its folder: symlinks that the folder could not
//! hold, and lost+found.
use vstd::prelude::*;
use vstd::string::StringExecFns;
use vstd::utf8::encode_utf8;
use crate::build::config::{chars_view, find_value, owners_view, pairs_view, value_for, Meta,
    MetaView, Owner};
use crate::build::folder::{make_node, node_at, noted, tree_of, trees_of, Described, lemma_dir_tree,
    Met, Sort, Tree, TreeKind, Walker};
use crate::bytes::{push_bytes, same_bytes};
use crate::extract::{device_of, device_path, strings_view};
use crate::fs::mkext4::inode::lost_found_name;
use crate::fs::mkext4::{Node, NodeKind};
use crate::fs::order::{labels, latest, latest_by_name, positions_view, Named};
use crate::text::{chars_of, string_of};
use crate::words::{after_last, before_last, has_prefix, has_suffix, part, parts_at,
    position, same_chars, split_last, starts, ends, texts_view, trim_front, without_front};

verus! {

/// The names on a path, as bytes.
pub open spec fn names_on(rel: Seq<char>) -> Seq<Seq<u8>> {
    let parts = parts_at(rel, '/', 0);
    Seq::new(parts.len(), |i: int| encode_utf8(parts[i]))
}

pub open spec fn byte_strings(v: Seq<Vec<u8>>) -> Seq<Seq<u8>> {
    Seq::new(v.len(), |i: int| v[i]@)
}

/// The bytes of some characters.
pub fn utf8_of(chars: &[char]) -> (r: Vec<u8>)
    ensures
        r@ == encode_utf8(chars@),
{
    let s: String = string_of(chars);
    let mut v: Vec<u8> = Vec::new();
    push_bytes(&mut v, s.as_str().as_bytes());
    assert(v@ =~= encode_utf8(chars@));
    v
}

fn path_names(rel: &[char]) -> (r: Vec<Vec<u8>>)
    ensures
        byte_strings(r@) == names_on(rel@),
        r@.len() > 0,
{
    let n: usize = rel.len();
    let ghost all = parts_at(rel@, '/', 0);
    let mut out: Vec<Vec<u8>> = Vec::new();
    let ghost mut done: Seq<Seq<char>> = Seq::empty();
    let mut at: usize = 0;
    assert(done + parts_at(rel@, '/', 0) =~= all);
    loop
        invariant
            n == rel@.len(),
            at <= n,
            all == parts_at(rel@, '/', 0),
            done + parts_at(rel@, '/', at as int) == all,
            out@.len() == done.len(),
            forall|i: int| 0 <= i < done.len() ==> (#[trigger] out@[i])@ == encode_utf8(done[i]),
        decreases n - at,
    {
        let e: usize = position(rel, '/', at);
        let p: Vec<char> = part(rel, at, e);
        out.push(utf8_of(&p));
        let ghost was = done;
        proof {
            done = done.push(p@);
        }
        if e >= n {
            assert(p@ =~= rel@.skip(at as int));
            assert(was + seq![p@] =~= done);
            assert(byte_strings(out@) =~= names_on(rel@));
            return out;
        }
        assert(was + (seq![p@] + parts_at(rel@, '/', e + 1)) =~= done + parts_at(rel@, '/', e + 1));
        at = e + 1;
    }
}

/// The first directory from `i` on with a name.
pub open spec fn dir_named(ch: Seq<Tree>, name: Seq<u8>, i: int) -> int
    decreases ch.len() - i,
{
    if i >= ch.len() || (ch[i].name == name && ch[i].kind is Dir) {
        i
    } else {
        dir_named(ch, name, i + 1)
    }
}

/// A tree with a symlink at the path `names`, of which the first `k` lead to
/// `t`; the symlink is left out where its path is taken. Nothing where its
/// directory does not exist.
pub open spec fn with_link(t: Tree, names: Seq<Seq<u8>>, k: int, link: Tree) -> Option<Tree>
    decreases names.len() - k,
{
    match t.kind {
        TreeKind::Dir(ch) => if k >= names.len() - 1 {
            if exists|i: int| 0 <= i < ch.len() && (#[trigger] ch[i]).name == link.name {
                Some(t)
            } else {
                Some(Tree { kind: TreeKind::Dir(ch.push(link)), ..t })
            }
        } else {
            let i = dir_named(ch, names[k], 0);
            if i >= ch.len() {
                None
            } else {
                match with_link(ch[i], names, k + 1, link) {
                    None => None,
                    Some(c) => Some(Tree { kind: TreeKind::Dir(ch.update(i, c)), ..t }),
                }
            }
        },
        _ => None,
    }
}

fn is_dir(n: &Node) -> (r: bool)
    ensures
        r == (n.kind is Dir),
        r == (tree_of(*n).kind is Dir),
{
    match &n.kind {
        NodeKind::Dir(_) => true,
        _ => false,
    }
}

fn find_dir(ch: &Vec<Node>, name: &Vec<u8>) -> (r: usize)
    ensures
        r == dir_named(trees_of(ch@), name@, 0),
        r <= ch@.len(),
{
    let ghost all = trees_of(ch@);
    let mut i: usize = 0;
    while i < ch.len()
        invariant
            i <= ch@.len(),
            all == trees_of(ch@),
            dir_named(all, name@, i as int) == dir_named(all, name@, 0),
        decreases ch.len() - i,
    {
        assert(all[i as int] == tree_of(ch@[i as int]));
        if same_bytes(&ch[i].name, name) && is_dir(&ch[i]) {
            return i;
        }
        i += 1;
    }
    i
}

fn is_taken(ch: &Vec<Node>, name: &Vec<u8>) -> (r: bool)
    ensures
        r == exists|i: int| 0 <= i < trees_of(ch@).len() && (#[trigger] trees_of(ch@)[i]).name == name@,
{
    let ghost all = trees_of(ch@);
    let mut i: usize = 0;
    while i < ch.len()
        invariant
            i <= ch@.len(),
            all == trees_of(ch@),
            forall|k: int| 0 <= k < i ==> (#[trigger] all[k]).name != name@,
        decreases ch.len() - i,
    {
        assert(all[i as int] == tree_of(ch@[i as int]));
        if same_bytes(&ch[i].name, name) {
            assert(trees_of(ch@)[i as int].name == name@);
            return true;
        }
        i += 1;
    }
    false
}

/// Inserts a symlink into the tree unless its path is already taken. Returns
/// false when its directory doesn't exist.
pub fn insert_symlink(dir: &mut Node, names: &Vec<Vec<u8>>, k: usize, node: Node) -> (r: bool)
    requires
        k < names@.len(),
    ensures
        final(dir).kind is Dir == old(dir).kind is Dir,
        match with_link(tree_of(*old(dir)), byte_strings(names@), k as int, tree_of(node)) {
            Some(t) => r && tree_of(*final(dir)) == t,
            None => !r && tree_of(*final(dir)) == tree_of(*old(dir)),
        },
    decreases names.len() - k,
{
    let ghost before = *dir;
    let ghost ns = byte_strings(names@);
    match &mut dir.kind {
        NodeKind::Dir(ch) => {
            let ghost was = ch@;
            proof {
                lemma_dir_tree(before);
            }
            if k + 1 >= names.len() {
                if !is_taken(ch, &node.name) {
                    ch.push(node);
                    proof {
                        assert(trees_of(ch@) =~= trees_of(was).push(tree_of(node)));
                    }
                }
                proof {
                    lemma_dir_tree(*dir);
                }
                return true;
            }
            let i: usize = find_dir(ch, &names[k]);
            if i >= ch.len() {
                return false;
            }
            let done: bool = insert_symlink(&mut ch[i], names, k + 1, node);
            proof {
                assert(trees_of(ch@) =~= trees_of(was).update(i as int, tree_of(ch@[i as int])));
                if !done {
                    assert(trees_of(ch@) =~= trees_of(was));
                }
                lemma_dir_tree(*dir);
            }
            done
        },
        _ => false,
    }
}

/// A path of fs_config as a device path.
pub open spec fn device_for(cfg: Seq<char>) -> Seq<char> {
    if cfg == seq!['/'] {
        cfg
    } else {
        seq!['/'] + cfg
    }
}

/// The path in an image that is mounted at `mount`; nothing for a path
/// outside.
pub open spec fn inside(mount: Seq<char>, device: Seq<char>) -> Option<Seq<char>> {
    if mount == seq!['/'] {
        Some(without_front(device, '/'))
    } else if has_prefix(device, mount) && has_prefix(
        device.skip(mount.len() as int),
        seq!['/'],
    ) {
        Some(device.skip(mount.len() as int + 1))
    } else {
        None
    }
}

/// The symlinks in the order of their paths; of those with the same path the
/// last one.
pub open spec fn link_order(links: Seq<(Seq<char>, Seq<char>)>) -> Seq<int> {
    latest(
        Seq::new(links.len(), |i: int| encode_utf8(links[i].0)),
        links.len() as int,
    )
}

/// The symlink at `rel` with its metadata.
pub open spec fn link_at(meta: MetaView, mount: Seq<char>, rel: Seq<char>, target: Seq<char>) -> Tree {
    node_at(
        meta,
        mount,
        encode_utf8(after_last(rel, '/')),
        rel,
        TreeKind::Symlink(encode_utf8(target)),
        Sort::Symlink,
        value_for(
            meta.contexts,
            device_of(mount, before_last(rel, '/')),
            meta.contexts.len() as int,
        ),
    )
}

/// The warning for a symlink without a directory.
pub open spec fn gone_warning(rel: Seq<char>) -> Seq<char> {
    "symlink "@ + rel + ": its directory is gone, skipped"@
}

/// Puts one symlink of `_symlinks` back, unless the folder has its path.
pub open spec fn put_back(
    meta: MetaView,
    mount: Seq<char>,
    link: (Seq<char>, Seq<char>),
    root: Tree,
    m: Met,
) -> (Tree, Met) {
    if m.seen.contains(link.0) {
        (root, m)
    } else {
        match inside(mount, device_for(link.0)) {
            None => (root, m),
            Some(rel) => {
                let n = noted(meta, mount, rel, m);
                match with_link(root, names_on(rel), 0, link_at(meta, mount, rel, link.1)) {
                    Some(t) => (t, Met { links: n.links + 1, ..n }),
                    None => (root, Met { warnings: n.warnings.push(gone_warning(rel)), ..n }),
                }
            },
        }
    }
}

/// Puts the first `n` symlinks of `_symlinks` back, in the order of their
/// paths.
pub open spec fn put_all_back(
    meta: MetaView,
    mount: Seq<char>,
    root: Tree,
    m: Met,
    n: int,
) -> (Tree, Met)
    decreases n,
{
    if n <= 0 {
        (root, m)
    } else {
        let (t, w) = put_all_back(meta, mount, root, m, n - 1);
        put_back(meta, mount, meta.symlinks[link_order(meta.symlinks)[n - 1]], t, w)
    }
}

fn has_text(v: &Vec<Vec<char>>, x: &[char]) -> (r: bool)
    ensures
        r == texts_view(v@).contains(x@),
{
    let ghost all = texts_view(v@);
    let mut i: usize = 0;
    while i < v.len()
        invariant
            i <= v@.len(),
            all == texts_view(v@),
            forall|k: int| 0 <= k < i ==> #[trigger] all[k] != x@,
        decreases v.len() - i,
    {
        assert(all[i as int] == v@[i as int]@);
        if same_chars(&v[i], x) {
            assert(all.contains(all[i as int]));
            return true;
        }
        i += 1;
    }
    false
}

fn find_inside(mount: &[char], cfg: &[char]) -> (r: Option<Vec<char>>)
    ensures
        chars_view(r) == inside(mount@, device_for(cfg@)),
{
    let mut device: Vec<char> = Vec::new();
    if !(cfg.len() == 1 && cfg[0] == '/') {
        device.push('/');
    }
    let ghost head = device@;
    let mut i: usize = 0;
    while i < cfg.len()
        invariant
            i <= cfg@.len(),
            device@ =~= head + cfg@.take(i as int),
        decreases cfg.len() - i,
    {
        device.push(cfg[i]);
        i += 1;
    }
    proof {
        if cfg@.len() == 1 && cfg@[0] == '/' {
            assert(cfg@ =~= seq!['/']);
        }
        assert(device@ =~= device_for(cfg@));
    }
    let root: bool = mount.len() == 1 && mount[0] == '/';
    assert(root == (mount@ =~= seq!['/']));
    if root {
        return Some(trim_front(&device, '/'));
    }
    if !starts(&device, mount) {
        return None;
    }
    let rest: Vec<char> = part(&device, mount.len(), device.len());
    assert(rest@ =~= device@.skip(mount@.len() as int));
    if rest.len() > 0 && rest[0] == '/' {
        assert(rest@.take(1) =~= seq!['/']);
        let rel: Vec<char> = part(&rest, 1, rest.len());
        assert(rel@ =~= device@.skip(mount@.len() as int + 1));
        Some(rel)
    } else {
        proof {
            if has_prefix(rest@, seq!['/']) {
                assert(rest@.take(1)[0] == rest@[0]);
            }
        }
        None
    }
}

/// Puts one symlink back.
fn put_link(
    w: &mut Walker,
    meta: &Meta,
    mount: &str,
    root: &mut Node,
    cfg: &Vec<char>,
    target: &Vec<char>,
)
    requires
        old(w).wf(),
        old(root).kind is Dir,
    ensures
        final(w).wf(),
        final(root).kind is Dir,
        (tree_of(*final(root)), final(w)@) == put_back(
            meta@,
            mount@,
            (cfg@, target@),
            tree_of(*old(root)),
            old(w)@,
        ),
{
    if has_text(&w.seen, cfg) {
        return;
    }
    let m: Vec<char> = chars_of(mount);
    let rel: Vec<char> = match find_inside(&m, cfg) {
        Some(r) => r,
        None => {
            return;
        },
    };
    let (parent_rel, base): (Vec<char>, Vec<char>) = split_last(&rel, '/');
    let name: Vec<u8> = utf8_of(&base);
    let parent_text: String = string_of(&parent_rel);
    let parent_device: Vec<char> = chars_of(device_path(mount, parent_text.as_str()).as_str());
    let parent: Option<Vec<char>> = find_value(&meta.contexts, &parent_device);
    let d: Described = w.describe(meta, mount, &rel, Sort::Symlink, &parent);
    let node: Node = make_node(&name, NodeKind::Symlink(utf8_of(target)), &d);
    assert(tree_of(node) == link_at(meta@, mount@, rel@, target@));
    let names: Vec<Vec<u8>> = path_names(&rel);
    if insert_symlink(root, &names, 0, node) {
        assert(w.links < w.seen.len());
        w.links = w.links + 1;
    } else {
        let mut s: String = "symlink ".to_string();
        let t: String = string_of(&rel);
        s.append(t.as_str());
        s.append(": its directory is gone, skipped");
        let ghost was = w.warnings@;
        w.warnings.push(s);
        assert(strings_view(w.warnings@) =~= strings_view(was).push(gone_warning(rel@)));
    }
}

/// Puts the symlinks back that the folder couldn't hold (Windows, /sdcard) or
/// that were extracted as such.
pub fn put_links(w: &mut Walker, meta: &Meta, mount: &str, root: &mut Node)
    requires
        old(w).wf(),
        old(root).kind is Dir,
    ensures
        final(w).wf(),
        final(root).kind is Dir,
        (tree_of(*final(root)), final(w)@) == put_all_back(
            meta@,
            mount@,
            tree_of(*old(root)),
            old(w)@,
            link_order(meta@.symlinks).len() as int,
        ),
{
    let ghost links = meta@.symlinks;
    let ghost keys_spec = Seq::new(links.len(), |i: int| encode_utf8(links[i].0));
    let mut keys: Vec<(Vec<u8>, usize)> = Vec::new();
    let n: usize = meta.symlinks.len();
    let mut i: usize = 0;
    while i < n
        invariant
            n == meta.symlinks@.len(),
            links == pairs_view(meta.symlinks@),
            keys_spec == Seq::new(links.len(), |i: int| encode_utf8(links[i].0)),
            i <= n,
            keys@.len() == i,
            forall|k: int| 0 <= k < i ==> (#[trigger] keys@[k]).0@ == keys_spec[k],
        decreases n - i,
    {
        keys.push((utf8_of(&meta.symlinks[i].0), i));
        i += 1;
    }
    assert(labels(keys@) =~= keys_spec);
    let ix: Vec<usize> = latest_by_name(&keys);
    let ghost ord = link_order(links);
    let ghost start = tree_of(*root);
    let ghost met = w@;
    let mut k: usize = 0;
    assert(positions_view(ix@) =~= ord);
    while k < ix.len()
        invariant
            k <= ix@.len(),
            links == pairs_view(meta.symlinks@),
            links == meta@.symlinks,
            ord == link_order(links),
            positions_view(ix@) == ord,
            forall|j: int| 0 <= j < ix@.len() ==> #[trigger] ix@[j] < meta.symlinks@.len(),
            w.wf(),
            root.kind is Dir,
            (tree_of(*root), w@) == put_all_back(meta@, mount@, start, met, k as int),
        decreases ix.len() - k,
    {
        let j: usize = ix[k];
        assert(positions_view(ix@)[k as int] == j);
        put_link(w, meta, mount, root, &meta.symlinks[j].0, &meta.symlinks[j].1);
        k += 1;
    }
}

/// `lost+found` as characters.
pub open spec fn lost_found_text() -> Seq<char> {
    "lost+found"@
}

/// The first `n` texts that do not end in `lost+found`.
pub open spec fn others(v: Seq<Seq<char>>, n: int) -> Seq<Seq<char>>
    decreases n,
{
    if n <= 0 {
        Seq::empty()
    } else if has_suffix(v[n - 1], lost_found_text()) {
        others(v, n - 1)
    } else {
        others(v, n - 1).push(v[n - 1])
    }
}

/// A tree with lost+found: recorded by the extraction but not extracted.
pub open spec fn with_lost_found(
    meta: MetaView,
    mount: Seq<char>,
    root: Tree,
    label: Option<Seq<char>>,
    m: Met,
) -> (Tree, Met) {
    match root.kind {
        TreeKind::Dir(ch) => if exists|i: int|
            0 <= i < ch.len() && (#[trigger] ch[i]).name == lost_found_name() {
            (root, m)
        } else {
            let n = noted(meta, mount, lost_found_text(), m);
            (
                Tree {
                    kind: TreeKind::Dir(
                        ch.push(
                            node_at(
                                meta,
                                mount,
                                lost_found_name(),
                                lost_found_text(),
                                TreeKind::Dir(Seq::empty()),
                                Sort::Dir,
                                label,
                            ),
                        ),
                    ),
                    ..root
                },
                Met { new: others(n.new, n.new.len() as int), ..n },
            )
        },
        _ => (root, m),
    }
}

fn keep_others(v: Vec<Vec<char>>) -> (r: Vec<Vec<char>>)
    ensures
        texts_view(r@) == others(texts_view(v@), v@.len() as int),
{
    let ghost all = texts_view(v@);
    let lf: Vec<char> = chars_of("lost+found");
    let mut out: Vec<Vec<char>> = Vec::new();
    let mut i: usize = 0;
    assert(texts_view(out@) =~= others(all, 0));
    while i < v.len()
        invariant
            i <= v@.len(),
            all == texts_view(v@),
            lf@ == lost_found_text(),
            texts_view(out@) == others(all, i as int),
        decreases v.len() - i,
    {
        assert(all[i as int] == v@[i as int]@);
        if !ends(&v[i], &lf) {
            let c: Vec<char> = part(&v[i], 0, v[i].len());
            assert(c@ =~= v@[i as int]@);
            proof {
                crate::words::lemma_texts_push(out@, c);
            }
            out.push(c);
        }
        i += 1;
    }
    out
}

/// Adds lost+found where the folder has none.
pub fn add_lost_found(
    w: &mut Walker,
    meta: &Meta,
    mount: &str,
    root: &mut Node,
    label: &Option<Vec<char>>,
)
    requires
        old(w).wf(),
        old(root).kind is Dir,
    ensures
        final(w).wf(),
        final(root).kind is Dir,
        (tree_of(*final(root)), final(w)@) == with_lost_found(
            meta@,
            mount@,
            tree_of(*old(root)),
            chars_view(*label),
            old(w)@,
        ),
{
    let ghost before = *root;
    let name: Vec<u8> = vec![0x6cu8, 0x6f, 0x73, 0x74, 0x2b, 0x66, 0x6f, 0x75, 0x6e, 0x64];
    assert(name@ =~= lost_found_name());
    proof {
        lemma_dir_tree(before);
    }
    match &mut root.kind {
        NodeKind::Dir(ch) => {
            let ghost was = ch@;
            if is_taken(ch, &name) {
                return;
            }
            let rel: Vec<char> = chars_of("lost+found");
            let d: Described = w.describe(meta, mount, &rel, Sort::Dir, label);
            let node: Node = make_node(&name, NodeKind::Dir(Vec::new()), &d);
            proof {
                lemma_dir_tree(node);
                assert(trees_of(node.kind->Dir_0@) =~= Seq::<Tree>::empty());
            }
            let mut list: Vec<Vec<char>> = Vec::new();
            std::mem::swap(&mut list, &mut w.new);
            w.new = keep_others(list);
            ch.push(node);
            proof {
                assert(trees_of(ch@) =~= trees_of(was).push(tree_of(node)));
                lemma_dir_tree(*root);
            }
        },
        _ => {},
    }
}

/// A path of fs_config that no longer exists; of equal paths the last one
/// counts.
pub open spec fn is_gone(owners: Seq<(Seq<char>, Owner)>, seen: Seq<Seq<char>>, i: int) -> bool {
    !seen.contains(owners[i].0) && forall|j: int|
        i < j < owners.len() ==> (#[trigger] owners[j]).0 != owners[i].0
}

/// How many of the first `n` paths of fs_config no longer exist.
pub open spec fn gone(owners: Seq<(Seq<char>, Owner)>, seen: Seq<Seq<char>>, n: int) -> int
    decreases n,
{
    if n <= 0 {
        0
    } else {
        gone(owners, seen, n - 1) + (if is_gone(owners, seen, n - 1) {
            1int
        } else {
            0
        })
    }
}

/// How many paths of fs_config no longer exist (deleted files).
pub fn count_gone(w: &Walker, meta: &Meta) -> (r: usize)
    ensures
        r == gone(meta@.owners, w@.seen, meta@.owners.len() as int),
{
    let ghost owners = meta@.owners;
    let ghost seen = w@.seen;
    let n: usize = meta.owners.len();
    let mut count: usize = 0;
    let mut i: usize = 0;
    while i < n
        invariant
            n == meta.owners@.len(),
            owners == owners_view(meta.owners@),
            seen == texts_view(w.seen@),
            i <= n,
            count <= i,
            count == gone(owners, seen, i as int),
        decreases n - i,
    {
        let mut last: bool = true;
        let mut j: usize = i + 1;
        while j < n && last
            invariant
                n == meta.owners@.len(),
                owners == owners_view(meta.owners@),
                i < j <= n,
                last == forall|k: int| i < k < j ==> (#[trigger] owners[k]).0 != owners[i as int].0,
            decreases n - j,
        {
            assert(owners[j as int].0 == meta.owners@[j as int].0@);
            if same_chars(&meta.owners[j].0, &meta.owners[i].0) {
                last = false;
            }
            j += 1;
        }
        if last && !has_text(&w.seen, &meta.owners[i].0) {
            count += 1;
            assert(is_gone(owners, seen, i as int));
        } else {
            assert(!is_gone(owners, seen, i as int));
        }
        i += 1;
    }
    count
}

} // verus!
