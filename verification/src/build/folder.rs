//! The folder of a partition, turned into an image tree with its metadata.
use vstd::prelude::*;
use vstd::string::StringExecFns;
use crate::build::config::{chars_view, find_owner, find_value, value_for, Meta, MetaView, Owner};
use crate::extract::{config_of, config_path, device_of, device_path, strings_view};
use crate::fs::mkerofs::layout::clone_bytes;
use crate::fs::mkext4::{Node, NodeKind};
use crate::fs::order::{by_name, labels, order, Named};
use crate::fs::text_view;
use crate::text::{chars_of, lossy, string_of, text_of};
use crate::words::{after_last, before_last, part, same_chars, split_last, texts_view};

verus! {

/// A file, directory or symlink of the folder, or something else.
#[derive(Debug)]
pub enum HostKind {
    Dir(Vec<HostEntry>),
    /// Content, and whether it is executable on disk.
    File { data: Vec<u8>, executable: bool },
    Symlink(Vec<u8>),
    Other,
}

/// An entry of the folder.
#[derive(Debug)]
pub struct HostEntry {
    pub name: Vec<u8>,
    pub kind: HostKind,
}

impl Named for HostEntry {
    open spec fn label(&self) -> Seq<u8> {
        self.name@
    }

    fn name(&self) -> &Vec<u8> {
        &self.name
    }
}

/// An image tree in plain values.
pub enum TreeKind {
    Dir(Seq<Tree>),
    File(Seq<u8>),
    Symlink(Seq<u8>),
}

/// A node of an image tree in plain values.
pub struct Tree {
    pub name: Seq<u8>,
    pub kind: TreeKind,
    pub mode: u32,
    pub uid: u32,
    pub gid: u32,
    pub selinux: Option<Seq<char>>,
    pub capabilities: Option<u64>,
}

/// An image tree in plain values.
pub open spec fn tree_of(node: Node) -> Tree
    decreases node,
{
    Tree {
        name: node.name@,
        kind: match node.kind {
            NodeKind::Dir(ch) => TreeKind::Dir(
                Seq::new(
                    ch@.len(),
                    |i: int|
                        if 0 <= i < ch@.len() {
                            tree_of(ch@[i])
                        } else {
                            arbitrary()
                        },
                ),
            ),
            NodeKind::File { data } => TreeKind::File(data@),
            NodeKind::Symlink(t) => TreeKind::Symlink(t@),
        },
        mode: node.mode,
        uid: node.uid,
        gid: node.gid,
        selinux: text_view(node.selinux),
        capabilities: node.capabilities,
    }
}

/// Image trees in plain values.
pub open spec fn trees_of(ch: Seq<Node>) -> Seq<Tree> {
    Seq::new(ch.len(), |i: int| tree_of(ch[i]))
}

pub proof fn lemma_dir_tree(node: Node)
    requires
        node.kind is Dir,
    ensures
        tree_of(node).kind == TreeKind::Dir(trees_of(node.kind->Dir_0@)),
{
    assert(tree_of(node).kind->Dir_0 =~= trees_of(node.kind->Dir_0@));
}

/// `rel` and `name` as one path.
pub open spec fn joined(rel: Seq<char>, name: Seq<char>) -> Seq<char> {
    if rel.len() == 0 {
        name
    } else {
        rel.push('/') + name
    }
}

pub(crate) fn join(rel: &[char], name: &[char]) -> (r: Vec<char>)
    ensures
        r@ == joined(rel@, name@),
{
    let mut v: Vec<char> = part(rel, 0, rel.len());
    assert(v@ =~= rel@);
    if v.len() > 0 {
        v.push('/');
    }
    let mut i: usize = 0;
    let ghost head = v@;
    while i < name.len()
        invariant
            i <= name@.len(),
            v@ =~= head + name@.take(i as int),
        decreases name.len() - i,
    {
        v.push(name[i]);
        i += 1;
    }
    assert(v@ =~= joined(rel@, name@));
    v
}

/// Files directly in a `bin` or `xbin` directory.
pub open spec fn is_in_bin(rel: Seq<char>) -> bool {
    let dir = after_last(before_last(rel, '/'), '/');
    dir == "bin"@ || dir == "xbin"@
}

/// True for files directly in a `bin` or `xbin` directory.
pub fn in_bin_dir(rel: &str) -> (r: bool)
    ensures
        r == is_in_bin(rel@),
{
    in_bin(&chars_of(rel))
}

fn in_bin(rel: &[char]) -> (r: bool)
    ensures
        r == is_in_bin(rel@),
{
    let (parent, _): (Vec<char>, Vec<char>) = split_last(rel, '/');
    let (_, dir): (Vec<char>, Vec<char>) = split_last(&parent, '/');
    same_chars(&dir, &chars_of("bin")) || same_chars(&dir, &chars_of("xbin"))
}

/// What kind of node gets default metadata.
#[derive(Debug, Clone, Copy, PartialEq, Eq, Structural)]
pub enum Sort {
    Dir,
    File,
    Symlink,
}

/// Android-like defaults for entries without fs_config metadata.
pub open spec fn default_owner(rel: Seq<char>, sort: Sort) -> Owner {
    match sort {
        Sort::Dir => Owner {
            uid: 0,
            gid: 0,
            mode: if rel == "lost+found"@ {
                0o700
            } else {
                0o755
            },
            caps: None,
        },
        Sort::Symlink => Owner { uid: 0, gid: 0, mode: 0o777, caps: None },
        Sort::File => if is_in_bin(rel) {
            Owner { uid: 0, gid: 2000, mode: 0o755, caps: None }
        } else {
            Owner { uid: 0, gid: 0, mode: 0o644, caps: None }
        },
    }
}

fn default_meta(rel: &[char], sort: Sort) -> (r: Owner)
    ensures
        r == default_owner(rel@, sort),
{
    match sort {
        Sort::Dir => {
            let lf: bool = same_chars(rel, &chars_of("lost+found"));
            Owner {
                uid: 0,
                gid: 0,
                mode: if lf {
                    0o700
                } else {
                    0o755
                },
                caps: None,
            }
        },
        Sort::Symlink => Owner { uid: 0, gid: 0, mode: 0o777, caps: None },
        Sort::File => if in_bin(rel) {
            Owner { uid: 0, gid: 2000, mode: 0o755, caps: None }
        } else {
            Owner { uid: 0, gid: 0, mode: 0o644, caps: None }
        },
    }
}

/// The path of a node in fs_config.
pub open spec fn config_at(mount: Seq<char>, rel: Seq<char>) -> Seq<char> {
    config_of(device_of(mount, rel))
}

/// The metadata that fs_config has for a node.
pub open spec fn known_owner(meta: MetaView, mount: Seq<char>, rel: Seq<char>) -> Option<Owner> {
    value_for(meta.owners, config_at(mount, rel), meta.owners.len() as int)
}

/// The owner of a node: that in fs_config, or the default.
pub open spec fn owner_at(meta: MetaView, mount: Seq<char>, rel: Seq<char>, sort: Sort) -> Owner {
    match known_owner(meta, mount, rel) {
        Some(o) => o,
        None => default_owner(rel, sort),
    }
}

/// The label of a node. Only new entries inherit their directory's label; a
/// known entry without one stays unlabeled.
pub open spec fn label_at(
    meta: MetaView,
    mount: Seq<char>,
    rel: Seq<char>,
    parent: Option<Seq<char>>,
) -> Option<Seq<char>> {
    match value_for(meta.contexts, device_of(mount, rel), meta.contexts.len() as int) {
        Some(l) => Some(l),
        None => if known_owner(meta, mount, rel) is Some {
            None
        } else {
            parent
        },
    }
}

/// The node at `rel` with its metadata.
pub open spec fn node_at(
    meta: MetaView,
    mount: Seq<char>,
    name: Seq<u8>,
    rel: Seq<char>,
    kind: TreeKind,
    sort: Sort,
    parent: Option<Seq<char>>,
) -> Tree {
    let o = owner_at(meta, mount, rel, sort);
    Tree {
        name,
        kind,
        mode: o.mode,
        uid: o.uid,
        gid: o.gid,
        selinux: label_at(meta, mount, rel, parent),
        capabilities: o.caps,
    }
}

/// What was met so far: entries without metadata, all entries, how many of
/// each kind, and what was skipped.
pub struct Met {
    pub new: Seq<Seq<char>>,
    pub seen: Seq<Seq<char>>,
    pub files: int,
    pub dirs: int,
    pub links: int,
    pub warnings: Seq<Seq<char>>,
}

/// One more entry was met.
pub open spec fn noted(meta: MetaView, mount: Seq<char>, rel: Seq<char>, m: Met) -> Met {
    let cfg = config_at(mount, rel);
    Met {
        new: if known_owner(meta, mount, rel) is None {
            m.new.push(cfg)
        } else {
            m.new
        },
        seen: m.seen.push(cfg),
        ..m
    }
}

/// New files: executable on disk (or in a bin directory) -> 0755, else 0644.
pub open spec fn file_mode(rel: Seq<char>, executable: bool) -> u32 {
    if executable || is_in_bin(rel) {
        0o755
    } else {
        0o644
    }
}

/// The file at `rel`.
pub open spec fn file_at(
    meta: MetaView,
    mount: Seq<char>,
    name: Seq<u8>,
    rel: Seq<char>,
    data: Seq<u8>,
    executable: bool,
    parent: Option<Seq<char>>,
) -> Tree {
    let t = node_at(meta, mount, name, rel, TreeKind::File(data), Sort::File, parent);
    if known_owner(meta, mount, rel) is None {
        Tree { mode: file_mode(rel, executable), ..t }
    } else {
        t
    }
}

/// The warning for an entry that no image can hold.
pub open spec fn other_warning(rel: Seq<char>) -> Seq<char> {
    rel + ": not a file, directory or symlink, skipped"@
}

/// The children of a directory in the order of their names.
pub open spec fn kid_order(e: HostEntry) -> Seq<int> {
    match e.kind {
        HostKind::Dir(ch) => order(labels(ch@), ch@.len() as int),
        _ => Seq::empty(),
    }
}

/// The directory at `rel` with everything in it. Its own metadata comes
/// first, so that children inherit its label.
pub open spec fn dir_walk(
    meta: MetaView,
    mount: Seq<char>,
    e: HostEntry,
    rel: Seq<char>,
    parent: Option<Seq<char>>,
    m: Met,
) -> (Tree, Met)
    decreases e, kid_order(e).len() + 1,
{
    let (kids, after) = kids_walk(
        meta,
        mount,
        e,
        rel,
        label_at(meta, mount, rel, parent),
        noted(meta, mount, rel, m),
        kid_order(e).len() as int,
    );
    (
        node_at(meta, mount, e.name@, rel, TreeKind::Dir(kids), Sort::Dir, parent),
        Met { dirs: after.dirs + 1, ..after },
    )
}

/// The first `k` children of a directory.
pub open spec fn kids_walk(
    meta: MetaView,
    mount: Seq<char>,
    e: HostEntry,
    rel: Seq<char>,
    label: Option<Seq<char>>,
    m: Met,
    k: int,
) -> (Seq<Tree>, Met)
    decreases e, k,
{
    match e.kind {
        HostKind::Dir(ch) => if 0 < k <= kid_order(e).len() && 0 <= kid_order(e)[k - 1] < ch@.len() {
            let (before, met) = kids_walk(meta, mount, e, rel, label, m, k - 1);
            let child = ch@[kid_order(e)[k - 1]];
            let path = joined(rel, text_of(child.name@));
            match child.kind {
                HostKind::Symlink(t) => (
                    before.push(
                        node_at(
                            meta,
                            mount,
                            child.name@,
                            path,
                            TreeKind::Symlink(t@),
                            Sort::Symlink,
                            label,
                        ),
                    ),
                    ({
                        let n = noted(meta, mount, path, met);
                        Met { links: n.links + 1, ..n }
                    }),
                ),
                HostKind::Dir(_) => {
                    let (t, n) = dir_walk(meta, mount, child, path, label, met);
                    (before.push(t), n)
                },
                HostKind::File { data, executable } => (
                    before.push(
                        file_at(meta, mount, child.name@, path, data@, executable, label),
                    ),
                    ({
                        let n = noted(meta, mount, path, met);
                        Met { files: n.files + 1, ..n }
                    }),
                ),
                HostKind::Other => (
                    before,
                    Met { warnings: met.warnings.push(other_warning(path)), ..met },
                ),
            }
        } else {
            (Seq::empty(), m)
        },
        _ => (Seq::empty(), m),
    }
}

/// What was met so far.
#[derive(Debug)]
pub struct Walker {
    pub new: Vec<Vec<char>>,
    pub seen: Vec<Vec<char>>,
    pub files: u64,
    pub dirs: u64,
    pub links: u64,
    pub warnings: Vec<String>,
}

impl View for Walker {
    type V = Met;

    open spec fn view(&self) -> Met {
        Met {
            new: texts_view(self.new@),
            seen: texts_view(self.seen@),
            files: self.files as int,
            dirs: self.dirs as int,
            links: self.links as int,
            warnings: strings_view(self.warnings@),
        }
    }
}

fn option_string(v: &Option<Vec<char>>) -> (r: Option<String>)
    ensures
        text_view(r) == chars_view(*v),
{
    match v {
        Some(c) => Some(string_of(c)),
        None => None,
    }
}

fn copy_chars(v: &Option<Vec<char>>) -> (r: Option<Vec<char>>)
    ensures
        chars_view(r) == chars_view(*v),
{
    match v {
        Some(c) => {
            let d: Vec<char> = part(c, 0, c.len());
            assert(d@ =~= c@);
            Some(d)
        },
        None => None,
    }
}

/// Metadata of a node: owner, label, and whether fs_config knows it.
pub struct Described {
    pub owner: Owner,
    pub label: Option<Vec<char>>,
    pub known: bool,
}

impl Walker {
    /// How many more entries were met than counted.
    pub open spec fn spare(&self) -> int {
        self.seen@.len() - (self.files + self.dirs + self.links)
    }

    /// No more entries were counted than met.
    pub open spec fn wf(&self) -> bool {
        0 <= self.spare()
    }

    pub fn new() -> (r: Walker)
        ensures
            r.wf(),
            r@ == (Met {
                new: Seq::empty(),
                seen: Seq::empty(),
                files: 0,
                dirs: 0,
                links: 0,
                warnings: Seq::empty(),
            }),
    {
        let w: Walker = Walker {
            new: Vec::new(),
            seen: Vec::new(),
            files: 0,
            dirs: 0,
            links: 0,
            warnings: Vec::new(),
        };
        assert(texts_view(w.new@) =~= Seq::<Seq<char>>::empty());
        assert(texts_view(w.seen@) =~= Seq::<Seq<char>>::empty());
        assert(strings_view(w.warnings@) =~= Seq::<Seq<char>>::empty());
        w
    }

    /// Metadata of the entry at `rel`, which is noted.
    pub fn describe(
        &mut self,
        meta: &Meta,
        mount: &str,
        rel: &[char],
        sort: Sort,
        parent: &Option<Vec<char>>,
    ) -> (r: Described)
        ensures
            final(self)@ == noted(meta@, mount@, rel@, old(self)@),
            final(self).seen@.len() == old(self).seen@.len() + 1,
            r.owner == owner_at(meta@, mount@, rel@, sort),
            chars_view(r.label) == label_at(meta@, mount@, rel@, chars_view(*parent)),
            r.known == (known_owner(meta@, mount@, rel@) is Some),
    {
        let text: String = string_of(rel);
        let device: String = device_path(mount, text.as_str());
        let cfg: Vec<char> = chars_of(config_path(device.as_str()).as_str());
        let dev: Vec<char> = chars_of(device.as_str());
        let found: Option<Owner> = find_owner(&meta.owners, &cfg);
        let ghost before = self@;
        let (owner, known): (Owner, bool) = match found {
            Some(o) => (o, true),
            None => {
                let copy: Vec<char> = part(&cfg, 0, cfg.len());
                assert(copy@ =~= cfg@);
                proof {
                    crate::words::lemma_texts_push(self.new@, copy);
                }
                self.new.push(copy);
                (default_meta(rel, sort), false)
            },
        };
        proof {
            crate::words::lemma_texts_push(self.seen@, cfg);
        }
        self.seen.push(cfg);
        let label: Option<Vec<char>> = match find_value(&meta.contexts, &dev) {
            Some(l) => Some(l),
            None => if known {
                None
            } else {
                copy_chars(parent)
            },
        };
        Described { owner, label, known }
    }
}

pub fn make_node(name: &Vec<u8>, kind: NodeKind, d: &Described) -> (r: Node)
    ensures
        r.name@ == name@,
        r.kind == kind,
        r.mode == d.owner.mode,
        r.uid == d.owner.uid,
        r.gid == d.owner.gid,
        text_view(r.selinux) == chars_view(d.label),
        r.capabilities == d.owner.caps,
{
    Node {
        name: clone_bytes(name),
        kind,
        mode: d.owner.mode,
        uid: d.owner.uid,
        gid: d.owner.gid,
        selinux: option_string(&d.label),
        capabilities: d.owner.caps,
    }
}

/// A child that is no directory; nothing for what no image can hold.
fn walk_leaf(
    w: &mut Walker,
    meta: &Meta,
    mount: &str,
    child: &HostEntry,
    path: &[char],
    label: &Option<Vec<char>>,
) -> (r: Option<Node>)
    requires
        old(w).wf(),
        child.kind !is Dir,
    ensures
        final(w).spare() >= old(w).spare(),
        match child.kind {
            HostKind::Symlink(t) => {
                let n = noted(meta@, mount@, path@, old(w)@);
                &&& r is Some
                &&& tree_of(r->Some_0) == node_at(
                    meta@,
                    mount@,
                    child.name@,
                    path@,
                    TreeKind::Symlink(t@),
                    Sort::Symlink,
                    chars_view(*label),
                )
                &&& final(w)@ == (Met { links: n.links + 1, ..n })
            },
            HostKind::File { data, executable } => {
                let n = noted(meta@, mount@, path@, old(w)@);
                &&& r is Some
                &&& tree_of(r->Some_0) == file_at(
                    meta@,
                    mount@,
                    child.name@,
                    path@,
                    data@,
                    executable,
                    chars_view(*label),
                )
                &&& final(w)@ == (Met { files: n.files + 1, ..n })
            },
            HostKind::Other => r is None && final(w)@ == (Met {
                warnings: old(w)@.warnings.push(other_warning(path@)),
                ..old(w)@
            }),
            _ => true,
        },
{
    match &child.kind {
        HostKind::Symlink(t) => {
            let d: Described = w.describe(meta, mount, path, Sort::Symlink, label);
            let n: Node = make_node(&child.name, NodeKind::Symlink(clone_bytes(t)), &d);
            assert(w.links < w.seen.len());
            w.links = w.links + 1;
            Some(n)
        },
        HostKind::File { data, executable } => {
            let d: Described = w.describe(meta, mount, path, Sort::File, label);
            let mut n: Node = make_node(&child.name, NodeKind::File { data: clone_bytes(data) }, &d);
            if !d.known {
                n.mode = if *executable || in_bin(path) {
                    0o755
                } else {
                    0o644
                };
            }
            assert(w.files < w.seen.len());
            w.files = w.files + 1;
            Some(n)
        },
        _ => {
            let mut s: String = string_of(path);
            s.append(": not a file, directory or symlink, skipped");
            let ghost was = w.warnings@;
            w.warnings.push(s);
            assert(strings_view(w.warnings@) =~= strings_view(was).push(other_warning(path@)));
            None
        },
    }
}

/// The directory `e` at `rel` with everything in it.
pub fn walk_dir(
    w: &mut Walker,
    meta: &Meta,
    mount: &str,
    e: &HostEntry,
    rel: &[char],
    parent: &Option<Vec<char>>,
) -> (r: Node)
    requires
        old(w).wf(),
    ensures
        final(w).spare() >= old(w).spare(),
        r.kind is Dir,
        (tree_of(r), final(w)@) == dir_walk(
            meta@,
            mount@,
            *e,
            rel@,
            chars_view(*parent),
            old(w)@,
        ),
    decreases e,
{
    let ghost start = w@;
    let d: Described = w.describe(meta, mount, rel, Sort::Dir, parent);
    let ghost met = w@;
    let ghost label = chars_view(d.label);
    let mut kids: Vec<Node> = Vec::new();
    assert(trees_of(kids@) =~= Seq::<Tree>::empty());
    // the directory itself is met but not counted yet
    match &e.kind {
        HostKind::Dir(ch) => {
            let positions: Vec<usize> = by_name(ch);
            let ghost ix = kid_order(*e);
            let n: usize = ch.len();
            let mut k: usize = 0;
            while k < n
                invariant
                    n == ch@.len(),
                    k <= n,
                    e.kind == HostKind::Dir(*ch),
                    ix == kid_order(*e),
                    ix.len() == n,
                    positions@.map_values(|i: usize| i as int) == ix,
                    positions.len() == n,
                    forall|j: int| 0 <= j < n ==> #[trigger] positions@[j] < n,
                    w.spare() >= old(w).spare() + 1,
                    old(w).wf(),
                    label == chars_view(d.label),
                    (trees_of(kids@), w@) == kids_walk(
                        meta@,
                        mount@,
                        *e,
                        rel@,
                        label,
                        met,
                        k as int,
                    ),
                decreases n - k,
            {
                let i: usize = positions[k];
                proof {
                    assert(positions@.map_values(|i: usize| i as int)[k as int] == i);
                    assert(ix[k as int] == i);
                }
                let child: &HostEntry = &ch[i];
                let text: String = lossy(&child.name);
                let path: Vec<char> = join(rel, &chars_of(text.as_str()));
                let ghost was = kids@;
                let got: Option<Node> = match &child.kind {
                    HostKind::Dir(_) => Some(walk_dir(w, meta, mount, child, &path, &d.label)),
                    _ => walk_leaf(w, meta, mount, child, &path, &d.label),
                };
                if let Some(node) = got {
                    kids.push(node);
                    assert(trees_of(kids@) =~= trees_of(was).push(tree_of(node)));
                }
                k += 1;
            }
        },
        _ => {},
    }
    assert(w.dirs < w.seen.len());
    w.dirs = w.dirs + 1;
    let node: Node = make_node(&e.name, NodeKind::Dir(kids), &d);
    proof {
        lemma_dir_tree(node);
    }
    node
}

} // verus!
