//! An extraction visits every node of an image once, directories before what
//! is in them, in the order of names.
use vstd::prelude::*;
use crate::error::Error;
use crate::extract::{child_path, list_names, pushed, visited, StepView, VisitView};
use crate::fs::erofs::{prefixes_of, Erofs};
use crate::fs::ext4::Ext4;
use crate::fs::mkerofs::read_meta::node_kind;
use crate::fs::mkext4::inode::lost_found_name;
use crate::fs::mkext4::{Node, NodeKind, Params};
use crate::fs::order::{in_order, lemma_order, names, order, picked, place};
use crate::fs::tree::{kids_of, lemma_kids};
use crate::fs::{text_view, Filesystem, MetaView};

verus! {

/// The metadata of a node, but for its size and time.
pub open spec fn same_meta(m: MetaView, node: Node) -> bool {
    &&& m.kind == node_kind(node)
    &&& m.mode == node.mode % 0x1000
    &&& m.uid == node.uid
    &&& m.gid == node.gid
    &&& m.selinux == text_view(node.selinux)
    &&& m.capabilities == node.capabilities
}

/// What a filesystem has at `at` is `node`, with everything below it.
pub open spec fn shows<F: Filesystem>(fs: F, at: F::Node, node: Node) -> bool
    decreases node,
{
    &&& fs.meta_at(at) is Ok
    &&& same_meta(fs.meta_at(at)->Ok_0, node)
    &&& match node.kind {
        NodeKind::File { data } => fs.file_at(at) == Ok::<Seq<u8>, Error>(data@),
        NodeKind::Symlink(target) => fs.link_at(at) == Ok::<Seq<u8>, Error>(target@),
        NodeKind::Dir(ch) => {
            &&& fs.dir_at(at) is Ok
            &&& fs.dir_at(at)->Ok_0.len() == ch@.len()
            &&& forall|k: int|
                0 <= k < ch@.len() && 0 <= #[trigger] kids_of(node)[k] < ch@.len() ==> {
                    let entry = fs.dir_at(at)->Ok_0[k];
                    let child = ch@[kids_of(node)[k]];
                    entry.0 == child.name@ && shows(fs, entry.1, child)
                }
        },
    }
}

/// A node and everything below it, each with its path: a directory before
/// what is in it, and that in the order of names.
pub open spec fn below(node: Node, rel: Seq<u8>) -> Seq<(Seq<u8>, Node)>
    decreases node, kids_of(node).len() + 1,
{
    seq![(rel, node)] + below_from(node, rel, 0)
}

/// What is below the children of a node from number `k` on. lost+found is
/// left out at the root.
pub open spec fn below_from(node: Node, rel: Seq<u8>, k: int) -> Seq<(Seq<u8>, Node)>
    decreases node, kids_of(node).len() - k,
{
    match node.kind {
        NodeKind::Dir(ch) => if 0 <= k < kids_of(node).len() && 0 <= kids_of(node)[k] < ch@.len() {
            let child = ch@[kids_of(node)[k]];
            if rel.len() == 0 && child.name@ == lost_found_name() {
                below_from(node, rel, k + 1)
            } else {
                below(child, child_path(rel, child.name@)) + below_from(node, rel, k + 1)
            }
        } else {
            Seq::empty()
        },
        _ => Seq::empty(),
    }
}

/// What `n` steps of an extraction give: the nodes still to visit, what was
/// recorded and what was made. Nothing where one of them fails.
pub open spec fn run<F: Filesystem>(
    fs: F,
    stack: Seq<(Seq<u8>, F::Node)>,
    n: nat,
) -> Option<(Seq<(Seq<u8>, F::Node)>, Seq<VisitView>, Seq<StepView>)>
    decreases n,
{
    if n == 0 {
        Some((stack, Seq::empty(), Seq::empty()))
    } else if stack.len() == 0 {
        None
    } else {
        match visited(fs, stack.last().0, stack.last().1) {
            Err(_) => None,
            Ok(v) => match run(fs, stack.drop_last() + v.next, (n - 1) as nat) {
                None => None,
                Some((s, vs, ss)) => Some((s, seq![v.visit] + vs, seq![v.step] + ss)),
            },
        }
    }
}

/// A visit records a node, and its step makes it.
pub open spec fn records(v: VisitView, s: StepView, x: (Seq<u8>, Node)) -> bool {
    &&& v.rel == x.0
    &&& same_meta(v.meta, x.1)
    &&& match x.1.kind {
        NodeKind::Dir(_) => s == StepView::Dir && v.link is None,
        NodeKind::File { data } => s == StepView::File(data@) && v.link is None,
        NodeKind::Symlink(target) => s == StepView::Symlink(target@) && v.link == Some(target@),
    }
}

/// Visiting these nodes, one by one, leads from one stack to another.
pub open spec fn walks<F: Filesystem>(
    fs: F,
    from: Seq<(Seq<u8>, F::Node)>,
    to: Seq<(Seq<u8>, F::Node)>,
    list: Seq<(Seq<u8>, Node)>,
) -> bool {
    match run(fs, from, list.len()) {
        None => false,
        Some((s, vs, ss)) => {
            &&& s == to
            &&& vs.len() == list.len()
            &&& ss.len() == list.len()
            &&& forall|i: int| 0 <= i < list.len() ==> records(vs[i], ss[i], #[trigger] list[i])
        },
    }
}

proof fn lemma_run_on<F: Filesystem>(fs: F, stack: Seq<(Seq<u8>, F::Node)>, a: nat, b: nat)
    requires
        run(fs, stack, a) is Some,
        run(fs, run(fs, stack, a)->Some_0.0, b) is Some,
    ensures
        ({
            let (s, vs, ss) = run(fs, stack, a)->Some_0;
            let (s2, vs2, ss2) = run(fs, s, b)->Some_0;
            run(fs, stack, a + b) == Some((s2, vs + vs2, ss + ss2))
        }),
    decreases a,
{
    let (s, vs, ss) = run(fs, stack, a)->Some_0;
    let (s2, vs2, ss2) = run(fs, s, b)->Some_0;
    if a == 0 {
        assert(vs + vs2 =~= vs2);
        assert(ss + ss2 =~= ss2);
    } else {
        let v = visited(fs, stack.last().0, stack.last().1)->Ok_0;
        let next = stack.drop_last() + v.next;
        lemma_run_on(fs, next, (a - 1) as nat, b);
        let (s1, vs1, ss1) = run(fs, next, (a - 1) as nat)->Some_0;
        assert(seq![v.visit] + (vs1 + vs2) =~= vs + vs2);
        assert(seq![v.step] + (ss1 + ss2) =~= ss + ss2);
    }
}

proof fn lemma_walks_on<F: Filesystem>(
    fs: F,
    a: Seq<(Seq<u8>, F::Node)>,
    b: Seq<(Seq<u8>, F::Node)>,
    c: Seq<(Seq<u8>, F::Node)>,
    l: Seq<(Seq<u8>, Node)>,
    m: Seq<(Seq<u8>, Node)>,
)
    requires
        walks(fs, a, b, l),
        walks(fs, b, c, m),
    ensures
        walks(fs, a, c, l + m),
{
    lemma_run_on(fs, a, l.len(), m.len());
    let (s, vs, ss) = run(fs, a, l.len())->Some_0;
    let (s2, vs2, ss2) = run(fs, b, m.len())->Some_0;
    let all = l + m;
    assert(all.len() == l.len() + m.len());
    assert forall|i: int| 0 <= i < all.len() implies records(
        (vs + vs2)[i],
        (ss + ss2)[i],
        #[trigger] all[i],
    ) by {
        if i < l.len() {
            assert(records(vs[i], ss[i], l[i]));
        } else {
            assert(records(vs2[i - l.len()], ss2[i - l.len()], m[i - l.len()]));
        }
    }
}

/// Names that are in order stay where they are.
proof fn lemma_order_stays(v: Seq<Seq<u8>>, n: int)
    requires
        0 <= n <= v.len(),
        in_order(v),
    ensures
        order(v, n) == Seq::new(n as nat, |i: int| i),
    decreases n,
{
    if n > 0 {
        lemma_order_stays(v, n - 1);
        let ix = order(v, n - 1);
        let sorted = picked(v, ix);
        if n > 1 {
            assert(sorted[n - 2] == v[n - 2]);
            assert(!crate::fs::order::before(v[n - 1], v[n - 2]));
        }
        assert(place(sorted, n - 1, v[n - 1]) == n - 1);
        assert(ix.insert(n - 1, n - 1) =~= Seq::new(n as nat, |i: int| i));
    } else {
        assert(order(v, n) =~= Seq::new(n as nat, |i: int| i));
    }
}

proof fn lemma_visit<F: Filesystem>(
    fs: F,
    at: F::Node,
    node: Node,
    rel: Seq<u8>,
    stack: Seq<(Seq<u8>, F::Node)>,
)
    requires
        shows(fs, at, node),
    ensures
        walks(fs, stack.push((rel, at)), stack, below(node, rel)),
    decreases node, kids_of(node).len() + 1,
{
    let from = stack.push((rel, at));
    assert(from.drop_last() =~= stack);
    let v = visited(fs, rel, at)->Ok_0;
    let first = seq![(rel, node)];
    let next = stack + v.next;
    assert(run(fs, next, 0) == Some((next, Seq::<VisitView>::empty(), Seq::<StepView>::empty())));
    assert(run(fs, from, 1) == Some((next, seq![v.visit], seq![v.step]))) by {
        assert(seq![v.visit] + Seq::<VisitView>::empty() =~= seq![v.visit]);
        assert(seq![v.step] + Seq::<StepView>::empty() =~= seq![v.step]);
    }
    assert(records(v.visit, v.step, first[0]));
    assert(walks(fs, from, next, first));
    match node.kind {
        NodeKind::Dir(ch) => {
            let list = fs.dir_at(at)->Ok_0;
            lemma_visit_kids(fs, at, node, rel, stack, 0);
            lemma_walks_on(fs, from, next, stack, first, below_from(node, rel, 0));
        },
        _ => {
            assert(next =~= stack);
            assert(first + below_from(node, rel, 0) =~= first);
        },
    }
}

proof fn lemma_visit_kids<F: Filesystem>(
    fs: F,
    at: F::Node,
    node: Node,
    rel: Seq<u8>,
    stack: Seq<(Seq<u8>, F::Node)>,
    k: int,
)
    requires
        shows(fs, at, node),
        node.kind is Dir,
        0 <= k <= fs.dir_at(at)->Ok_0.len(),
    ensures
        ({
            let list = fs.dir_at(at)->Ok_0;
            walks(
                fs,
                stack + pushed(rel, list, list.len() - k),
                stack,
                below_from(node, rel, k),
            )
        }),
    decreases node, kids_of(node).len() - k,
{
    let ch = node.kind->Dir_0@;
    let list = fs.dir_at(at)->Ok_0;
    let n = list.len() as int;
    lemma_kids(node);
    if k >= n {
        assert(pushed(rel, list, n - k) =~= Seq::<(Seq<u8>, F::Node)>::empty());
        assert(stack + pushed(rel, list, n - k) =~= stack);
        assert(below_from(node, rel, k) =~= Seq::<(Seq<u8>, Node)>::empty());
    } else {
        lemma_listed(fs, at, node);
        let c = kids_of(node)[k];
        assert(0 <= c < ch.len());
        let child = ch[c];
        let e = list[order(list_names(list), n)[k]];
        assert(e == list[k]);
        assert(list.len() - (n - k) == k);
        let rest = pushed(rel, list, n - k - 1);
        lemma_visit_kids(fs, at, node, rel, stack, k + 1);
        if !(rel.len() == 0 && child.name@ == lost_found_name()) {
            let path = child_path(rel, child.name@);
            assert(stack + rest.push((path, e.1)) =~= (stack + rest).push((path, e.1)));
            lemma_visit(fs, e.1, child, path, stack + rest);
            lemma_walks_on(
                fs,
                (stack + rest).push((path, e.1)),
                stack + rest,
                stack,
                below(child, path),
                below_from(node, rel, k + 1),
            );
        }
    }
}

/// The listing of a directory is in the order of names.
proof fn lemma_listed<F: Filesystem>(fs: F, at: F::Node, node: Node)
    requires
        shows(fs, at, node),
        node.kind is Dir,
    ensures
        ({
            let list = fs.dir_at(at)->Ok_0;
            order(list_names(list), list.len() as int) == Seq::new(list.len(), |i: int| i)
        }),
{
    let ch = node.kind->Dir_0@;
    let list = fs.dir_at(at)->Ok_0;
    let n = list.len() as int;
    lemma_kids(node);
    lemma_order(names(ch), ch.len() as int);
    let got = list_names(list);
    assert(got =~= picked(names(ch), kids_of(node))) by {
        assert forall|k: int| 0 <= k < n implies #[trigger] got[k] == picked(
            names(ch),
            kids_of(node),
        )[k] by {
            assert(0 <= kids_of(node)[k] < ch.len());
        }
    }
    lemma_order_stays(got, n);
}

/// An extraction that starts at the root of a filesystem that holds `root`
/// visits each of its nodes once, and records what it is; then nothing is
/// left to visit.
pub proof fn extraction_is_complete<F: Filesystem>(fs: F, root: Node)
    requires
        shows(fs, fs.root_node(), root),
    ensures
        walks(
            fs,
            seq![(Seq::<u8>::empty(), fs.root_node())],
            Seq::<(Seq<u8>, F::Node)>::empty(),
            below(root, Seq::empty()),
        ),
{
    let none = Seq::<(Seq<u8>, F::Node)>::empty();
    lemma_visit(fs, fs.root_node(), root, Seq::empty(), none);
    assert(none.push((Seq::<u8>::empty(), fs.root_node())) =~= seq![
        (Seq::<u8>::empty(), fs.root_node()),
    ]);
}

proof fn lemma_ext4_shows(fs: Ext4, at: u32, node: Node, time: int)
    requires
        crate::fs::mkext4::read_back::reads_as(fs@, at as int, node, time),
    ensures
        shows(fs, at, node),
    decreases node,
{
    if let NodeKind::Dir(ch) = node.kind {
        assert forall|k: int|
            0 <= k < ch@.len() && 0 <= #[trigger] kids_of(node)[k] < ch@.len() implies ({
            let entry = fs.dir_at(at)->Ok_0[k];
            let child = ch@[kids_of(node)[k]];
            entry.0 == child.name@ && shows(fs, entry.1, child)
        }) by {
            let entry = fs.dir_at(at)->Ok_0[k];
            let child = ch@[kids_of(node)[k]];
            lemma_ext4_shows(fs, entry.1, child, time);
        }
    }
}

/// Extracting an ext4 image gives every node of the tree that it was written
/// from, with its metadata and content.
pub proof fn ext4_extraction_is_complete(fs: Ext4, root: Node, p: Params)
    requires
        crate::fs::mkext4::read_back::writable(root, p),
        crate::fs::mkext4::read_back::good_names(root),
        crate::fs::mkext4::read_back::plain_labels(root),
        crate::fs::mkext4::read_back::good_sizes(root, p.block_size as int),
        fs@ == crate::fs::mkext4::read_back::image_of(root, p),
    ensures
        walks(
            fs,
            seq![(Seq::<u8>::empty(), fs.root_node())],
            Seq::<(Seq<u8>, u32)>::empty(),
            below(root, Seq::empty()),
        ),
{
    crate::fs::mkext4::read_back::ext4_round_trip(root, p);
    lemma_ext4_shows(fs, 2, root, p.timestamp as int);
    extraction_is_complete(fs, root);
}

proof fn lemma_erofs_shows(fs: Erofs, at: u64, node: Node, time: int)
    requires
        fs.prefixes() == Seq::<(u8, Seq<u8>)>::empty(),
        crate::fs::mkerofs::read_dirs::reads_as(fs@, at as int, node, time),
    ensures
        shows(fs, at, node),
    decreases node,
{
    if let NodeKind::Dir(ch) = node.kind {
        assert forall|k: int|
            0 <= k < ch@.len() && 0 <= #[trigger] kids_of(node)[k] < ch@.len() implies ({
            let entry = fs.dir_at(at)->Ok_0[k];
            let child = ch@[kids_of(node)[k]];
            entry.0 == child.name@ && shows(fs, entry.1, child)
        }) by {
            let entry = fs.dir_at(at)->Ok_0[k];
            let child = ch@[kids_of(node)[k]];
            lemma_erofs_shows(fs, entry.1, child, time);
        }
    }
}

/// Walking an EROFS image gives every node of the tree that it was written
/// from, with its metadata and content. The reader has found no long xattr
/// name prefixes, as there are none in such an image.
pub proof fn erofs_extraction_is_complete(fs: Erofs, root: Node, p: crate::fs::mkerofs::Params)
    requires
        crate::fs::mkerofs::read_back::writable(root, p),
        crate::fs::mkerofs::read_dirs::good_names(root),
        crate::fs::mkerofs::read_dirs::good_labels(root),
        fs@ == crate::fs::mkerofs::image_of(root, p),
        prefixes_of(fs@) == Ok::<Seq<(u8, Seq<u8>)>, Error>(fs.prefixes()),
    ensures
        walks(
            fs,
            seq![(Seq::<u8>::empty(), fs.root_node())],
            Seq::<(Seq<u8>, u64)>::empty(),
            below(root, Seq::empty()),
        ),
{
    crate::fs::mkerofs::read_dirs::erofs_round_trip(root, p);
    lemma_erofs_shows(fs, fs.root_node(), root, p.timestamp as int);
    extraction_is_complete(fs, root);
}

} // verus!
