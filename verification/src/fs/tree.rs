//! Numbers the nodes of an image tree.
//!
//! The root is item 0. Directories are visited depth-first and number all
//! their children at once, in the order of their names, so siblings are
//! consecutive.
use vstd::prelude::*;
use crate::bytes::same_bytes;
use crate::error::Error;
use crate::fs::mkext4::{Node, NodeKind};
use crate::fs::order::{has_duplicate, is_permutation, lemma_duplicate, lemma_order, names, order,
    sorted_positions};

verus! {

/// A node with the number of its parent and of its first child.
pub struct Numbered {
    pub node: Node,
    pub parent: int,
    pub first: int,
}

/// The positions of the children of `node`, in the order of their names.
pub open spec fn kids_of(node: Node) -> Seq<int> {
    match node.kind {
        NodeKind::Dir(ch) => order(names(ch@), ch@.len() as int),
        _ => Seq::empty(),
    }
}

/// The child of `node` that comes in place `k` in the order of names.
pub open spec fn kid(node: Node, k: int) -> Node {
    node.kind->Dir_0@[kids_of(node)[k]]
}

/// A name that no directory entry can have.
pub open spec fn bad_name(name: Seq<u8>, dots: bool) -> bool {
    ||| name.len() == 0
    ||| name.len() > 255
    ||| name.contains(0x2fu8)
    ||| dots && (name == seq![0x2eu8] || name == seq![0x2eu8, 0x2eu8])
}

/// The first thing wrong with the names below `node`, in the order of the
/// visit. `dots` tells whether "." and ".." are refused too.
pub open spec fn fault(node: Node, dots: bool) -> Option<Error>
    decreases node, kids_of(node).len() + 1,
{
    match node.kind {
        NodeKind::Dir(ch) => if has_duplicate(names(ch@)) {
            Some(Error::DuplicateName)
        } else if exists|i: int| 0 <= i < ch@.len() && bad_name(#[trigger] ch@[i].name@, dots) {
            Some(Error::BadFileName)
        } else {
            fault_from(node, dots, 0)
        },
        _ => None,
    }
}

/// The first thing wrong below the children of `node` from place `k` on.
pub open spec fn fault_from(node: Node, dots: bool, k: int) -> Option<Error>
    decreases node, kids_of(node).len() - k,
{
    match node.kind {
        NodeKind::Dir(ch) => if 0 <= k < kids_of(node).len() && 0 <= kids_of(node)[k] < ch@.len() {
            match fault(ch@[kids_of(node)[k]], dots) {
                Some(e) => Some(e),
                None => fault_from(node, dots, k + 1),
            }
        } else {
            None
        },
        _ => None,
    }
}

/// How many nodes lie below `node`.
pub open spec fn under(node: Node) -> nat
    decreases node, kids_of(node).len() + 1,
{
    kids_of(node).len() + under_first(node, kids_of(node).len() as int)
}

/// How many nodes lie below the first `k` children of `node`.
pub open spec fn under_first(node: Node, k: int) -> nat
    decreases node, k,
{
    match node.kind {
        NodeKind::Dir(ch) => if 0 < k <= kids_of(node).len() && 0 <= kids_of(node)[k - 1]
            < ch@.len() {
            under_first(node, k - 1) + under(ch@[kids_of(node)[k - 1]])
        } else {
            0
        },
        _ => 0,
    }
}

/// The number of the first node below child `k` of `node`, where the children
/// are numbered from `start` on.
pub open spec fn kid_first(node: Node, start: int, k: int) -> int {
    start + kids_of(node).len() + under_first(node, k)
}

/// The children of `node`, numbered from `start` on.
pub open spec fn kid_items(node: Node, index: int, start: int) -> Seq<Numbered> {
    Seq::new(
        kids_of(node).len(),
        |k: int| Numbered { node: kid(node, k), parent: index, first: kid_first(node, start, k) },
    )
}

/// All nodes below `node`, which is item `index`, numbered from `start` on.
pub open spec fn below(node: Node, index: int, start: int) -> Seq<Numbered>
    decreases node, kids_of(node).len() + 1,
{
    kid_items(node, index, start) + below_first(node, start, kids_of(node).len() as int)
}

/// All nodes below the first `k` children of `node`, which are numbered from
/// `start` on.
pub open spec fn below_first(node: Node, start: int, k: int) -> Seq<Numbered>
    decreases node, k,
{
    match node.kind {
        NodeKind::Dir(ch) => if 0 < k <= kids_of(node).len() && 0 <= kids_of(node)[k - 1]
            < ch@.len() {
            below_first(node, start, k - 1) + below(
                ch@[kids_of(node)[k - 1]],
                start + k - 1,
                kid_first(node, start, k - 1),
            )
        } else {
            Seq::empty()
        },
        _ => Seq::empty(),
    }
}

/// All nodes of the tree at `root`, in the order of their numbers.
pub open spec fn items_of(root: Node) -> Seq<Numbered> {
    seq![Numbered { node: root, parent: 0, first: 1 }] + below(root, 0, 1)
}

/// The order of the children is a permutation of them.
pub proof fn lemma_kids(node: Node)
    ensures
        node.kind is Dir ==> is_permutation(kids_of(node), node.kind->Dir_0@.len() as int),
        node.kind !is Dir ==> kids_of(node).len() == 0,
{
    if let NodeKind::Dir(ch) = node.kind {
        lemma_order(names(ch@), ch@.len() as int);
    }
}

pub proof fn lemma_below_len(node: Node, index: int, start: int)
    ensures
        below(node, index, start).len() == under(node),
    decreases node, kids_of(node).len() + 1,
{
    lemma_below_first_len(node, start, kids_of(node).len() as int);
}

pub proof fn lemma_below_first_len(node: Node, start: int, k: int)
    ensures
        below_first(node, start, k).len() == under_first(node, k),
    decreases node, k,
{
    if let NodeKind::Dir(ch) = node.kind {
        if 0 < k <= kids_of(node).len() && 0 <= kids_of(node)[k - 1] < ch@.len() {
            lemma_below_first_len(node, start, k - 1);
            lemma_below_len(
                ch@[kids_of(node)[k - 1]],
                start + k - 1,
                kid_first(node, start, k - 1),
            );
        }
    }
}

/// The nodes below item `i` of `items` stand where item `i` says.
pub open spec fn rooted(items: Seq<Numbered>, i: int) -> bool {
    let it = items[i];
    &&& i < it.first
    &&& it.first + under(it.node) <= items.len()
    &&& items.subrange(it.first, it.first + under(it.node)) == below(it.node, i, it.first)
}

/// `items` holds the nodes below `node` from number `start` on.
proof fn lemma_rooted(items: Seq<Numbered>, node: Node, index: int, start: int)
    requires
        0 <= index < start,
        start + under(node) <= items.len(),
        items.subrange(start, start + under(node)) == below(node, index, start),
    ensures
        forall|i: int| start <= i < start + under(node) ==> #[trigger] rooted(items, i),
        forall|k: int|
            0 <= k < kids_of(node).len() ==> #[trigger] items[start + k] == kid_items(
                node,
                index,
                start,
            )[k],
    decreases node, kids_of(node).len() + 1,
{
    let n = kids_of(node).len() as int;
    let b = below(node, index, start);
    lemma_below_len(node, index, start);
    assert forall|k: int| 0 <= k < n implies #[trigger] items[start + k] == kid_items(
        node,
        index,
        start,
    )[k] by {
        assert(items.subrange(start, start + under(node))[k] == items[start + k]);
    }
    assert(items.subrange(start + n, start + under(node)) =~= below_first(node, start, n)) by {
        lemma_below_first_len(node, start, n);
        assert forall|k: int| 0 <= k < under_first(node, n) implies #[trigger] items.subrange(
            start + n,
            start + under(node),
        )[k] == below_first(node, start, n)[k] by {
            assert(items.subrange(start, start + under(node))[n + k] == items[start + n + k]);
        }
    }
    lemma_kids(node);
    lemma_rooted_first(items, node, index, start, n);
}

proof fn lemma_rooted_first(items: Seq<Numbered>, node: Node, index: int, start: int, k: int)
    requires
        0 <= k <= kids_of(node).len(),
        0 <= index < start,
        node.kind is Dir ==> is_permutation(kids_of(node), node.kind->Dir_0@.len() as int),
        start + kids_of(node).len() + under_first(node, k) <= items.len(),
        items.subrange(
            start + kids_of(node).len(),
            start + kids_of(node).len() + under_first(node, k),
        ) == below_first(node, start, k),
        forall|j: int|
            0 <= j < kids_of(node).len() ==> #[trigger] items[start + j] == kid_items(
                node,
                index,
                start,
            )[j],
    ensures
        forall|i: int| start <= i < start + k ==> #[trigger] rooted(items, i),
        forall|i: int|
            start + kids_of(node).len() <= i < start + kids_of(node).len() + under_first(node, k)
                ==> #[trigger] rooted(items, i),
    decreases node, k,
{
    if k > 0 {
        let n = kids_of(node).len() as int;
        let ch = node.kind->Dir_0;
        let j = kids_of(node)[k - 1];
        assert(0 <= j < ch@.len());
        let child = ch@[j];
        let s1 = start + n + under_first(node, k - 1);
        let s2 = start + n + under_first(node, k);
        lemma_below_first_len(node, start, k - 1);
        lemma_below_len(child, start + k - 1, s1);
        let part = items.subrange(start + n, s2);
        assert(items.subrange(start + n, s1) =~= below_first(node, start, k - 1)) by {
            assert forall|i: int| 0 <= i < s1 - start - n implies #[trigger] items.subrange(start + n, s1)[i]
                == below_first(node, start, k - 1)[i] by {
                assert(part[i] == items[start + n + i]);
            }
        }
        assert(items.subrange(s1, s2) =~= below(child, start + k - 1, s1)) by {
            assert forall|i: int| 0 <= i < s2 - s1 implies #[trigger] items.subrange(s1, s2)[i] == below(
                child,
                start + k - 1,
                s1,
            )[i] by {
                assert(part[s1 - start - n + i] == items[s1 + i]);
            }
        }
        assert(items[start + (k - 1)] == kid_items(node, index, start)[k - 1]);
        assert(rooted(items, start + k - 1));
        lemma_rooted_first(items, node, index, start, k - 1);
        lemma_rooted(items, child, start + k - 1, s1);
    }
}

/// Every item of the tree stands above its own nodes, and its children are
/// its direct neighbours in the order of their names.
pub proof fn lemma_items(root: Node)
    ensures
        items_of(root).len() == 1 + under(root),
        forall|i: int| 0 <= i < items_of(root).len() ==> #[trigger] rooted(items_of(root), i),
{
    let items = items_of(root);
    lemma_below_len(root, 0, 1);
    assert(items.subrange(1, 1 + under(root) as int) =~= below(root, 0, 1));
    lemma_rooted(items, root, 0, 1);
    assert(rooted(items, 0));
}

/// The children of item `i`.
pub proof fn lemma_item_kids(items: Seq<Numbered>, i: int)
    requires
        0 <= i < items.len(),
        rooted(items, i),
    ensures
        items[i].first + kids_of(items[i].node).len() <= items.len(),
        forall|k: int|
            0 <= k < kids_of(items[i].node).len() ==> #[trigger] items[items[i].first + k]
                == kid_items(items[i].node, i, items[i].first)[k],
{
    let it = items[i];
    let sub = items.subrange(it.first, it.first + under(it.node));
    assert forall|k: int| 0 <= k < kids_of(it.node).len() implies #[trigger] items[it.first + k]
        == kid_items(it.node, i, it.first)[k] by {
        assert(sub[k] == items[it.first + k]);
    }
}

/// No name below a node without a fault is bad, and no node below it has a
/// fault.
pub proof fn lemma_clean(node: Node, index: int, start: int, dots: bool)
    requires
        fault(node, dots) is None,
    ensures
        forall|j: int|
            0 <= j < under(node) ==> fault((#[trigger] below(node, index, start)[j]).node, dots)
                is None && !bad_name(below(node, index, start)[j].node.name@, dots),
    decreases node, kids_of(node).len() + 1,
{
    let n = kids_of(node).len() as int;
    lemma_kids(node);
    lemma_below_len(node, index, start);
    lemma_below_first_len(node, start, n);
    if node.kind is Dir {
        lemma_clean_first(node, start, n, dots);
        let ch = node.kind->Dir_0;
        assert forall|j: int| 0 <= j < under(node) implies fault(
            (#[trigger] below(node, index, start)[j]).node,
            dots,
        ) is None && !bad_name(below(node, index, start)[j].node.name@, dots) by {
            if j < n {
                assert(0 <= kids_of(node)[j] < ch@.len());
                assert(!bad_name(ch@[kids_of(node)[j]].name@, dots));
            } else {
                assert(below(node, index, start)[j] == below_first(node, start, n)[j - n]);
            }
        }
    }
}

proof fn lemma_fault_from(node: Node, dots: bool, k: int)
    requires
        node.kind is Dir,
        is_permutation(kids_of(node), node.kind->Dir_0@.len() as int),
        0 <= k,
        fault_from(node, dots, k) is None,
    ensures
        forall|j: int|
            k <= j < kids_of(node).len() ==> fault(#[trigger] kid(node, j), dots) is None,
    decreases kids_of(node).len() - k,
{
    if k < kids_of(node).len() {
        assert(0 <= kids_of(node)[k] < node.kind->Dir_0@.len());
        lemma_fault_from(node, dots, k + 1);
    }
}

proof fn lemma_clean_first(node: Node, start: int, k: int, dots: bool)
    requires
        0 <= k <= kids_of(node).len(),
        node.kind is Dir,
        is_permutation(kids_of(node), node.kind->Dir_0@.len() as int),
        fault(node, dots) is None,
    ensures
        forall|j: int| 0 <= j < k ==> fault(#[trigger] kid(node, j), dots) is None,
        forall|j: int|
            0 <= j < under_first(node, k) ==> fault(
                (#[trigger] below_first(node, start, k)[j]).node,
                dots,
            ) is None && !bad_name(below_first(node, start, k)[j].node.name@, dots),
    decreases node, k,
{
    lemma_fault_from(node, dots, 0);
    if k > 0 {
        let ch = node.kind->Dir_0;
        assert(0 <= kids_of(node)[k - 1] < ch@.len());
        let child = ch@[kids_of(node)[k - 1]];
        assert(child == kid(node, k - 1));
        lemma_clean_first(node, start, k - 1, dots);
        lemma_clean(child, start + k - 1, kid_first(node, start, k - 1), dots);
        lemma_below_first_len(node, start, k - 1);
        lemma_below_len(child, start + k - 1, kid_first(node, start, k - 1));
    }
}

/// The parent of a node below `node` is `node` itself or one of the nodes
/// below it.
pub proof fn lemma_parents(node: Node, index: int, start: int)
    requires
        0 <= index < start,
    ensures
        forall|j: int|
            0 <= j < under(node) ==> 0 <= (#[trigger] below(node, index, start)[j]).parent < start
                + under(node),
    decreases node, kids_of(node).len() + 1,
{
    let n = kids_of(node).len() as int;
    lemma_kids(node);
    lemma_below_len(node, index, start);
    lemma_below_first_len(node, start, n);
    lemma_parents_first(node, start, n);
    assert forall|j: int| 0 <= j < under(node) implies 0 <= (#[trigger] below(
        node,
        index,
        start,
    )[j]).parent < start + under(node) by {
        if j >= n {
            assert(below(node, index, start)[j] == below_first(node, start, n)[j - n]);
        }
    }
}

proof fn lemma_parents_first(node: Node, start: int, k: int)
    requires
        0 <= k <= kids_of(node).len(),
        0 <= start,
        node.kind is Dir ==> is_permutation(kids_of(node), node.kind->Dir_0@.len() as int),
    ensures
        forall|j: int|
            0 <= j < under_first(node, k) ==> 0 <= (#[trigger] below_first(node, start, k)[j]).parent
                < start + kids_of(node).len() + under_first(node, k),
    decreases node, k,
{
    if k > 0 {
        let ch = node.kind->Dir_0;
        assert(0 <= kids_of(node)[k - 1] < ch@.len());
        let child = ch@[kids_of(node)[k - 1]];
        lemma_parents_first(node, start, k - 1);
        lemma_parents(child, start + k - 1, kid_first(node, start, k - 1));
        lemma_below_first_len(node, start, k - 1);
        lemma_below_len(child, start + k - 1, kid_first(node, start, k - 1));
    }
}

/// The items of a tree without a fault: no bad names, no faults, and parents
/// that are items.
pub proof fn lemma_items_clean(root: Node, dots: bool)
    requires
        fault(root, dots) is None,
    ensures
        forall|i: int|
            0 <= i < items_of(root).len() ==> fault((#[trigger] items_of(root)[i]).node, dots)
                is None && 0 <= items_of(root)[i].parent < items_of(root).len(),
        forall|i: int|
            0 < i < items_of(root).len() ==> !bad_name(
                (#[trigger] items_of(root)[i]).node.name@,
                dots,
            ),
{
    let items = items_of(root);
    lemma_below_len(root, 0, 1);
    lemma_clean(root, 0, 1, dots);
    lemma_parents(root, 0, 1);
    assert forall|i: int| 0 < i < items.len() implies #[trigger] items[i] == below(root, 0, 1)[i
        - 1] by {}
}

/// One node of the tree with its number's neighbours.
pub struct Item<'a> {
    pub node: &'a Node,
    /// Item number of the parent directory (of itself for the root).
    pub parent: usize,
    /// Item number of the first child.
    pub first: usize,
}

impl<'a> Item<'a> {
    pub open spec fn numbered(self) -> Numbered {
        Numbered { node: *self.node, parent: self.parent as int, first: self.first as int }
    }
}

pub open spec fn numbered<'a>(items: Seq<Item<'a>>) -> Seq<Numbered> {
    items.map_values(|it: Item<'a>| it.numbered())
}

pub open spec fn is_dir(node: Node) -> bool {
    node.kind is Dir
}

fn is_bad_name(name: &Vec<u8>, dots: bool) -> (r: bool)
    ensures
        r == bad_name(name@, dots),
{
    let mut i: usize = 0;
    while i < name.len()
        invariant
            i <= name.len(),
            forall|k: int| 0 <= k < i ==> name@[k] != 0x2f,
        decreases name.len() - i,
    {
        if name[i] == 0x2f {
            assert(name@.contains(0x2fu8));
            return true;
        }
        i += 1;
    }
    assert(!name@.contains(0x2fu8));
    let n: usize = name.len();
    if n == 0 || n > 255 {
        return true;
    }
    let dot: bool = n == 1 && name[0] == 0x2e;
    let dotdot: bool = n == 2 && name[0] == 0x2e && name[1] == 0x2e;
    assert(dot <==> name@ =~= seq![0x2eu8]);
    assert(dotdot <==> name@ =~= seq![0x2eu8, 0x2eu8]);
    dots && (dot || dotdot)
}

/// Checks the names in one directory, whose children come in the order
/// `kids`.
fn check_names(ch: &Vec<Node>, kids: &Vec<usize>, dots: bool) -> (r: Result<(), Error>)
    requires
        kids@.map_values(|i: usize| i as int) == order(names(ch@), ch@.len() as int),
    ensures
        r == (if has_duplicate(names(ch@)) {
            Err::<(), Error>(Error::DuplicateName)
        } else if exists|i: int| 0 <= i < ch@.len() && bad_name(#[trigger] ch@[i].name@, dots) {
            Err::<(), Error>(Error::BadFileName)
        } else {
            Ok::<(), Error>(())
        }),
{
    let ghost all = names(ch@);
    let ghost ix = order(all, ch@.len() as int);
    proof {
        lemma_order(all, ch@.len() as int);
        lemma_duplicate(all);
        assert(kids@.map_values(|i: usize| i as int).len() == kids@.len());
        assert forall|k: int| 0 <= k < kids@.len() implies kids@[k] == #[trigger] ix[k] by {
            assert(kids@.map_values(|i: usize| i as int)[k] == kids@[k]);
        }
    }
    let mut k: usize = 1;
    while k < kids.len()
        invariant
            1 <= k,
            kids.len() > 0 ==> k <= kids.len(),
            kids.len() == ch.len(),
            is_permutation(ix, ch@.len() as int),
            all == names(ch@),
            ix == order(all, ch@.len() as int),
            has_duplicate(all) <==> exists|k: int|
                0 < k < all.len() && #[trigger] all[ix[k]] == all[ix[k - 1]],
            forall|k: int| 0 <= k < kids@.len() ==> kids@[k] == #[trigger] ix[k],
            forall|j: int| 0 < j < k && j < all.len() ==> #[trigger] all[ix[j]] != all[ix[j - 1]],
        decreases kids.len() - k,
    {
        assert(kids@[k as int] == ix[k as int] && kids@[k - 1] == ix[k - 1]);
        if same_bytes(&ch[kids[k]].name, &ch[kids[k - 1]].name) {
            assert(all[ix[k as int]] == all[ix[k - 1]]);
            return Err(Error::DuplicateName);
        }
        k += 1;
    }
    assert(!has_duplicate(all));
    let mut k: usize = 0;
    while k < ch.len()
        invariant
            k <= ch.len(),
            !has_duplicate(names(ch@)),
            forall|j: int| 0 <= j < k ==> !bad_name(#[trigger] ch@[j].name@, dots),
        decreases ch.len() - k,
    {
        if is_bad_name(&ch[k].name, dots) {
            return Err(Error::BadFileName);
        }
        k += 1;
    }
    Ok(())
}

/// The children of `node` once those before place `k` know their first child.
spec fn kid_items_upto(node: Node, index: int, start: int, k: int) -> Seq<Numbered> {
    Seq::new(
        kids_of(node).len(),
        |j: int|
            Numbered {
                node: kid(node, j),
                parent: index,
                first: if j < k {
                    kid_first(node, start, j)
                } else {
                    0
                },
            },
    )
}

/// Appends everything below `node`, which is item `index`.
fn expand<'a>(items: &mut Vec<Item<'a>>, node: &'a Node, index: usize, dots: bool) -> (r: Result<
    (),
    Error,
>)
    requires
        index < old(items).len(),
        old(items)@[index as int].node == node,
    ensures
        match r {
            Ok(()) => {
                &&& fault(*node, dots) is None
                &&& numbered(final(items)@) == numbered(old(items)@).update(
                    index as int,
                    Numbered {
                        node: *node,
                        parent: old(items)@[index as int].parent as int,
                        first: old(items).len() as int,
                    },
                ) + below(*node, index as int, old(items).len() as int)
            },
            Err(e) => fault(*node, dots) == Some(e),
        },
    decreases node,
{
    let start: usize = items.len();
    let parent: usize = items[index].parent;
    let ghost before = numbered(items@);
    let ghost me = Numbered { node: *node, parent: parent as int, first: start as int };
    match &node.kind {
        NodeKind::Dir(ch) => {
            let kids: Vec<usize> = sorted_positions(ch);
            match check_names(ch, &kids, dots) {
                Ok(()) => {},
                Err(e) => {
                    return Err(e);
                },
            }
            proof {
                lemma_kids(*node);
                assert forall|k: int| 0 <= k < kids@.len() implies kids@[k] == #[trigger] kids_of(
                    *node,
                )[k] by {
                    assert(kids@.map_values(|i: usize| i as int)[k] == kids@[k]);
                }
            }
            items.set(index, Item { node, parent, first: start });
            let n: usize = kids.len();
            let mut k: usize = 0;
            while k < n
                invariant
                    k <= n,
                    n == kids.len(),
                    n == kids_of(*node).len(),
                    node.kind == NodeKind::Dir(*ch),
                    index < start,
                    before.len() == start,
                    items.len() == start + k,
                    forall|k: int| 0 <= k < kids@.len() ==> kids@[k] == #[trigger] kids_of(*node)[k],
                    forall|k: int| 0 <= k < kids@.len() ==> kids@[k] < ch@.len(),
                    numbered(items@) =~= before.update(index as int, me) + kid_items_upto(
                        *node,
                        index as int,
                        start as int,
                        0,
                    ).take(k as int),
                decreases n - k,
            {
                assert(kids@[k as int] == kids_of(*node)[k as int]);
                let ghost prev = items@;
                items.push(Item { node: &ch[kids[k]], parent: index, first: 0 });
                assert(numbered(items@) =~= numbered(prev).push(
                    kid_items_upto(*node, index as int, start as int, 0)[k as int],
                ));
                k += 1;
            }
            assert(numbered(items@) =~= before.update(index as int, me) + kid_items_upto(
                *node,
                index as int,
                start as int,
                0,
            ) + below_first(*node, start as int, 0));
            let mut k: usize = 0;
            while k < n
                invariant
                    k <= n,
                    n == kids.len(),
                    n == kids_of(*node).len(),
                    node.kind == NodeKind::Dir(*ch),
                    index < start,
                    before.len() == start,
                    start + n <= items.len(),
                    forall|k: int| 0 <= k < kids@.len() ==> kids@[k] == #[trigger] kids_of(*node)[k],
                    forall|k: int| 0 <= k < kids@.len() ==> kids@[k] < ch@.len(),
                    fault(*node, dots) == fault_from(*node, dots, k as int),
                    numbered(items@) =~= before.update(index as int, me) + kid_items_upto(
                        *node,
                        index as int,
                        start as int,
                        k as int,
                    ) + below_first(*node, start as int, k as int),
                decreases n - k,
            {
                let child: &Node = &ch[kids[k]];
                let ghost upto = before.update(index as int, me) + kid_items_upto(
                    *node,
                    index as int,
                    start as int,
                    k as int,
                ) + below_first(*node, start as int, k as int);
                let ghost len = items.len() as int;
                proof {
                    assert(kids@[k as int] == kids_of(*node)[k as int]);
                    assert(*child == kid(*node, k as int));
                    assert(upto[start + k].node == kid(*node, k as int));
                    assert(numbered(items@)[start + k] == items@[start + k].numbered());
                    lemma_below_first_len(*node, start as int, k as int);
                    assert(numbered(items@).len() == len);
                    assert(len == kid_first(*node, start as int, k as int));
                }
                match expand(items, child, start + k, dots) {
                    Ok(()) => {},
                    Err(e) => {
                        return Err(e);
                    },
                }
                k += 1;
                proof {
                    assert(numbered(items@).len() == items@.len());
                    assert(numbered(items@) =~= before.update(index as int, me) + kid_items_upto(
                        *node,
                        index as int,
                        start as int,
                        k as int,
                    ) + below_first(*node, start as int, k as int));
                }
            }
        },
        _ => {
            items.set(index, Item { node, parent, first: start });
        },
    }
    Ok(())
}

/// Numbers the tree at `root`, a directory. `dots` tells whether "." and ".."
/// are refused as names.
pub fn number<'a>(root: &'a Node, dots: bool) -> (r: Result<Vec<Item<'a>>, Error>)
    ensures
        match r {
            Ok(items) => {
                &&& root.kind is Dir
                &&& fault(*root, dots) is None
                &&& numbered(items@) == items_of(*root)
            },
            Err(e) => if root.kind is Dir {
                fault(*root, dots) == Some(e)
            } else {
                e == Error::RootNotDirectory
            },
        },
{
    match &root.kind {
        NodeKind::Dir(_) => {},
        _ => {
            return Err(Error::RootNotDirectory);
        },
    }
    let mut items: Vec<Item<'a>> = Vec::new();
    items.push(Item { node: root, parent: 0, first: 0 });
    match expand(&mut items, root, 0, dots) {
        Ok(()) => {},
        Err(e) => {
            return Err(e);
        },
    }
    assert(numbered(items@) =~= items_of(*root));
    Ok(items)
}

} // verus!
