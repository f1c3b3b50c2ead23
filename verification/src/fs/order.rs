//! The order of directory entries: names compared byte by byte.
use vstd::prelude::*;
use crate::bytes::same_bytes;
use crate::fs::mkext4::Node;

verus! {

/// From byte `i` on, name `a` sorts before name `b`.
pub open spec fn before_from(a: Seq<u8>, b: Seq<u8>, i: int) -> bool
    decreases b.len() - i,
{
    if i >= b.len() {
        false
    } else if i >= a.len() {
        true
    } else if a[i] != b[i] {
        a[i] < b[i]
    } else {
        before_from(a, b, i + 1)
    }
}

/// Name `a` sorts before name `b`.
pub open spec fn before(a: Seq<u8>, b: Seq<u8>) -> bool {
    before_from(a, b, 0)
}

proof fn lemma_before_from(a: Seq<u8>, b: Seq<u8>, c: Seq<u8>, i: int)
    requires
        0 <= i,
    ensures
        !before_from(a, a, i),
        before_from(a, b, i) && before_from(b, c, i) ==> before_from(a, c, i),
    decreases a.len() + b.len() + c.len() - i,
{
    if i <= a.len() + b.len() + c.len() {
        if i < a.len() + b.len() + c.len() {
            lemma_before_from(a, b, c, i + 1);
        }
    }
}

proof fn lemma_total_from(a: Seq<u8>, b: Seq<u8>, i: int)
    requires
        0 <= i <= a.len(),
        i <= b.len(),
        forall|k: int| 0 <= k < i ==> a[k] == b[k],
    ensures
        before_from(a, b, i) || before_from(b, a, i) || a == b,
    decreases a.len() - i,
{
    if i == a.len() || i == b.len() {
        if a.len() == b.len() {
            assert(a =~= b);
        }
    } else if a[i] == b[i] {
        lemma_total_from(a, b, i + 1);
    }
}

/// The order of names is a strict total order.
pub proof fn lemma_before(a: Seq<u8>, b: Seq<u8>, c: Seq<u8>)
    ensures
        !before(a, a),
        before(a, b) && before(b, c) ==> before(a, c),
        before(a, b) ==> !before(b, a),
        before(a, b) || before(b, a) || a == b,
{
    lemma_before_from(a, b, c, 0);
    lemma_before_from(a, b, a, 0);
    lemma_total_from(a, b, 0);
}

/// Whether `a` sorts before `b`.
pub fn is_before(a: &[u8], b: &[u8]) -> (r: bool)
    ensures
        r == before(a@, b@),
{
    let mut i: usize = 0;
    while i < a.len() && i < b.len()
        invariant
            i <= a.len(),
            i <= b.len(),
            before(a@, b@) == before_from(a@, b@, i as int),
        decreases a.len() - i,
    {
        if a[i] != b[i] {
            return a[i] < b[i];
        }
        i += 1;
    }
    i < b.len()
}

/// The names of `nodes`.
pub open spec fn names(nodes: Seq<Node>) -> Seq<Seq<u8>> {
    nodes.map_values(|n: Node| n.name@)
}

/// Where a name goes in the list `sorted[0..n]`: after everything that does
/// not sort behind it.
pub open spec fn place(sorted: Seq<Seq<u8>>, n: int, name: Seq<u8>) -> int
    decreases n,
{
    if n <= 0 {
        0
    } else if before(name, sorted[n - 1]) {
        place(sorted, n - 1, name)
    } else {
        n
    }
}

/// The names picked by the positions in `ix`.
pub open spec fn picked(names: Seq<Seq<u8>>, ix: Seq<int>) -> Seq<Seq<u8>> {
    ix.map_values(|i: int| names[i])
}

/// The positions of the first `n` names, in the order of the names; equal
/// names keep their order.
pub open spec fn order(names: Seq<Seq<u8>>, n: int) -> Seq<int>
    decreases n,
{
    if n <= 0 {
        Seq::empty()
    } else {
        let ix = order(names, n - 1);
        ix.insert(place(picked(names, ix), n - 1, names[n - 1]), n - 1)
    }
}

/// Every position below `n` occurs in `ix` exactly once.
pub open spec fn is_permutation(ix: Seq<int>, n: int) -> bool {
    &&& ix.len() == n
    &&& forall|k: int| 0 <= k < n ==> 0 <= #[trigger] ix[k] < n
    &&& forall|j: int, k: int| 0 <= j < k < n ==> #[trigger] ix[j] != #[trigger] ix[k]
    &&& forall|i: int| 0 <= i < n ==> #[trigger] ix.contains(i)
}

/// No name sorts before one that stands left of it.
pub open spec fn in_order(names: Seq<Seq<u8>>) -> bool {
    forall|j: int, k: int|
        0 <= j < k < names.len() ==> !before(#[trigger] names[k], #[trigger] names[j])
}

pub proof fn lemma_place(sorted: Seq<Seq<u8>>, n: int, name: Seq<u8>)
    requires
        0 <= n <= sorted.len(),
        in_order(sorted),
    ensures
        0 <= place(sorted, n, name) <= n,
        forall|k: int| place(sorted, n, name) <= k < n ==> before(name, #[trigger] sorted[k]),
        forall|k: int| 0 <= k < place(sorted, n, name) ==> !before(name, #[trigger] sorted[k]),
    decreases n,
{
    if n > 0 {
        if before(name, sorted[n - 1]) {
            lemma_place(sorted, n - 1, name);
        } else {
            assert forall|k: int| 0 <= k < n implies !before(name, #[trigger] sorted[k]) by {
                if before(name, sorted[k]) {
                    if k < n - 1 {
                        assert(!before(sorted[n - 1], sorted[k]));
                        lemma_before(sorted[k], sorted[n - 1], name);
                        lemma_before(name, sorted[k], sorted[n - 1]);
                    }
                }
            }
        }
    }
}

/// `order` sorts: it is a permutation of the positions, and the names that
/// it picks are in order.
pub proof fn lemma_order(names: Seq<Seq<u8>>, n: int)
    requires
        0 <= n <= names.len(),
    ensures
        is_permutation(order(names, n), n),
        in_order(picked(names, order(names, n))),
    decreases n,
{
    if n > 0 {
        lemma_order(names, n - 1);
        let ix = order(names, n - 1);
        let sorted = picked(names, ix);
        let name = names[n - 1];
        let at = place(sorted, n - 1, name);
        lemma_place(sorted, n - 1, name);
        let new = ix.insert(at, n - 1);
        assert(new == order(names, n));
        assert forall|i: int| 0 <= i < n implies #[trigger] new.contains(i) by {
            if i == n - 1 {
                assert(new[at] == i);
            } else {
                assert(ix.contains(i));
                let k = choose|k: int| 0 <= k < ix.len() && ix[k] == i;
                if k < at {
                    assert(new[k] == i);
                } else {
                    assert(new[k + 1] == i);
                }
            }
        }
        assert forall|j: int, k: int| 0 <= j < k < n implies #[trigger] new[j]
            != #[trigger] new[k] by {
            let jj = if j < at { j } else { j - 1 };
            let kk = if k < at { k } else { k - 1 };
            if j != at && k != at {
                assert(ix[jj] != ix[kk]);
            }
        }
        let got = picked(names, new);
        assert forall|j: int, k: int| 0 <= j < k < n implies !before(
            #[trigger] got[k],
            #[trigger] got[j],
        ) by {
            let jj = if j < at { j } else { j - 1 };
            let kk = if k < at { k } else { k - 1 };
            if j == at {
                assert(before(name, sorted[kk]));
                lemma_before(name, sorted[kk], name);
            } else if k == at {
                assert(!before(name, sorted[jj]));
            } else {
                assert(!before(sorted[kk], sorted[jj]));
            }
        }
    }
}

/// Two of the names are the same.
pub open spec fn has_duplicate(names: Seq<Seq<u8>>) -> bool {
    exists|i: int, j: int|
        0 <= i < j < names.len() && #[trigger] names[i] == #[trigger] names[j]
}

/// Two neighbours in a sorted list are equal exactly when two names of the
/// list are.
pub proof fn lemma_duplicate(names: Seq<Seq<u8>>)
    ensures
        has_duplicate(names) <==> exists|k: int|
            0 < k < names.len() && #[trigger] names[order(names, names.len() as int)[k]]
                == names[order(names, names.len() as int)[k - 1]],
{
    let n = names.len() as int;
    let ix = order(names, n);
    let sorted = picked(names, ix);
    lemma_order(names, n);
    if exists|k: int| 0 < k < n && #[trigger] names[ix[k]] == names[ix[k - 1]] {
        let k = choose|k: int| 0 < k < n && #[trigger] names[ix[k]] == names[ix[k - 1]];
        assert(ix[k] != ix[k - 1]);
        let i = if ix[k] < ix[k - 1] { ix[k] } else { ix[k - 1] };
        let j = if ix[k] < ix[k - 1] { ix[k - 1] } else { ix[k] };
        assert(names[i] == names[j]);
    }
    if has_duplicate(names) {
        let (i, j) = choose|i: int, j: int|
            0 <= i < j < n && #[trigger] names[i] == #[trigger] names[j];
        assert(ix.contains(i) && ix.contains(j));
        let a = choose|k: int| 0 <= k < n && ix[k] == i;
        let b = choose|k: int| 0 <= k < n && ix[k] == j;
        let lo = if a < b { a } else { b };
        let hi = if a < b { b } else { a };
        assert(sorted[lo] == sorted[hi]);
        assert(!before(sorted[lo + 1], sorted[lo]));
        if lo + 1 < hi {
            assert(!before(sorted[hi], sorted[lo + 1]));
        }
        lemma_before(sorted[lo], sorted[lo + 1], sorted[hi]);
        assert(names[ix[lo + 1]] == names[ix[lo + 1 - 1]]);
    }
}

/// Something with a name.
pub trait Named {
    spec fn label(&self) -> Seq<u8>;

    fn name(&self) -> (r: &Vec<u8>)
        ensures
            r@ == self.label(),
    ;
}

impl Named for Node {
    open spec fn label(&self) -> Seq<u8> {
        self.name@
    }

    fn name(&self) -> &Vec<u8> {
        &self.name
    }
}

impl<T> Named for (Vec<u8>, T) {
    open spec fn label(&self) -> Seq<u8> {
        self.0@
    }

    fn name(&self) -> &Vec<u8> {
        &self.0
    }
}

/// The names of some things.
pub open spec fn labels<T: Named>(items: Seq<T>) -> Seq<Seq<u8>> {
    items.map_values(|t: T| t.label())
}

/// The positions of things, in the order of their names.
pub fn by_name<T: Named>(items: &Vec<T>) -> (r: Vec<usize>)
    ensures
        r@.map_values(|i: usize| i as int) == order(labels(items@), items.len() as int),
        forall|k: int| 0 <= k < r.len() ==> #[trigger] r@[k] < items.len(),
        r.len() == items.len(),
{
    let mut ix: Vec<usize> = Vec::new();
    let mut n: usize = 0;
    let ghost all = labels(items@);
    while n < items.len()
        invariant
            n <= items.len(),
            all == labels(items@),
            ix@.map_values(|i: usize| i as int) == order(all, n as int),
            ix.len() == n,
            forall|k: int| 0 <= k < n ==> #[trigger] ix@[k] < n,
        decreases items.len() - n,
    {
        let ghost sorted = picked(all, order(all, n as int));
        let mut at: usize = n;
        assert(forall|k: int|
            0 <= k < n ==> #[trigger] sorted[k] == items@[ix@.map_values(|i: usize| i as int)[k]].label());
        while at > 0 && is_before(items[n].name(), items[ix[at - 1]].name())
            invariant
                at <= n < items.len(),
                ix.len() == n,
                sorted.len() == n,
                forall|k: int| 0 <= k < n ==> #[trigger] ix@[k] < n,
                forall|k: int| 0 <= k < n ==> #[trigger] sorted[k] == items@[ix@[k] as int].label(),
                place(sorted, n as int, items@[n as int].label()) == place(
                    sorted,
                    at as int,
                    items@[n as int].label(),
                ),
            decreases at,
        {
            at -= 1;
        }
        let ghost before_ix = ix@;
        ix.insert(at, n);
        n += 1;
        assert(ix@.map_values(|i: usize| i as int) =~= order(all, n as int));
    }
    ix
}

/// The positions of `nodes` in the order of their names.
pub fn sorted_positions(nodes: &Vec<Node>) -> (r: Vec<usize>)
    ensures
        r@.map_values(|i: usize| i as int) == order(names(nodes@), nodes.len() as int),
        forall|k: int| 0 <= k < r.len() ==> #[trigger] r@[k] < nodes.len(),
        r.len() == nodes.len(),
{
    assert(labels(nodes@) =~= names(nodes@));
    by_name(nodes)
}

/// The positions of the first `n` names, in the order of the names; of equal
/// names only the last one.
pub open spec fn latest(names: Seq<Seq<u8>>, n: int) -> Seq<int>
    decreases n,
{
    if n <= 0 {
        Seq::empty()
    } else {
        let ix = latest(names, n - 1);
        let at = place(picked(names, ix), ix.len() as int, names[n - 1]);
        if at > 0 && names[ix[at - 1]] == names[n - 1] {
            ix.update(at - 1, n - 1)
        } else {
            ix.insert(at, n - 1)
        }
    }
}

pub open spec fn positions_view(ix: Seq<usize>) -> Seq<int> {
    Seq::new(ix.len(), |k: int| ix[k] as int)
}

/// The positions of things in the order of their names; of those with the
/// same name only the last one.
pub fn latest_by_name<T: Named>(items: &Vec<T>) -> (r: Vec<usize>)
    ensures
        positions_view(r@) == latest(labels(items@), items@.len() as int),
        forall|k: int| 0 <= k < r@.len() ==> #[trigger] r@[k] < items@.len(),
{
    let ghost all = labels(items@);
    let n: usize = items.len();
    let mut ix: Vec<usize> = Vec::new();
    let mut i: usize = 0;
    assert(positions_view(ix@) =~= latest(all, 0));
    while i < n
        invariant
            n == items@.len(),
            all == labels(items@),
            i <= n,
            positions_view(ix@) == latest(all, i as int),
            forall|k: int| 0 <= k < ix@.len() ==> #[trigger] ix@[k] < i,
        decreases n - i,
    {
        let ghost sorted = picked(all, positions_view(ix@));
        let ghost was = ix@;
        let mut at: usize = ix.len();
        assert forall|k: int| 0 <= k < ix@.len() implies #[trigger] sorted[k] == items@[ix@[k] as int].label() by {}
        while at > 0 && is_before(items[i].name(), items[ix[at - 1]].name())
            invariant
                i < n == items@.len(),
                at <= ix@.len() == sorted.len(),
                forall|k: int| 0 <= k < ix@.len() ==> #[trigger] ix@[k] < i,
                forall|k: int|
                    0 <= k < ix@.len() ==> #[trigger] sorted[k] == items@[ix@[k] as int].label(),
                place(sorted, sorted.len() as int, items@[i as int].label()) == place(
                    sorted,
                    at as int,
                    items@[i as int].label(),
                ),
            decreases at,
        {
            at -= 1;
        }
        if at > 0 {
            assert(sorted[at - 1] == items@[ix@[at - 1] as int].label());
            assert(all[positions_view(ix@)[at - 1]] == items@[ix@[at - 1] as int].label());
        }
        if at > 0 && same_bytes(items[ix[at - 1]].name(), items[i].name()) {
            ix.set(at - 1, i);
            assert(positions_view(ix@) =~= positions_view(was).update(at - 1, i as int));
        } else {
            ix.insert(at, i);
            assert(positions_view(ix@) =~= positions_view(was).insert(at as int, i as int));
        }
        i += 1;
    }
    ix
}

} // verus!
