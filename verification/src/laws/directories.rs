//! Directories of new ext4 images, their attributes, and lists by name.
use vstd::prelude::*;
use crate::bytes::{bytes16, bytes32, le16, le32, lemma_bytes16, lemma_bytes32, len_bytes16,
    len_bytes32};
use crate::fs::mkerofs::layout::file_type;
use crate::fs::mkext4::dirs::{lemma_content_len, names_fit, rec_bytes, with_dots, Dirent};
use crate::fs::mkext4::inode::{dir_data, entries_of, ino_of};
use crate::fs::mkext4::xattrs::{hash_of, name_hash, value_hash, value_word};
use crate::fs::mkext4::{Node, NodeKind};
use crate::fs::order::{before, latest, lemma_before, lemma_place, picked, place};
use crate::fs::tree::Numbered;

verus! {

broadcast use {len_bytes16, len_bytes32};

/// An entry of a directory has the inode, its own length, the length of the
/// name, the type of the file and the name.
pub proof fn entries_are_written(e: Dirent, rec: int)
    requires
        0 <= e.ino <= u32::MAX,
        8 + e.name.len() <= rec <= 0xFFFF,
        e.name.len() <= 255,
    ensures
        ({
            let b = rec_bytes(e, rec);
            &&& b.len() == rec
            &&& le32(b, 0) == e.ino
            &&& le16(b, 4) == rec
            &&& b[6] == e.name.len()
            &&& b[7] == e.ftype
            &&& b.subrange(8, 8 + e.name.len() as int) == e.name
        }),
{
    let b = rec_bytes(e, rec);
    lemma_bytes32(e.ino);
    lemma_bytes16(rec);
    assert(le32(b, 0) == le32(bytes32(e.ino), 0));
    assert(le16(b, 4) == le16(bytes16(rec), 0));
    assert(b.subrange(8, 8 + e.name.len() as int) =~= e.name);
}

/// The type in an entry: a file 1, a directory 2 and a symlink 7. A directory
/// starts with itself and its parent, which are directories.
pub proof fn entries_have_types(node: Node, ino: int, parent: int, kids: Seq<Dirent>)
    ensures
        file_type(node) == match node.kind {
            NodeKind::File { .. } => 1u8,
            NodeKind::Dir(_) => 2,
            NodeKind::Symlink(_) => 7,
        },
        ({
            let all = with_dots(ino, parent, kids);
            &&& all.len() == 2 + kids.len()
            &&& all[0] == (Dirent { name: seq![0x2eu8], ino, ftype: 2 })
            &&& all[1] == (Dirent { name: seq![0x2eu8, 0x2eu8], ino: parent, ftype: 2 })
            &&& all.skip(2) == kids
        }),
{
    assert(with_dots(ino, parent, kids).skip(2) =~= kids);
}

/// The root has inode 2 and lost+found inode 11; the others have the inodes
/// behind it, and no two have the same.
pub proof fn inodes_are_numbered(lf: int, i: int, j: int)
    requires
        0 < lf,
        0 <= i,
        0 <= j,
        i != j,
    ensures
        ino_of(lf, 0) == 2,
        ino_of(lf, lf) == 11,
        0 < i && i != lf ==> ino_of(lf, i) > 11,
        ino_of(lf, i) != ino_of(lf, j),
{
}

/// lost+found has room for many entries from the start.
pub proof fn lost_found_has_room(items: Seq<Numbered>, lf: int, bs: int)
    requires
        264 <= bs,
        names_fit(entries_of(items, lf, lf)),
    ensures
        dir_data(items, lf, lf, bs).len() >= 16384,
        dir_data(items, lf, lf, bs).len() as int % bs == 0,
{
    reveal(dir_data);
    lemma_content_len(entries_of(items, lf, lf), bs, 16384);
}

/// The hash of an attribute: each byte of the name goes in with a turn of five
/// bits, then each word of the value with a turn of sixteen.
pub proof fn attributes_are_hashed(name: Seq<u8>, x: u8, value: Seq<u8>, start: u32, n: int)
    requires
        0 <= n,
    ensures
        name_hash(Seq::empty(), 0) == 0,
        ({
            let h = name_hash(name, name.len() as int);
            let turned = ((h % 0x800_0000) * 32 + h / 0x800_0000) as u32;
            name_hash(name.push(x), name.len() as int + 1) == turned ^ x as u32
        }),
        ({
            let h = value_hash(start, value, n);
            let turned = ((h % 0x1_0000) * 0x1_0000 + h / 0x1_0000) as u32;
            value_hash(start, value, n + 1) == turned ^ value_word(value, n)
        }),
        hash_of(name, value) == value_hash(
            name_hash(name, name.len() as int),
            value,
            (value.len() as int + 3) / 4,
        ),
{
    let h = name_hash(name, name.len() as int);
    lemma_name_prefix(name, x, name.len() as int);
    let t: u32 = ((h % 0x800_0000) * 32 + h / 0x800_0000) as u32;
    assert((h << 5) ^ (h >> 27) == t) by (bit_vector)
        requires
            t == (h % 0x800_0000) * 32 + h / 0x800_0000,
    ;
    let v = value_hash(start, value, n);
    let u: u32 = ((v % 0x1_0000) * 0x1_0000 + v / 0x1_0000) as u32;
    assert((v << 16) ^ (v >> 16) == u) by (bit_vector)
        requires
            u == (v % 0x1_0000) * 0x1_0000 + v / 0x1_0000,
    ;
}

proof fn lemma_name_prefix(name: Seq<u8>, x: u8, n: int)
    requires
        0 <= n <= name.len(),
    ensures
        name_hash(name.push(x), n) == name_hash(name, n),
    decreases n,
{
    if n > 0 {
        lemma_name_prefix(name, x, n - 1);
        assert(name.push(x)[n - 1] == name[n - 1]);
    }
}

/// The names at some positions come one behind the other in their order.
pub open spec fn are_in_order(names: Seq<Seq<u8>>, ix: Seq<int>) -> bool {
    forall|j: int, k: int|
        0 <= j < k < ix.len() ==> before(names[#[trigger] ix[j]], names[#[trigger] ix[k]])
}

/// No name at one of the positions comes again among the first `n`.
pub open spec fn are_last(names: Seq<Seq<u8>>, ix: Seq<int>, n: int) -> bool {
    forall|k: int, i: int|
        0 <= k < ix.len() && ix[k] < i < n ==> names[#[trigger] ix[k]] != #[trigger] names[i]
}

/// A name is at one of the positions.
pub open spec fn is_there(names: Seq<Seq<u8>>, ix: Seq<int>, x: Seq<u8>) -> bool {
    exists|k: int| 0 <= k < ix.len() && names[#[trigger] ix[k]] == x
}

/// Each of the first `n` names is at one of the positions.
pub open spec fn are_there(names: Seq<Seq<u8>>, ix: Seq<int>, n: int) -> bool {
    forall|i: int| 0 <= i < n ==> is_there(names, ix, #[trigger] names[i])
}

/// What stands left of place `at` comes before `x`, but for `x` itself right
/// before it; the rest comes behind.
spec fn parts_at(names: Seq<Seq<u8>>, ix: Seq<int>, at: int, x: Seq<u8>, same: bool) -> bool {
    &&& 0 <= at <= ix.len()
    &&& same ==> at > 0 && names[ix[at - 1]] == x
    &&& forall|k: int|
        0 <= k < at && !(same && k == at - 1) ==> before(names[#[trigger] ix[k]], x)
    &&& forall|k: int| at <= k < ix.len() ==> before(x, names[#[trigger] ix[k]])
}

proof fn lemma_parts_at(names: Seq<Seq<u8>>, ix: Seq<int>, x: Seq<u8>)
    requires
        are_in_order(names, ix),
    ensures
        ({
            let at = place(picked(names, ix), ix.len() as int, x);
            parts_at(names, ix, at, x, at > 0 && names[ix[at - 1]] == x)
        }),
{
    let s = picked(names, ix);
    assert forall|j: int, k: int| 0 <= j < k < s.len() implies !before(
        #[trigger] s[k],
        #[trigger] s[j],
    ) by {
        assert(before(names[ix[j]], names[ix[k]]));
        lemma_before(names[ix[j]], names[ix[k]], x);
    }
    lemma_place(s, s.len() as int, x);
    let at = place(s, s.len() as int, x);
    let same = at > 0 && names[ix[at - 1]] == x;
    assert forall|k: int| 0 <= k < at && !(same && k == at - 1) implies before(
        names[#[trigger] ix[k]],
        x,
    ) by {
        assert(!before(x, s[k]));
        lemma_before(s[k], x, x);
        if names[ix[k]] == x {
            assert(k < at - 1);
            assert(before(names[ix[k]], names[ix[at - 1]]));
            assert(!before(x, s[at - 1]));
        }
    }
    assert forall|k: int| at <= k < ix.len() implies before(x, names[#[trigger] ix[k]]) by {
        assert(before(x, s[k]));
    }
}

proof fn lemma_kept_order(names: Seq<Seq<u8>>, ix: Seq<int>, at: int, m: int, same: bool)
    requires
        are_in_order(names, ix),
        parts_at(names, ix, at, names[m], same),
    ensures
        are_in_order(
            names,
            if same {
                ix.update(at - 1, m)
            } else {
                ix.insert(at, m)
            },
        ),
{
    let new = if same {
        ix.update(at - 1, m)
    } else {
        ix.insert(at, m)
    };
    assert forall|j: int, k: int| 0 <= j < k < new.len() implies before(
        names[#[trigger] new[j]],
        names[#[trigger] new[k]],
    ) by {
        let a = if same || j < at {
            j
        } else {
            j - 1
        };
        let b = if same || k < at {
            k
        } else {
            k - 1
        };
        let own = if same {
            at - 1
        } else {
            at
        };
        if j != own && k != own {
            assert(new[j] == ix[a] && new[k] == ix[b]);
            assert(before(names[ix[a]], names[ix[b]]));
        } else if j == own {
            assert(new[k] == ix[b]);
            assert(before(names[m], names[ix[b]]));
        } else {
            assert(new[j] == ix[a]);
            assert(before(names[ix[a]], names[m]));
        }
    }
}

proof fn lemma_kept_last(names: Seq<Seq<u8>>, ix: Seq<int>, at: int, m: int, same: bool)
    requires
        are_last(names, ix, m),
        parts_at(names, ix, at, names[m], same),
    ensures
        are_last(
            names,
            if same {
                ix.update(at - 1, m)
            } else {
                ix.insert(at, m)
            },
            m + 1,
        ),
{
    let new = if same {
        ix.update(at - 1, m)
    } else {
        ix.insert(at, m)
    };
    let own = if same {
        at - 1
    } else {
        at
    };
    assert forall|k: int, i: int| 0 <= k < new.len() && new[k] < i < m + 1 implies names[
        #[trigger] new[k]] != #[trigger] names[i] by {
        if k != own {
            let a = if same || k < at {
                k
            } else {
                k - 1
            };
            assert(new[k] == ix[a]);
            if i < m {
                assert(names[ix[a]] != names[i]);
            } else {
                lemma_before(names[m], names[m], names[m]);
                if a < at {
                    assert(before(names[ix[a]], names[m]));
                } else {
                    assert(before(names[m], names[ix[a]]));
                }
            }
        }
    }
}

proof fn lemma_kept_there(names: Seq<Seq<u8>>, ix: Seq<int>, at: int, m: int, same: bool)
    requires
        0 <= m,
        are_there(names, ix, m),
        0 <= at <= ix.len(),
        same ==> at > 0 && names[ix[at - 1]] == names[m],
    ensures
        are_there(
            names,
            if same {
                ix.update(at - 1, m)
            } else {
                ix.insert(at, m)
            },
            m + 1,
        ),
{
    let new = if same {
        ix.update(at - 1, m)
    } else {
        ix.insert(at, m)
    };
    assert forall|i: int| 0 <= i < m + 1 implies is_there(names, new, #[trigger] names[i]) by {
        if i == m {
            let own = if same {
                at - 1
            } else {
                at
            };
            assert(new[own] == m);
        } else {
            assert(is_there(names, ix, names[i]));
            let k = choose|k: int| 0 <= k < ix.len() && names[#[trigger] ix[k]] == names[i];
            let at_new = if same || k < at {
                k
            } else {
                k + 1
            };
            assert(names[new[at_new]] == names[i]);
        }
    }
}

/// A list by name has every name once, in order, and of equal names the last.
pub proof fn latest_names_are_kept(names: Seq<Seq<u8>>, n: int)
    requires
        0 <= n <= names.len(),
    ensures
        are_in_order(names, latest(names, n)),
        are_last(names, latest(names, n), n),
        are_there(names, latest(names, n), n),
    decreases n,
{
    if n > 0 {
        latest_names_are_kept(names, n - 1);
        let ix = latest(names, n - 1);
        let x = names[n - 1];
        lemma_parts_at(names, ix, x);
        let at = place(picked(names, ix), ix.len() as int, x);
        let same = at > 0 && names[ix[at - 1]] == x;
        lemma_kept_order(names, ix, at, n - 1, same);
        lemma_kept_last(names, ix, at, n - 1, same);
        lemma_kept_there(names, ix, at, n - 1, same);
    }
}

} // verus!
