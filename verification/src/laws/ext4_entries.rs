//! What is read of an ext4 image beside the blocks of files: inodes, directory
//! entries, content in inodes, and attributes.
use vstd::prelude::*;
use crate::bytes::{le16, le32};
use crate::error::Error;
use crate::fs::ext4::{data_of, dirents_from, feature_name, feature_names, inline_of, inode_in,
    system_data, xattrs_of, InodeView};
use crate::fs::{capability_mask, kind_of, security_of, Kind};
use crate::text::{text_of, until_nul};

verus! {

/// The kind of a file is in the four high bits of its mode.
pub proof fn kinds_are_in_modes(m: int)
    requires
        0 <= m < 0x1000,
    ensures
        kind_of(0x4000 + m) == Ok::<Kind, Error>(Kind::Dir),
        kind_of(0x8000 + m) == Ok::<Kind, Error>(Kind::File),
        kind_of(0xA000 + m) == Ok::<Kind, Error>(Kind::Symlink),
        kind_of(0x2000 + m) == Ok::<Kind, Error>(Kind::CharDevice),
        kind_of(0x6000 + m) == Ok::<Kind, Error>(Kind::BlockDevice),
        kind_of(0x1000 + m) == Ok::<Kind, Error>(Kind::Fifo),
        kind_of(0xC000 + m) == Ok::<Kind, Error>(Kind::Socket),
        kind_of(m) == Err::<Kind, Error>(Error::UnknownFileType),
        kind_of(0xF000 + m) == Err::<Kind, Error>(Error::UnknownFileType),
{
}

/// The fields of an inode are read from their places. Times before 1970 are
/// negative, and two bits of the extra fields extend them.
pub proof fn inodes_are_read(image: Seq<u8>, b: Seq<u8>)
    requires
        b.len() >= 128,
    ensures
        ({
            let i = inode_in(image, b);
            let seconds = le32(b, 16);
            let signed = if seconds < 0x8000_0000 {
                seconds
            } else {
                seconds - 0x1_0000_0000
            };
            let extra = if b.len() >= 130 {
                le16(b, 128)
            } else {
                0
            };
            &&& i.mode == le16(b, 0)
            &&& i.uid == le16(b, 2) + 0x1_0000 * le16(b, 120)
            &&& i.gid == le16(b, 24) + 0x1_0000 * le16(b, 122)
            &&& i.size == le32(b, 4) + 0x1_0000_0000 * le32(b, 108)
            &&& i.flags as int == le32(b, 32)
            &&& i.block == b.subrange(40, 100)
            &&& i.file_acl == le32(b, 104) + 0x1_0000_0000 * le16(b, 118)
            &&& extra < 12 || 128 + extra > b.len() ==> i.mtime == signed
            &&& 12 <= extra && 128 + extra <= b.len() ==> i.mtime == signed + 0x1_0000_0000 * (le32(
                b,
                136,
            ) % 4)
            &&& b.len() >= 130 && 132 + extra <= b.len() ==> i.xattr_area == b.skip(128 + extra)
            &&& b.len() < 130 || 132 + extra > b.len() ==> i.xattr_area.len() == 0
        }),
{
}

proof fn lemma_dirents_shift(a: Seq<u8>, b: Seq<u8>, filetype: bool, i: int)
    requires
        0 <= i,
    ensures
        dirents_from(a + b, filetype, a.len() + i) == dirents_from(b, filetype, i),
    decreases
        (if b.len() > i {
            b.len() - i
        } else {
            0
        }),
{
    let s = a + b;
    if i + 8 <= b.len() {
        let n = a.len() as int;
        assert(s[n + i] == b[i] && s[n + i + 1] == b[i + 1] && s[n + i + 2] == b[i + 2]
            && s[n + i + 3]
            == b[i + 3] && s[n + i + 4] == b[i + 4] && s[n + i + 5] == b[i + 5] && s[n + i + 6]
                == b[i
            + 6] && s[n + i + 7] == b[i + 7]);
        let rec_len = le16(b, i + 4);
        let name_len = if filetype {
            b[i + 6] as int
        } else {
            le16(b, i + 6)
        };
        if rec_len >= 8 && i + rec_len <= b.len() {
            lemma_dirents_shift(a, b, filetype, i + rec_len);
            if 8 + name_len <= rec_len {
                assert(s.subrange(n + i + 8, n + i + 8 + name_len) =~= b.subrange(
                    i + 8,
                    i + 8 + name_len,
                ));
            }
        }
    }
}

/// An entry of a directory adds its name and inode, unless it is unused, is `.`
/// or `..`, or has a name that is longer than the entry; the entries behind it
/// are read in any case.
pub proof fn entries_are_read(e: Seq<u8>, rest: Seq<u8>, filetype: bool)
    requires
        e.len() >= 8,
        le16(e, 4) == e.len(),
    ensures
        ({
            let ino = le32(e, 0);
            let n = if filetype {
                e[6] as int
            } else {
                le16(e, 6)
            };
            let name = e.subrange(8, 8 + n);
            dirents_from(e + rest, filetype, 0) == if ino != 0 && 8 + n <= e.len() && name != seq![
                0x2eu8,
            ] && name != seq![0x2eu8, 0x2eu8] {
                seq![(name, ino as u32)] + dirents_from(rest, filetype, 0)
            } else {
                dirents_from(rest, filetype, 0)
            }
        }),
        dirents_from(Seq::empty(), filetype, 0).len() == 0,
{
    let s = e + rest;
    assert(s[0] == e[0] && s[1] == e[1] && s[2] == e[2] && s[3] == e[3] && s[4] == e[4] && s[5]
        == e[5] && s[6] == e[6] && s[7] == e[7]);
    lemma_dirents_shift(e, rest, filetype, 0);
    let n = if filetype {
        e[6] as int
    } else {
        le16(e, 6)
    };
    if 8 + n <= e.len() {
        assert(s.subrange(8, 8 + n) =~= e.subrange(8, 8 + n));
    }
    let none = Seq::<(Seq<u8>, u32)>::empty();
    assert(none + dirents_from(rest, filetype, 0) =~= dirents_from(rest, filetype, 0));
}

/// An encrypted file is refused. Content in an inode is its first sixty bytes,
/// then the attribute `system.data`, and no more than the size.
pub proof fn content_in_inodes(image: Seq<u8>, inode: InodeView, path: Seq<int>, q: int)
    requires
        inode.block.len() == 60,
        0 <= q < inode.size,
    ensures
        inode.flags & 0x800 != 0 ==> data_of(image, inode, path) == Err::<Seq<u8>, Error>(
            Error::EncryptedFile,
        ),
        inode.flags & 0x800 == 0 && inode.flags & 0x1000_0000 != 0 ==> match xattrs_of(
            image,
            inode,
            path,
        ) {
            Ok(x) => {
                let v = system_data(x, 0);
                let d = data_of(image, inode, path)->Ok_0;
                &&& data_of(image, inode, path) is Ok
                &&& d.len() == if inode.size < 60 + v.len() {
                    inode.size
                } else {
                    60 + v.len() as int
                }
                &&& q < 60 ==> d[q] == inode.block[q]
                &&& 60 <= q < 60 + v.len() ==> d[q] == v[q - 60]
            },
            Err(e) => data_of(image, inode, path) == Err::<Seq<u8>, Error>(e),
        },
{
    reveal(data_of);
    reveal(inline_of);
}

/// The value of `system.data` is that of the first attribute with this name.
pub proof fn system_data_is_found(
    front: Seq<(Seq<char>, Seq<u8>)>,
    v: Seq<u8>,
    rest: Seq<(Seq<char>, Seq<u8>)>,
)
    requires
        forall|i: int| 0 <= i < front.len() ==> (#[trigger] front[i]).0 != "system.data"@,
    ensures
        system_data(front + seq![("system.data"@, v)] + rest, 0) == v,
        system_data(front, 0).len() == 0,
{
    let all = front + seq![("system.data"@, v)] + rest;
    lemma_system_data(front, all, 0);
    lemma_system_data(front, front, 0);
    assert(all[front.len() as int] == ("system.data"@, v));
}

proof fn lemma_system_data(
    front: Seq<(Seq<char>, Seq<u8>)>,
    all: Seq<(Seq<char>, Seq<u8>)>,
    i: int,
)
    requires
        0 <= i <= front.len() <= all.len(),
        forall|k: int| 0 <= k < front.len() ==> #[trigger] all[k] == front[k],
        forall|k: int| 0 <= k < front.len() ==> (#[trigger] front[k]).0 != "system.data"@,
    ensures
        system_data(all, i) == system_data(all, front.len() as int),
    decreases front.len() - i,
{
    if i < front.len() {
        assert(all[i] == front[i]);
        lemma_system_data(front, all, i + 1);
    }
}

/// The label and the capabilities of a file are those of the last attributes
/// with their names; other attributes change nothing.
pub proof fn security_is_picked(
    x: Seq<(Seq<char>, Seq<u8>)>,
    name: Seq<char>,
    v: Seq<u8>,
)
    requires
        name != "security.selinux"@,
        name != "security.capability"@,
    ensures
        ({
            let n = x.len() as int;
            let (label, caps) = security_of(x, n);
            &&& security_of(x.push(("security.selinux"@, v)), n + 1) == (
                Some(text_of(until_nul(v, 0))),
                caps,
            )
            &&& security_of(x.push(("security.capability"@, v)), n + 1) == (
                label,
                capability_mask(v),
            )
            &&& security_of(x.push((name, v)), n + 1) == (label, caps)
        }),
        security_of(Seq::empty(), 0) == (None::<Seq<char>>, None::<u64>),
{
    reveal_strlit("security.selinux");
    reveal_strlit("security.capability");
    assert("security.selinux"@.len() == 16 && "security.capability"@.len() == 19);
    let n = x.len() as int;
    lemma_security_prefix(x, ("security.selinux"@, v), n);
    lemma_security_prefix(x, ("security.capability"@, v), n);
    lemma_security_prefix(x, (name, v), n);
}

proof fn lemma_security_prefix(x: Seq<(Seq<char>, Seq<u8>)>, e: (Seq<char>, Seq<u8>), n: int)
    requires
        0 <= n <= x.len(),
    ensures
        security_of(x.push(e), n) == security_of(x, n),
    decreases n,
{
    if n > 0 {
        lemma_security_prefix(x, e, n - 1);
        assert(x.push(e)[n - 1] == x[n - 1]);
    }
}

/// A capability mask has its low half at byte four, and its high half at byte
/// twelve where the value is long enough; a short value has none.
pub proof fn capabilities_are_read(v: Seq<u8>)
    ensures
        v.len() < 12 ==> capability_mask(v) is None,
        12 <= v.len() < 20 ==> capability_mask(v)->Some_0 as int == le32(v, 4),
        20 <= v.len() ==> capability_mask(v)->Some_0 as int == le32(v, 4) + 0x1_0000_0000 * le32(
            v,
            12,
        ),
        v.len() >= 12 ==> capability_mask(v) is Some,
{
}

/// A text ends at its first NUL, or at its end.
pub proof fn texts_end_at_nul(s: Seq<u8>, rest: Seq<u8>)
    requires
        !s.contains(0u8),
    ensures
        until_nul(s + seq![0u8] + rest, 0) == s,
        until_nul(s, 0) == s,
{
    let t = s + seq![0u8] + rest;
    lemma_until(s, t, 0);
    lemma_until(s, s, 0);
    assert(t[s.len() as int] == 0);
    assert(t.take(s.len() as int) =~= s);
    assert(s.take(s.len() as int) =~= s);
}

proof fn lemma_until(s: Seq<u8>, t: Seq<u8>, i: int)
    requires
        0 <= i <= s.len() <= t.len(),
        forall|k: int| 0 <= k < s.len() ==> t[k] == s[k],
        !s.contains(0u8),
    ensures
        until_nul(t, i) == until_nul(t, s.len() as int),
    decreases s.len() - i,
{
    if i < s.len() {
        assert(s.contains(s[i]));
        lemma_until(s, t, i + 1);
    }
}

/// Every feature whose bit is set is listed, in the order of the bits, with a
/// space between two.
pub proof fn features_are_listed(field: int, bits: u32, n: u32)
    requires
        n < 32,
    ensures
        feature_names(field, bits, 0).len() == 0,
        ({
            let had = feature_names(field, bits, n as int);
            let all = feature_names(field, bits, n + 1);
            let name = feature_name(field, n as int);
            if (bits >> n) % 2 == 1 {
                all == if had.len() == 0 {
                    name
                } else if name.len() == 0 {
                    had
                } else {
                    had + seq![' '] + name
                }
            } else {
                all == had
            }
        }),
{
    assert((bits & (1u32 << n) == 0) == ((bits >> n) % 2 == 0)) by (bit_vector)
        requires
            n < 32,
    ;
    let had = feature_names(field, bits, n as int);
    let name = feature_name(field, n as int);
    assert(had.push(' ') + name =~= had + seq![' '] + name);
}

} // verus!
