//! The size of an image that is built, its ids, and the metadata of what was
//! added to its folder.
use vstd::prelude::*;
use crate::build::config::{MetaView, Owner};
use crate::build::folder::{file_mode, is_in_bin, known_owner, node_at, Sort, TreeKind};
use crate::build::image::{info_number, made_up, wanted_block_size, wanted_size};
use crate::build::links::{gone, is_gone};
use crate::build::{size_in, Size};
use crate::error::Error;
use crate::laws::texts::decimal_reads_back;
use crate::laws::work_folders::texts_are_parted;
use crate::text::{decimal, digit, uuid_text};

verus! {

/// What a letter at the end of a size multiplies by.
pub open spec fn factor(c: char) -> int {
    if c == 'k' || c == 'K' {
        1024
    } else if c == 'm' || c == 'M' {
        0x10_0000
    } else if c == 'g' || c == 'G' {
        0x4000_0000
    } else {
        0
    }
}

/// A size is a number of bytes, or of KiB, MiB or GiB with a letter behind it;
/// one that is too big is refused. `auto` is a size in any case.
pub proof fn sizes_are_read(n: nat, c: char, a: char, u: char, t: char, o: char)
    ensures
        size_in(decimal(n)) == if n <= u64::MAX {
            Ok::<Size, Error>(Size::Bytes(n as u64))
        } else {
            Err::<Size, Error>(Error::BadSize)
        },
        factor(c) > 0 ==> size_in(decimal(n).push(c)) == if n * factor(c) <= u64::MAX {
            Ok::<Size, Error>(Size::Bytes((n * factor(c)) as u64))
        } else {
            Err::<Size, Error>(Error::BadSize)
        },
        (a == 'a' || a == 'A') && (u == 'u' || u == 'U') && (t == 't' || t == 'T') && (o == 'o' || o
            == 'O') ==> size_in(seq![a, u, t, o]) == Ok::<Size, Error>(Size::Auto),
        size_in(Seq::empty()) == Err::<Size, Error>(Error::BadSize),
{
    decimal_reads_back(n);
    let d = decimal(n);
    assert('0' <= d[0] <= '9' && '0' <= d.last() <= '9');
    let s = d.push(c);
    assert(s[0] == d[0] && s.last() == c);
    assert(s.drop_last() =~= d);
    if factor(c) > 0 {
        let f = factor(c);
        assert(n * f >= n) by (nonlinear_arith)
            requires
                f >= 1,
                n >= 0,
        ;
    }
    let w = seq![a, u, t, o];
    assert(w[0] == a && w[1] == u && w[2] == t && w[3] == o);
}

/// The digits of a number in hexadecimal.
pub open spec fn hex_digits() -> Seq<char> {
    seq!['0', '1', '2', '3', '4', '5', '6', '7', '8', '9', 'a', 'b', 'c', 'd', 'e', 'f']
}

/// Where byte `i` stands in the text of a UUID.
pub open spec fn uuid_place(i: int) -> int {
    2 * i + if i < 4 {
        0int
    } else if i < 6 {
        1
    } else if i < 8 {
        2
    } else if i < 10 {
        3
    } else {
        4
    }
}

proof fn lemma_uuid(b: Seq<u8>, i: int, n: int)
    requires
        0 <= i < n <= 16,
    ensures
        uuid_text(b, n).len() == uuid_place(n - 1) + 2,
        uuid_text(b, n)[uuid_place(i)] == digit(b[i] as int / 16),
        uuid_text(b, n)[uuid_place(i) + 1] == digit(b[i] as int % 16),
        i > 0 && uuid_place(i) == uuid_place(i - 1) + 3 ==> uuid_text(b, n)[uuid_place(i) - 1]
            == '-',
    decreases n,
{
    reveal_with_fuel(uuid_text, 2);
    if i < n - 1 {
        lemma_uuid(b, i, n - 1);
    } else if n > 1 {
        lemma_uuid(b, n - 2, n - 1);
    }
}

/// The text of a UUID has its bytes in order, each with two digits, in groups
/// of eight, four, four, four and twelve digits with hyphens between them.
pub proof fn uuids_are_written(b: Seq<u8>, i: int)
    requires
        b.len() == 16,
        0 <= i < 16,
    ensures
        ({
            let s = uuid_text(b, 16);
            &&& s.len() == 36
            &&& s[8] == '-' && s[13] == '-' && s[18] == '-' && s[23] == '-'
            &&& s[uuid_place(i)] == hex_digits()[b[i] as int / 16]
            &&& s[uuid_place(i) + 1] == hex_digits()[b[i] as int % 16]
        }),
{
    lemma_uuid(b, i, 16);
    lemma_uuid(b, 4, 16);
    lemma_uuid(b, 6, 16);
    lemma_uuid(b, 8, 16);
    lemma_uuid(b, 10, 16);
    lemma_hex_digit(b[i] as int / 16);
    lemma_hex_digit(b[i] as int % 16);
}

proof fn lemma_hex_digit(d: int)
    requires
        0 <= d < 16,
    ensures
        digit(d) == hex_digits()[d],
{
    let h = hex_digits();
    assert(h[0] == '0' && h[1] == '1' && h[2] == '2' && h[3] == '3' && h[4] == '4' && h[5] == '5');
    assert(h[6] == '6' && h[7] == '7' && h[8] == '8' && h[9] == '9' && h[10] == 'a' && h[11]
        == 'b');
    assert(h[12] == 'c' && h[13] == 'd' && h[14] == 'e' && h[15] == 'f');
}

/// A made-up UUID is marked as a random one.
pub proof fn made_up_ids_are_marked(name: Seq<u8>, now: u128)
    ensures
        made_up(name, now).len() == 16,
        made_up(name, now)[6] / 16 == 4,
        made_up(name, now)[8] / 64 == 2,
{
    let b = made_up(name, now);
    let h = crate::build::image::mixed(name, now, name.len() as int);
    let x = Seq::new(16, |i: int| (crate::build::image::shifted(h, i) % 256) as u8);
    let v: u8 = x[6];
    let w: u8 = x[8];
    assert(((v & 0x0F) | 0x40) / 16 == 4u8) by (bit_vector);
    assert(((w & 0x3F) | 0x80) / 64 == 2u8) by (bit_vector);
}

/// An image keeps the blocks that are recorded, and a size that is asked for is
/// filled with whole blocks. It has room for more inodes than are in use, and
/// no fewer than are recorded.
pub proof fn sizes_are_kept(info: Seq<(Seq<char>, Seq<char>)>, size: Size, data: int, used: int,
    b: u64)
    requires
        0 <= data,
        0 <= used < 0x1000_0000,
        wanted_block_size(info) > 0,
    ensures
        ({
            let bs = wanted_block_size(info);
            let blocks = info_number(info, "blocks"@);
            let inodes = info_number(info, "inodes"@);
            &&& info_number(info, "block_size"@) is None ==> bs == 4096
            &&& info_number(info, "block_size"@) is Some ==> bs == info_number(
                info,
                "block_size"@,
            )->Some_0
            &&& blocks is Some ==> match wanted_size(info, Size::Original, data, used) {
                Ok((n, i)) => n == blocks->Some_0 && i > used + used / 50 && (inodes is Some
                    && inodes->Some_0 <= u32::MAX ==> i >= inodes->Some_0),
                Err(_) => false,
            }
            &&& blocks is None ==> wanted_size(info, Size::Original, data, used) == wanted_size(
                info,
                Size::Auto,
                data,
                used,
            )
            &&& match wanted_size(info, Size::Bytes(b), data, used) {
                Ok((n, i)) => n * bs <= b < (n + 1) * bs && i > used + used / 50 && (inodes is Some
                    && inodes->Some_0 <= u32::MAX ==> i >= inodes->Some_0),
                Err(_) => false,
            }
            &&& match wanted_size(info, Size::Auto, data, used) {
                Ok((n, i)) => i == used + used / 50 + 64,
                Err(e) => e == Error::ImageTooBig,
            }
        }),
{
    let bs = wanted_block_size(info);
    let x = b as int;
    assert(x / bs * bs <= x < (x / bs + 1) * bs) by (nonlinear_arith)
        requires
            bs > 0,
            x >= 0,
    ;
}

/// A file is in a bin directory where the directory that it is directly in is
/// named `bin` or `xbin`.
pub proof fn bin_directories(dir: Seq<char>, name: Seq<char>, file: Seq<char>)
    requires
        !name.contains('/'),
        !file.contains('/'),
    ensures
        is_in_bin(dir + seq!['/'] + name + seq!['/'] + file) == (name == "bin"@ || name == "xbin"@),
        is_in_bin(name + seq!['/'] + file) == (name == "bin"@ || name == "xbin"@),
        !is_in_bin(file),
{
    reveal_strlit("bin");
    reveal_strlit("xbin");
    texts_are_parted(dir + seq!['/'] + name, '/', file);
    texts_are_parted(dir, '/', name);
    texts_are_parted(name, '/', file);
    let none = Seq::<char>::empty();
    texts_are_parted(none, '/', none);
}

/// What is not listed gets the defaults: a directory 0755, but lost+found 0700,
/// a symlink 0777, a file 0644, or 0755 in a bin directory or where it is
/// executable; the owner is root, and the group of a file in a bin directory
/// is the shell.
pub proof fn defaults_are_for_new_entries(
    meta: MetaView,
    mount: Seq<char>,
    name: Seq<u8>,
    rel: Seq<char>,
    kind: TreeKind,
    parent: Option<Seq<char>>,
    executable: bool,
)
    requires
        known_owner(meta, mount, rel) is None,
    ensures
        ({
            let d = node_at(meta, mount, name, rel, kind, Sort::Dir, parent);
            let l = node_at(meta, mount, name, rel, kind, Sort::Symlink, parent);
            let f = node_at(meta, mount, name, rel, kind, Sort::File, parent);
            &&& d.uid == 0 && d.gid == 0 && d.mode == if rel == "lost+found"@ {
                0x1C0u32
            } else {
                0x1ED
            }
            &&& l.uid == 0 && l.gid == 0 && l.mode == 0x1FF
            &&& f.uid == 0 && f.gid == if is_in_bin(rel) {
                2000u32
            } else {
                0
            }
            &&& d.capabilities is None && l.capabilities is None && f.capabilities is None
            &&& file_mode(rel, executable) == if executable || is_in_bin(rel) {
                0x1EDu32
            } else {
                0x1A4
            }
            &&& d.name == name && d.kind == kind
        }),
{
}

/// A path of fs_config is counted as gone where nothing was seen at it; a path
/// that is listed again counts once.
pub proof fn gone_paths_are_counted(owners: Seq<(Seq<char>, Owner)>, seen: Seq<Seq<char>>, n: int)
    requires
        0 <= n < owners.len(),
    ensures
        gone(owners, seen, 0) == 0,
        seen.contains(owners[n].0) ==> gone(owners, seen, n + 1) == gone(owners, seen, n),
        !seen.contains(owners[n].0) && (forall|j: int|
            n < j < owners.len() ==> (#[trigger] owners[j]).0 != owners[n].0) ==> gone(
            owners,
            seen,
            n + 1,
        ) == gone(owners, seen, n) + 1,
        (exists|j: int| n < j < owners.len() && (#[trigger] owners[j]).0 == owners[n].0) ==> gone(
            owners,
            seen,
            n + 1,
        ) == gone(owners, seen, n),
{
    assert(is_gone(owners, seen, n) == (!seen.contains(owners[n].0) && forall|j: int|
        n < j < owners.len() ==> (#[trigger] owners[j]).0 != owners[n].0));
}

} // verus!
