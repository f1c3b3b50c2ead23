//! What is found in the zip of a ROM, and in the images of a factory package.
use vstd::prelude::*;
use crate::bytes::le32;
use crate::factory::{avb_flags, entry_of, group_total, is_inner_zip, is_root_image, is_vbmeta,
    members, partition_group, size_for, table_of, without_slot};
use crate::laws::work_folders::texts_are_parted;
use crate::rom::state::PartitionView;
use crate::rom::unpack::{belongs, data_name, entry_named, info_in, part_at, part_of, parts_found,
    permissions, prop_in};
use crate::words::{has_prefix, has_suffix, lines_of};

verus! {

proof fn lemma_parts_found(names: Seq<Seq<char>>, part: Seq<char>, n: int)
    requires
        0 <= n <= names.len(),
    ensures
        forall|k: int|
            0 <= k < parts_found(names, n).len() ==> exists|i: int|
                0 <= i < n && (#[trigger] names[i]) == (#[trigger] parts_found(names, n)[k]).name
                    + ".transfer.list"@ && part_at(names, i) == Some(parts_found(names, n)[k]),
        forall|i: int|
            0 <= i < n && (#[trigger] names[i]) == part + ".transfer.list"@ && (names.contains(
                part + ".new.dat.br"@,
            ) || names.contains(part + ".new.dat"@)) ==> exists|k: int|
                0 <= k < parts_found(names, n).len() && (#[trigger] parts_found(names, n)[k])
                    == (PartitionView {
                    name: part,
                    version: 0,
                    brotli: names.contains(part + ".new.dat.br"@),
                    size: 0,
                }),
    decreases n,
{
    let all = parts_found(names, n);
    if n > 0 {
        lemma_parts_found(names, part, n - 1);
        let had = parts_found(names, n - 1);
        let name = names[n - 1];
        let end = ".transfer.list"@;
        assert forall|k: int| 0 <= k < all.len() implies exists|i: int|
            0 <= i < n && (#[trigger] names[i]) == (#[trigger] all[k]).name + end && part_at(
                names,
                i,
            ) == Some(all[k]) by {
            if k < had.len() {
                assert(all[k] == had[k]);
            } else {
                let p = name.take(name.len() - end.len());
                assert(name =~= p + name.skip(name.len() - end.len()));
                assert(names[n - 1] == all[k].name + end);
            }
        }
        assert forall|i: int|
            0 <= i < n && (#[trigger] names[i]) == part + end && (names.contains(
                part + ".new.dat.br"@,
            ) || names.contains(part + ".new.dat"@)) implies exists|k: int|
            0 <= k < all.len() && (#[trigger] all[k]) == (PartitionView {
                name: part,
                version: 0,
                brotli: names.contains(part + ".new.dat.br"@),
                size: 0,
            }) by {
            if i == n - 1 {
                assert(name.skip(name.len() - end.len()) =~= end);
                assert(name.take(name.len() - end.len()) =~= part);
                assert(part_of(name) == Some(part));
                assert(all[had.len() as int].name == part);
            } else {
                let k = choose|k: int|
                    0 <= k < had.len() && (#[trigger] had[k]) == (PartitionView {
                        name: part,
                        version: 0,
                        brotli: names.contains(part + ".new.dat.br"@),
                        size: 0,
                    });
                assert(all[k] == had[k]);
            }
        }
    }
}

/// A partition is found in a zip exactly when the zip has its transfer list and
/// its block data, compressed or not. Compressed block data is taken first.
pub proof fn partitions_are_found(names: Seq<Seq<char>>, part: Seq<char>)
    ensures
        ({
            let all = parts_found(names, names.len() as int);
            let packed = names.contains(part + ".new.dat.br"@);
            let found = PartitionView { name: part, version: 0, brotli: packed, size: 0 };
            &&& (names.contains(part + ".transfer.list"@) && (packed || names.contains(
                part + ".new.dat"@,
            ))) == all.contains(found)
            &&& forall|k: int| 0 <= k < all.len() && (#[trigger] all[k]).name == part ==> all[k]
                == found
        }),
{
    let n = names.len() as int;
    let all = parts_found(names, n);
    let packed = names.contains(part + ".new.dat.br"@);
    let found = PartitionView { name: part, version: 0, brotli: packed, size: 0 };
    lemma_parts_found(names, part, n);
    if names.contains(part + ".transfer.list"@) && (packed || names.contains(part + ".new.dat"@)) {
        let i = choose|i: int| 0 <= i < n && names[i] == part + ".transfer.list"@;
        assert(names[i] == part + ".transfer.list"@);
    }
    assert forall|k: int| 0 <= k < all.len() && (#[trigger] all[k]).name == part implies all[k]
        == found && names.contains(part + ".transfer.list"@) && (packed || names.contains(
        part + ".new.dat"@,
    )) by {
        let i = choose|i: int|
            0 <= i < n && (#[trigger] names[i]) == all[k].name + ".transfer.list"@ && part_at(
                names,
                i,
            ) == Some(all[k]);
        assert(names.contains(names[i]));
    }
    if all.contains(found) {
        let k = choose|k: int| 0 <= k < all.len() && all[k] == found;
        assert(all[k].name == part);
    }
}

/// The transfer list, the block data and the patch of a partition are its
/// files, and no other names are.
pub proof fn files_of_partitions(parts: Seq<PartitionView>, i: int, name: Seq<char>)
    requires
        0 <= i < parts.len(),
    ensures
        belongs(parts, parts[i].name + ".transfer.list"@),
        belongs(parts, parts[i].name + ".new.dat.br"@),
        belongs(parts, parts[i].name + ".new.dat"@),
        belongs(parts, parts[i].name + ".patch.dat"@),
        belongs(parts, data_name(parts[i])),
        (forall|k: int|
            0 <= k < parts.len() ==> (#[trigger] parts[k]).name.len() > name.len() || name.take(
                parts[k].name.len() as int,
            ) != parts[k].name) ==> !belongs(parts, name),
        !has_suffix(name, ".transfer.list"@) && !has_suffix(name, ".new.dat.br"@) && !has_suffix(
            name,
            ".new.dat"@,
        ) && !has_suffix(name, ".patch.dat"@) ==> !belongs(parts, name),
{
    if belongs(parts, name) {
        let k = choose|k: int|
            0 <= k < parts.len() && (name == (#[trigger] parts[k]).name + ".transfer.list"@ || name
                == parts[k].name + ".new.dat.br"@ || name == parts[k].name + ".new.dat"@ || name
                == parts[k].name + ".patch.dat"@);
        let p = parts[k].name;
        assert(name.take(p.len() as int) =~= p);
        lemma_suffix(p, ".transfer.list"@);
        lemma_suffix(p, ".new.dat.br"@);
        lemma_suffix(p, ".new.dat"@);
        lemma_suffix(p, ".patch.dat"@);
    }
}

proof fn lemma_suffix(a: Seq<char>, b: Seq<char>)
    ensures
        has_suffix(a + b, b),
        (a + b).take(a.len() as int) == a,
{
    assert((a + b).skip((a + b).len() - b.len()) =~= b);
    assert((a + b).take(a.len() as int) =~= a);
}

/// The mode of an unpacked file has the nine permission bits of its entry.
pub proof fn nine_bits_are_kept(m: u32)
    ensures
        permissions(Some(m)) == Some((m % 512) as u32),
        permissions(None) is None,
{
    assert(m & 0o777 == m % 512) by (bit_vector);
}

/// A property has the value of the first line that sets it, and none where no
/// line does.
pub proof fn properties_are_read(
    front: Seq<Seq<char>>,
    key: Seq<char>,
    value: Seq<char>,
    rest: Seq<Seq<char>>,
)
    requires
        forall|i: int|
            0 <= i < front.len() ==> (#[trigger] front[i]).len() <= key.len() || front[i].take(
                key.len() as int + 1,
            ) != key + seq!['='],
    ensures
        prop_in(front + seq![key + seq!['='] + value] + rest, key, 0) == Some(value),
        prop_in(front, key, 0) is None,
{
    let line = key + seq!['='] + value;
    let all = front + seq![line] + rest;
    reveal_strlit("=");
    assert("="@ =~= seq!['=']);
    assert forall|i: int| 0 <= i < front.len() implies !has_prefix(
        #[trigger] front[i], key + "="@) by {
    }
    lemma_prop(front, all, key, 0);
    lemma_prop(front, front, key, 0);
    assert(all[front.len() as int] == line);
    assert(line.take(key.len() as int + 1) =~= key + "="@);
    assert(line.skip(key.len() as int + 1) =~= value);
}

proof fn lemma_prop(front: Seq<Seq<char>>, all: Seq<Seq<char>>, key: Seq<char>, i: int)
    requires
        0 <= i <= front.len() <= all.len(),
        forall|k: int| 0 <= k < front.len() ==> #[trigger] all[k] == front[k],
        forall|k: int| 0 <= k < front.len() ==> !has_prefix(#[trigger] front[k], key + "="@),
    ensures
        prop_in(all, key, i) == prop_in(all, key, front.len() as int),
    decreases front.len() - i,
{
    if i < front.len() {
        assert(all[i] == front[i]);
        lemma_prop(front, all, key, i + 1);
    }
}

/// The facts of a ROM: the version of Android, the name of the ROM, whether the
/// system is the root, and the device, each under its label where it is known.
pub proof fn rom_facts_are_told(
    text: Seq<char>,
    as_root: bool,
    vendor: Seq<char>,
)
    ensures
        ({
            let all = info_in(Some((text, as_root)), Some(vendor));
            let lines = lines_of(text);
            let version = prop_in(lines, "ro.build.version.release"@, 0);
            let name = prop_in(lines, "ro.build.display.id"@, 0);
            let device = prop_in(lines_of(vendor), "ro.product.vendor.device"@, 0);
            &&& version is Some ==> all.contains(("Android version"@, version->Some_0))
            &&& name is Some ==> all.contains(("ROM"@, name->Some_0))
            &&& all.contains(
                (
                    "System-as-root"@,
                    if as_root {
                        "true"@
                    } else {
                        "false"@
                    },
                ),
            )
            &&& device is Some ==> all.contains(("Device"@, device->Some_0))
            &&& all.len() == 1 + (if version is Some {
                1int
            } else {
                0
            }) + (if name is Some {
                1int
            } else {
                0
            }) + (if device is Some {
                1int
            } else {
                0
            })
        }),
        info_in(None, None).len() == 0,
{
    let all = info_in(Some((text, as_root)), Some(vendor));
    let lines = lines_of(text);
    let version = prop_in(lines, "ro.build.version.release"@, 0);
    let name = prop_in(lines, "ro.build.display.id"@, 0);
    let device = prop_in(lines_of(vendor), "ro.product.vendor.device"@, 0);
    let a: int = if version is Some {
        1
    } else {
        0
    };
    let b: int = if name is Some {
        a + 1
    } else {
        a
    };
    if version is Some {
        assert(all[0] == ("Android version"@, version->Some_0));
    }
    if name is Some {
        assert(all[a] == ("ROM"@, name->Some_0));
    }
    let root = if as_root {
        "true"@
    } else {
        "false"@
    };
    assert(all[b] == ("System-as-root"@, root));
    if device is Some {
        assert(all[b + 1] == ("Device"@, device->Some_0));
    }
}

/// Of entries with the same name the first is found.
pub proof fn entries_are_found(front: Seq<Seq<char>>, name: Seq<char>, rest: Seq<Seq<char>>)
    requires
        !front.contains(name),
    ensures
        entry_named(front + seq![name] + rest, name, 0) == front.len(),
        entry_named(front, name, 0) == front.len(),
{
    let all = front + seq![name] + rest;
    lemma_entry(front, all, name, 0);
    lemma_entry(front, front, name, 0);
    assert(all[front.len() as int] == name);
}

proof fn lemma_entry(front: Seq<Seq<char>>, all: Seq<Seq<char>>, name: Seq<char>, i: int)
    requires
        0 <= i <= front.len() <= all.len(),
        forall|k: int| 0 <= k < front.len() ==> #[trigger] all[k] == front[k],
        !front.contains(name),
    ensures
        entry_named(all, name, i) == entry_named(all, name, front.len() as int),
    decreases front.len() - i,
{
    if i < front.len() {
        assert(all[i] == front[i]);
        assert(front.contains(front[i]));
        lemma_entry(front, all, name, i + 1);
    }
}

/// The zip with the images of a factory package is named `image-*.zip`, in any
/// folder; an image is in no folder and ends in `.img`.
pub proof fn factory_names(dir: Seq<char>, x: Seq<char>)
    requires
        !x.contains('/'),
    ensures
        is_inner_zip("image-"@ + x + ".zip"@),
        is_inner_zip(dir + seq!['/'] + ("image-"@ + x + ".zip"@)),
        is_inner_zip(dir + seq!['/'] + x) == (has_prefix(x, "image-"@) && has_suffix(x, ".zip"@)),
        is_root_image(x + ".img"@),
        !is_root_image(dir + seq!['/'] + x),
        is_root_image(x) == has_suffix(x, ".img"@),
{
    reveal_strlit("image-");
    reveal_strlit(".zip");
    reveal_strlit(".img");
    let s = "image-"@ + x + ".zip"@;
    assert(!s.contains('/')) by {
        if s.contains('/') {
            let k = choose|k: int| 0 <= k < s.len() && s[k] == '/';
            if 6 <= k < 6 + x.len() {
                assert(x.contains(x[k - 6]));
            }
        }
    }
    assert(!(x + ".img"@).contains('/')) by {
        let t = x + ".img"@;
        if t.contains('/') {
            let k = choose|k: int| 0 <= k < t.len() && t[k] == '/';
            if k < x.len() {
                assert(x.contains(x[k]));
            }
        }
    }
    texts_are_parted(dir, '/', s);
    texts_are_parted(dir, '/', x);
    assert(s.take(6) =~= "image-"@);
    assert(s.skip(s.len() - 4) =~= ".zip"@);
    lemma_suffix(x, ".img"@);
    let d = dir + seq!['/'] + x;
    assert(d[dir.len() as int] == '/');
    assert(d.contains('/'));
}

/// The slot at the end of a name is taken off, once.
pub proof fn slots_are_taken_off(name: Seq<char>)
    ensures
        without_slot(name + "_a"@) == name,
        without_slot(name + "_b"@) == name,
        !has_suffix(name, "_a"@) && !has_suffix(name, "_b"@) ==> without_slot(name) == name,
{
    reveal_strlit("_a");
    reveal_strlit("_b");
    lemma_suffix(name, "_a"@);
    lemma_suffix(name, "_b"@);
}

proof fn lemma_size(sizes: Seq<(String, u64)>, name: Seq<char>, j: int, n: int)
    requires
        0 <= n <= sizes.len(),
    ensures
        0 <= j < n && sizes[j].0@ == name && (forall|k: int|
            j < k < n ==> (#[trigger] sizes[k]).0@ != name) ==> size_for(sizes, name, n) == Some(
            sizes[j].1,
        ),
        (forall|k: int| 0 <= k < n ==> (#[trigger] sizes[k]).0@ != name) ==> size_for(
            sizes,
            name,
            n,
        ) is None,
    decreases n,
{
    if n > 0 {
        lemma_size(sizes, name, j, n - 1);
    }
}

/// One more partition of a group takes its size more: the last one, `j`, that
/// is listed for its name without the slot, or nothing where none is.
pub proof fn partitions_take_their_size(
    partitions: Seq<String>,
    p: String,
    sizes: Seq<(String, u64)>,
    j: int,
)
    ensures
        ({
            let n = partitions.len() as int;
            let had = group_total(partitions, sizes, n);
            let all = group_total(partitions.push(p), sizes, n + 1);
            let name = without_slot(p@);
            &&& 0 <= j < sizes.len() && sizes[j].0@ == name && (forall|k: int|
                j < k < sizes.len() ==> (#[trigger] sizes[k]).0@ != name) ==> all
                    == had + sizes[j].1
            &&& (forall|k: int| 0 <= k < sizes.len() ==> (#[trigger] sizes[k]).0@ != name) ==> all
                == had
        }),
        group_total(Seq::empty(), sizes, 0) == 0,
{
    let n = partitions.len() as int;
    lemma_total_prefix(partitions, p, sizes, n);
    lemma_size(sizes, without_slot(p@), j, sizes.len() as int);
    assert(partitions.push(p)[n] == p);
}

proof fn lemma_total_prefix(partitions: Seq<String>, p: String, sizes: Seq<(String, u64)>, n: int)
    requires
        0 <= n <= partitions.len(),
    ensures
        group_total(partitions.push(p), sizes, n) == group_total(partitions, sizes, n),
    decreases n,
{
    if n > 0 {
        lemma_total_prefix(partitions, p, sizes, n - 1);
        assert(partitions.push(p)[n - 1] == partitions[n - 1]);
    }
}

/// A vbmeta image starts with `AVB0` and has a header of 256 bytes; its flags
/// are the four bytes from 120 on, the highest first.
pub proof fn vbmeta_has_flags(b: Seq<u8>)
    ensures
        is_vbmeta(b) == (b.len() >= 256 && b.take(4) == seq![0x41u8, 0x56, 0x42, 0x30]),
        avb_flags(b) == b[120] * 0x100_0000 + b[121] * 0x1_0000 + b[122] * 0x100 + b[123],
{
    let magic = seq![0x41u8, 0x56, 0x42, 0x30];
    if b.len() >= 256 {
        let t = b.take(4);
        if is_vbmeta(b) {
            assert(t =~= magic);
        }
        if t == magic {
            assert(b[0] == t[0] && b[1] == t[1] && b[2] == t[2] && b[3] == t[3]);
            assert(magic[0] == 0x41 && magic[1] == 0x56 && magic[2] == 0x42 && magic[3] == 0x30);
        }
    }
}

/// In the metadata of a super image the tables start behind the header, whose
/// length stands in it; a table starts and has entries as its descriptor says.
pub proof fn tables_are_where_they_say(image: Seq<u8>, i: int, k: int)
    requires
        image.len() >= 4224,
        0 <= i < 4,
        0 <= k,
        ({
            let t = table_of(image, i);
            4096 + le32(image, 4104) + t.off + k * t.size + t.size <= image.len()
        }),
    ensures
        ({
            let d = 4176 + 12 * i;
            let t = table_of(image, i);
            let at = 4096 + le32(image, 4104) + t.off + k * t.size;
            &&& t.off == le32(image, d) && t.n == le32(image, d + 4) && t.size == le32(image, d + 8)
            &&& entry_of(image, t, k) == image.subrange(at, at + t.size)
        }),
{
    let h = image.skip(4096);
    let t = table_of(image, i);
    assert(forall|x: int| 0 <= x && x + 4 <= h.len() ==> #[trigger] le32(h, x)
        == le32(image, 4096 + x));
    let at = 4096 + le32(image, 4104) + t.off + k * t.size;
    assert(k * t.size >= 0) by (nonlinear_arith)
        requires
            k >= 0,
            t.size >= 0,
    ;
    assert(entry_of(image, t, k) =~= image.subrange(at, at + t.size));
}

/// A group has the partitions that name it, in their order.
pub proof fn groups_have_their_partitions(image: Seq<u8>, g: int, n: int)
    requires
        0 <= n,
    ensures
        members(image, g, 0).len() == 0,
        partition_group(image, n) == g ==> members(image, g, n + 1) == members(image, g, n).push(
            crate::factory::entry_name(entry_of(image, table_of(image, 0), n)),
        ),
        partition_group(image, n) != g ==> members(image, g, n + 1) == members(image, g, n),
        partition_group(image, n) == le32(entry_of(image, table_of(image, 0), n), 48),
{
}

} // verus!
