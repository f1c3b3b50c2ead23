//! What is read of the state of an unpacked ROM, which images are opened, and
//! which paths are in one.
use vstd::prelude::*;
use crate::build::config::value_for;
use crate::build::links::{device_for, inside};
use crate::bytes::{le16, le32};
use crate::error::Error;
use crate::extract::{config_of, device_of, image_fault};
use crate::fs::ext4::open_fault;
use crate::rom::state::{part_in, parts_in, PartitionView};
use crate::words::{number, run_of};

verus! {

/// The state of a partition is its version, whether its block data is
/// compressed, and its size, each under a key that starts with its name.
pub proof fn partitions_are_read(
    kv: Seq<(Seq<char>, Seq<char>)>,
    name: Seq<char>,
    names: Seq<Seq<char>>,
)
    ensures
        ({
            let n = kv.len() as int;
            let v = value_for(kv, name + ".version"@, n);
            let b = value_for(kv, name + ".brotli"@, n);
            let s = value_for(kv, name + ".size"@, n);
            let x = number(v->Some_0, 10);
            let y = number(s->Some_0, 10);
            &&& v is None || b is None || s is None ==> part_in(kv, name) is Err
            &&& v is None ==> part_in(kv, name) == Err::<PartitionView, Error>(Error::MissingState)
            &&& v is Some && (x is None || x->Some_0 > u64::MAX) ==> part_in(kv, name) == Err::<
                PartitionView,
                Error,
            >(Error::BadState)
            &&& v is Some && b is Some && s is Some && x is Some && x->Some_0 <= u32::MAX
                && y is Some
                && y->Some_0 <= u64::MAX ==> part_in(kv, name) == Ok::<PartitionView, Error>(
                PartitionView {
                    name,
                    version: x->Some_0 as u32,
                    brotli: b->Some_0 == "true"@,
                    size: y->Some_0 as u64,
                },
            )
        }),
        parts_in(kv, names, 0) == Ok::<Seq<PartitionView>, Error>(Seq::empty()),
        ({
            let n = names.len() as int;
            match (parts_in(kv, names, n), part_in(kv, name)) {
                (Ok(v), Ok(p)) => parts_in(kv, names.push(name), n + 1) == Ok::<
                    Seq<PartitionView>,
                    Error,
                >(v.push(p)),
                _ => parts_in(kv, names.push(name), n + 1) is Err,
            }
        }),
{
    lemma_parts_prefix(kv, names, name, names.len() as int);
    assert(names.push(name)[names.len() as int] == name);
}

proof fn lemma_parts_prefix(
    kv: Seq<(Seq<char>, Seq<char>)>,
    names: Seq<Seq<char>>,
    name: Seq<char>,
    n: int,
)
    requires
        0 <= n <= names.len(),
    ensures
        parts_in(kv, names.push(name), n) == parts_in(kv, names, n),
    decreases n,
{
    if n > 0 {
        lemma_parts_prefix(kv, names, name, n - 1);
        assert(names.push(name)[n - 1] == names[n - 1]);
    }
}

/// A sparse image and an EROFS image are told by their magic numbers and are
/// refused; what has the magic number of ext4 is opened as that, and anything
/// else is not known.
pub proof fn images_are_told_apart(image: Seq<u8>)
    ensures
        image.len() >= 4 && le32(image, 0) == 0xED26_FF3A ==> image_fault(image) == Some(
            Error::SparseImage,
        ),
        image.len() >= 1028 && le32(image, 0) != 0xED26_FF3A && le32(image, 1024) == 0xE0F5_E1E2
            ==> image_fault(image) == Some(Error::ErofsImage),
        image.len() >= 1082 && le32(image, 0) != 0xED26_FF3A && le32(image, 1024) != 0xE0F5_E1E2
            ==> image_fault(image) == if le16(image, 1080) == 0xEF53 {
            open_fault(image)
        } else {
            Some(Error::UnknownFilesystem)
        },
        image.len() < 4 ==> image_fault(image) == Some(Error::UnknownFilesystem),
{
}

/// The path of a node in its image is found again in its path on the device;
/// a path that does not start with the mount point is outside.
pub proof fn paths_are_found_again(mount: Seq<char>, rel: Seq<char>, other: Seq<char>)
    requires
        rel.len() > 0,
        rel[0] != '/',
        mount.len() > 0,
        mount[0] == '/',
        mount.len() > 1 ==> mount[1] != '/' && mount.last() != '/',
    ensures
        inside(mount, device_of(mount, rel)) == Some(rel),
        device_for(config_of(device_of(mount, rel))) == device_of(mount, rel),
        mount.len() > 1 && (other.len() <= mount.len() || other.take(mount.len() as int) != mount
            || other[mount.len() as int] != '/') ==> inside(mount, other) is None,
{
    let d = device_of(mount, rel);
    let root = seq!['/'];
    assert(root.len() == 1 && root[0] == '/');
    reveal_with_fuel(run_of, 3);
    assert(d[0] == '/');
    if mount == root {
        assert(d[1] == rel[0]);
        assert(d.skip(1) =~= rel);
    } else {
        if mount.len() == 1 {
            assert(mount =~= root);
        }
        assert(d[1] == mount[1]);
        assert(d.take(mount.len() as int) =~= mount);
        assert(d.skip(mount.len() as int).take(1) =~= root);
        assert(d.skip(mount.len() as int + 1) =~= rel);
        if other.len() > mount.len() && other.take(mount.len() as int) == mount {
            let t = other.skip(mount.len() as int);
            if t.take(1) == root {
                assert(t.take(1)[0] == other[mount.len() as int]);
            }
        }
    }
    assert(run_of(d, '/', 0) == 1);
    let c = config_of(d);
    assert(c == d.skip(1));
    assert(c[0] != '/');
    assert(seq!['/'] + c =~= d);
}

} // verus!
