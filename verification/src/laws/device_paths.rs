//! Where an image is mounted, and the paths of its nodes on the device.
use vstd::prelude::*;
use crate::extract::{config_of, device_of, escaped, mount_of};
use crate::laws::texts::{is_tight, is_white, trimming_takes_white_space_off};
use crate::words::run_of;

verus! {

/// The volume name of an image is its mount point, with a `/` before it where
/// it has none. The name of the partition does not matter, and neither does
/// white space around the volume name.
pub proof fn volume_name_is_the_mount_point(
    a: Seq<char>,
    volume: Seq<char>,
    b: Seq<char>,
    part: Seq<char>,
)
    requires
        is_white(a),
        is_tight(volume),
        is_white(b),
    ensures
        ({
            let m = mount_of(a + volume + b, part);
            &&& volume[0] == '/' ==> m == volume
            &&& volume[0] != '/' ==> m.len() == volume.len() + 1 && m[0] == '/' && m.skip(1)
                == volume
        }),
{
    trimming_takes_white_space_off(a, volume, b);
    let m = mount_of(a + volume + b, part);
    if volume[0] != '/' {
        assert(m.skip(1) =~= volume);
    }
}

/// An image without a volume name is mounted at a folder in the root that is
/// named like the partition.
pub proof fn unnamed_volume_is_mounted_by_partition(volume: Seq<char>, part: Seq<char>)
    requires
        is_white(volume),
    ensures
        ({
            let m = mount_of(volume, part);
            m.len() == part.len() + 1 && m[0] == '/' && m.skip(1) == part
        }),
{
    let none = Seq::<char>::empty();
    trimming_takes_white_space_off(volume, none, none);
    assert(volume + none + none =~= volume);
    assert(mount_of(volume, part).skip(1) =~= part);
}

/// The path of a node on the device is its path in the image below the mount
/// point, with one `/` between them.
pub proof fn nodes_are_below_the_mount_point(mount: Seq<char>, rel: Seq<char>)
    requires
        mount.len() > 0,
        mount[0] == '/',
        mount.len() > 1 ==> mount.last() != '/',
        rel.len() > 0,
    ensures
        ({
            let d = device_of(mount, rel);
            let n = d.len() - rel.len();
            &&& d.skip(n) == rel
            &&& d[n - 1] == '/'
            &&& d.take(n - 1) == (if mount.len() == 1 {
                Seq::empty()
            } else {
                mount
            })
        }),
        device_of(mount, Seq::empty()) == mount,
{
    let d = device_of(mount, rel);
    let n = d.len() - rel.len();
    if mount.len() == 1 {
        assert(mount =~= seq!['/']);
        assert(d.take(n - 1) =~= Seq::<char>::empty());
    } else {
        assert(mount != seq!['/']);
        assert(d.take(n - 1) =~= mount);
    }
    assert(d.skip(n) =~= rel);
}

/// The fs_config path of a node is its path on the device without the `/` at
/// its front; that of the root of the device is `/`.
pub proof fn config_paths_have_no_slash_in_front(path: Seq<char>)
    requires
        path.len() == 0 || path[0] != '/',
    ensures
        config_of(seq!['/'] + path) == (if path.len() == 0 {
            seq!['/']
        } else {
            path
        }),
        path.len() > 0 ==> config_of(path) == path,
{
    let d = seq!['/'] + path;
    assert(d[0] == '/');
    if path.len() > 0 {
        assert(d[1] == path[0]);
    }
    assert(run_of(d, '/', 1) == 1);
    assert(run_of(d, '/', 0) == 1);
    assert(d.skip(1) =~= path);
    if path.len() > 0 {
        assert(run_of(path, '/', 0) == 0);
        assert(path.skip(0) =~= path);
    }
}

/// The characters that a regular expression does not take for themselves.
pub open spec fn special() -> Seq<char> {
    seq!['.', '^', '$', '*', '+', '?', '(', ')', '[', ']', '{', '}', '|', '\\']
}

/// In an escaped path, every character that a regular expression does not
/// take for itself has a backslash before it, and no other has one.
pub proof fn special_characters_are_escaped(path: Seq<char>, c: char)
    ensures
        ({
            let n = path.len() as int;
            let t = path.push(c);
            escaped(t, n + 1) == escaped(path, n) + (if special().contains(c) {
                seq!['\\', c]
            } else {
                seq![c]
            })
        }),
        escaped(Seq::empty(), 0) == Seq::<char>::empty(),
{
    let n = path.len() as int;
    let t = path.push(c);
    let s = special();
    assert(s[0] == '.' && s[1] == '^' && s[2] == '$' && s[3] == '*' && s[4] == '+' && s[5] == '?');
    assert(s[6] == '(' && s[7] == ')' && s[8] == '[' && s[9] == ']' && s[10] == '{' && s[11]
        == '}');
    assert(s[12] == '|' && s[13] == '\\');
    lemma_escaped_front(path, t, n);
    assert(t[n] == c);
    assert(escaped(t, n + 1) =~= escaped(path, n) + (if s.contains(c) {
        seq!['\\', c]
    } else {
        seq![c]
    }));
}

proof fn lemma_escaped_front(a: Seq<char>, b: Seq<char>, n: int)
    requires
        0 <= n <= a.len(),
        n <= b.len(),
        forall|i: int| 0 <= i < n ==> a[i] == b[i],
    ensures
        escaped(a, n) == escaped(b, n),
    decreases n,
{
    if n > 0 {
        lemma_escaped_front(a, b, n - 1);
    }
}

} // verus!
