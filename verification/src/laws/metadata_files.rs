//! What the lines of the metadata files say, as they are written and as they
//! are read.
use vstd::prelude::*;
use crate::apart::{lemma_decimal, lemma_digits_word, lemma_hex, lemma_octal4};
use crate::build::config::{labels_in, owners_in, pairs_in, without_0x, Owner};
use crate::build::round_trip::{caps_word, config_for, lemma_config_line, lemma_owner_line,
    owner_line, recordable};
use crate::extract::{contexts_line, device_of, escaped, fs_config_line, info_head, info_text,
    path_text, symlinks_line, unescaped, VisitView};
use crate::laws::texts::{is_solid, is_tight, is_white, trimming_takes_white_space_off,
    white_space_is_unicode};
use crate::laws::work_folders::texts_are_parted;
use crate::text::{hex, octal4, text_of};
use crate::words::{number, words_of};

verus! {

/// A line of fs_config has the path, the owner and the group in decimal, the
/// mode in octal with at least four digits, and where there are some the
/// capabilities in hexadecimal.
pub proof fn fs_config_is_written(mount: Seq<char>, v: VisitView)
    requires
        recordable(mount, v),
    ensures
        ({
            let line = fs_config_line(mount, v);
            let w = words_of(line.drop_last());
            &&& line.last() == '\n' && !line.drop_last().contains('\n')
            &&& w.len() == if v.meta.capabilities is Some {
                5int
            } else {
                4
            }
            &&& w[0] == config_for(mount, v)
            &&& number(w[1], 10) == Some(v.meta.uid as nat)
            &&& number(w[2], 10) == Some(v.meta.gid as nat)
            &&& number(w[3], 8) == Some(v.meta.mode as nat) && w[3].len() >= 4
            &&& v.meta.capabilities is Some ==> w[4].len() > 15 && w[4].take(15)
                == "capabilities=0x"@ && number(w[4].skip(15), 16) == Some(
                v.meta.capabilities->Some_0 as nat,
            )
        }),
{
    let s = owner_line(
        config_for(mount, v),
        v.meta.uid as nat,
        v.meta.gid as nat,
        v.meta.mode as nat,
        v.meta.capabilities,
    );
    lemma_config_line(mount, v);
    lemma_owner_line(
        config_for(mount, v),
        v.meta.uid as nat,
        v.meta.gid as nat,
        v.meta.mode as nat,
        v.meta.capabilities,
    );
    reveal_strlit("\n");
    reveal_strlit("capabilities=0x");
    assert((s + "\n"@).drop_last() =~= s);
    lemma_decimal(v.meta.uid as nat);
    lemma_decimal(v.meta.gid as nat);
    lemma_octal4(v.meta.mode as nat);
    lemma_digits_word(crate::text::decimal(v.meta.uid as nat), 10);
    lemma_digits_word(crate::text::decimal(v.meta.gid as nat), 10);
    lemma_digits_word(octal4(v.meta.mode as nat), 8);
    if let Some(c) = v.meta.capabilities {
        lemma_hex(c as nat);
        lemma_digits_word(hex(c as nat), 16);
        assert(caps_word(c).take(15) =~= "capabilities=0x"@);
        assert(caps_word(c).skip(15) =~= hex(c as nat));
    }
}

/// A line of fs_config is read as it is written: owner and group in decimal,
/// the mode in octal, and capabilities in hexadecimal with `0x` or without. A
/// number that is wrong makes the file wrong; a blank line changes nothing.
pub proof fn fs_config_is_read(lines: Seq<Seq<char>>, line: Seq<char>, h: Seq<char>)
    requires
        owners_in(lines, lines.len() as int) is Some,
        h.len() < 2 || h[1] != 'x',
    ensures
        ({
            let w = words_of(line);
            let all = owners_in(lines, lines.len() as int)->Some_0;
            let r = owners_in(lines.push(line), lines.len() + 1int);
            let u = number(w[1], 10);
            let g = number(w[2], 10);
            let m = number(w[3], 8);
            let good = u is Some && u->Some_0 <= u32::MAX && g is Some && g->Some_0 <= u32::MAX && m
                is Some && m->Some_0 <= u32::MAX;
            &&& w.len() == 0 ==> r == Some(all)
            &&& 0 < w.len() < 4 ==> r is None
            &&& w.len() == 4 && good ==> r == Some(
                all.push(
                    (
                        w[0],
                        Owner {
                            uid: u->Some_0 as u32,
                            gid: g->Some_0 as u32,
                            mode: m->Some_0 as u32,
                            caps: None,
                        },
                    ),
                ),
            )
            &&& w.len() >= 4 && !good ==> r is None
            &&& w.len() == 5 && good && (w[4] == "capabilities=0x"@ + h || w[4] == "capabilities="@
                + h) && number(h, 16) is Some && number(h, 16)->Some_0 <= u64::MAX ==> r == Some(
                all.push(
                    (
                        w[0],
                        Owner {
                            uid: u->Some_0 as u32,
                            gid: g->Some_0 as u32,
                            mode: m->Some_0 as u32,
                            caps: Some(number(h, 16)->Some_0 as u64),
                        },
                    ),
                ),
            )
        }),
{
    let n = lines.len() as int;
    lemma_owners_prefix(lines, line, n);
    assert(lines.push(line)[n] == line);
    let w = words_of(line);
    reveal_strlit("capabilities=");
    reveal_strlit("capabilities=0x");
    let k = "capabilities="@;
    if w.len() == 5 && w[4] == "capabilities=0x"@ + h {
        assert(w[4].take(k.len() as int) =~= k);
        let t = w[4].skip(k.len() as int);
        assert(t[0] == '0' && t[1] == 'x');
        assert(t.skip(2) =~= h);
        assert(without_0x(h) == h);
        assert(without_0x(t) == h);
    }
    if w.len() == 5 && w[4] == k + h {
        assert(w[4].take(k.len() as int) =~= k);
        assert(w[4].skip(k.len() as int) =~= h);
        assert(without_0x(h) == h);
    }
}

proof fn lemma_owners_prefix(lines: Seq<Seq<char>>, line: Seq<char>, n: int)
    requires
        0 <= n <= lines.len(),
    ensures
        owners_in(lines.push(line), n) == owners_in(lines, n),
    decreases n,
{
    if n > 0 {
        lemma_owners_prefix(lines, line, n - 1);
        assert(lines.push(line)[n - 1] == lines[n - 1]);
    }
}

/// A line of file_contexts has the device path with its special characters
/// escaped, and the label; a node without a label has no line. A line of
/// symlinks has the path and the target; what is no symlink has no line.
pub proof fn labels_and_targets_are_written(mount: Seq<char>, v: VisitView)
    ensures
        ({
            let device = device_of(mount, path_text(v.rel));
            let e = escaped(device, device.len() as int);
            match v.meta.selinux {
                Some(label) => contexts_line(mount, v) == e + seq![' '] + label + seq!['\n'],
                None => contexts_line(mount, v).len() == 0,
            }
        }),
        match v.link {
            Some(t) => symlinks_line(mount, v) == config_for(mount, v) + seq![' '] + text_of(t)
                + seq!['\n'],
            None => symlinks_line(mount, v).len() == 0,
        },
{
    reveal_strlit(" ");
    reveal_strlit("\n");
    assert(" "@ =~= seq![' ']);
    assert("\n"@ =~= seq!['\n']);
}

proof fn lemma_pairs_prefix(lines: Seq<Seq<char>>, line: Seq<char>, c: char, n: int)
    requires
        0 <= n <= lines.len(),
    ensures
        pairs_in(lines.push(line), c, n) == pairs_in(lines, c, n),
        labels_in(lines.push(line), n) == labels_in(lines, n),
    decreases n,
{
    if n > 0 {
        lemma_pairs_prefix(lines, line, c, n - 1);
        assert(lines.push(line)[n - 1] == lines[n - 1]);
    }
}

/// A line with a separator adds what stands before the first one and what
/// stands behind it; a line without one is passed over.
pub proof fn pairs_are_read(lines: Seq<Seq<char>>, c: char, key: Seq<char>, value: Seq<char>)
    requires
        !key.contains(c),
    ensures
        ({
            let n = lines.len() as int;
            let all = pairs_in(lines, c, n);
            &&& pairs_in(lines.push(key + seq![c] + value), c, n + 1) == all.push((key, value))
            &&& pairs_in(lines.push(key), c, n + 1) == all
        }),
{
    let n = lines.len() as int;
    let line = key + seq![c] + value;
    lemma_pairs_prefix(lines, line, c, n);
    lemma_pairs_prefix(lines, key, c, n);
    texts_are_parted(key, c, value);
    assert(lines.push(line)[n] == line && lines.push(key)[n] == key);
}

/// A line of file_contexts adds the path without its escapes and the label
/// without the white space around it.
pub proof fn labels_are_read(
    lines: Seq<Seq<char>>,
    path: Seq<char>,
    a: Seq<char>,
    label: Seq<char>,
    b: Seq<char>,
)
    requires
        is_solid(path),
        a.len() > 0,
        is_white(a),
        is_tight(label),
        is_white(b),
    ensures
        labels_in(lines.push(path + (a + label + b)), lines.len() + 1int) == labels_in(
            lines,
            lines.len() as int,
        ).push((unescaped(path, 0), label)),
        labels_in(lines.push(path), lines.len() + 1int) == labels_in(lines, lines.len() as int),
{
    let n = lines.len() as int;
    let rest = a + label + b;
    let line = path + rest;
    lemma_pairs_prefix(lines, line, '=', n);
    lemma_pairs_prefix(lines, path, '=', n);
    assert(lines.push(line)[n] == line && lines.push(path)[n] == path);
    lemma_solid_span(path, rest, 0);
    lemma_solid_span(path, Seq::empty(), 0);
    assert(path + Seq::<char>::empty() =~= path);
    assert(rest[0] == a[0]);
    white_space_is_unicode(a[0]);
    assert(line[path.len() as int] == a[0]);
    assert(line.take(path.len() as int) =~= path);
    let after = a.skip(1);
    assert(line.skip(path.len() as int + 1) =~= after + label + b);
    assert forall|i: int| 0 <= i < after.len() implies crate::laws::texts::white_points().contains(
        #[trigger] after[i] as int,
    ) by {
        assert(after[i] == a[i + 1]);
    }
    trimming_takes_white_space_off(after, label, b);
}

proof fn lemma_solid_span(path: Seq<char>, rest: Seq<char>, i: int)
    requires
        is_solid(path),
        0 <= i <= path.len(),
        rest.len() == 0 || crate::words::is_space(rest[0]),
    ensures
        crate::words::span(path + rest, false, i) == path.len(),
    decreases path.len() - i,
{
    let s = path + rest;
    if i < path.len() {
        assert(s[i] == path[i]);
        white_space_is_unicode(path[i]);
        lemma_solid_span(path, rest, i + 1);
    } else if rest.len() > 0 {
        assert(s[i] == rest[0]);
    }
}

/// The info file starts with the partition and its mount point, and has one
/// line with a key and a value for each thing that is recorded.
pub proof fn info_is_written(
    part: Seq<char>,
    mount: Seq<char>,
    info: Seq<(Seq<char>, Seq<char>)>,
    key: Seq<char>,
    value: Seq<char>,
)
    ensures
        info_head(part, mount)
            == "part="@ + part + seq!['\n'] + "mount_point="@ + mount + seq!['\n'],
        info_text(info.push((key, value)), info.len() + 1int) == info_text(info, info.len() as int)
            + key + seq!['='] + value + seq!['\n'],
        info_text(Seq::empty(), 0).len() == 0,
{
    reveal_strlit("\n");
    reveal_strlit("=");
    reveal_strlit("\nmount_point=");
    reveal_strlit("mount_point=");
    assert("\n"@ =~= seq!['\n']);
    assert("="@ =~= seq!['=']);
    assert("\nmount_point="@ =~= seq!['\n'] + "mount_point="@);
    assert(info_head(part, mount) =~= "part="@ + part + seq!['\n'] + "mount_point="@ + mount + seq![
        '\n',
    ]);
    lemma_info_prefix(info, (key, value), info.len() as int);
    assert(info.push((key, value))[info.len() as int] == (key, value));
}

proof fn lemma_info_prefix(
    info: Seq<(Seq<char>, Seq<char>)>,
    x: (Seq<char>, Seq<char>),
    n: int,
)
    requires
        0 <= n <= info.len(),
    ensures
        info_text(info.push(x), n) == info_text(info, n),
    decreases n,
{
    if n > 0 {
        lemma_info_prefix(info, x, n - 1);
        assert(info.push(x)[n - 1] == info[n - 1]);
    }
}

} // verus!
