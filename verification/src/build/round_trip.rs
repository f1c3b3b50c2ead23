//! The metadata files that an extraction writes are read back as they were
//! meant.
use vstd::prelude::*;
use crate::apart::{is_word, lemma_add_line, lemma_alone, lemma_decimal, lemma_digits_word,
    lemma_hex, lemma_octal4, lemma_pair, lemma_plain_line, lemma_plain_then, lemma_then,
    lemma_word_span, one_line, plain, then};
use crate::build::config::{labels_in, owner_in, owners_in, pairs_in, without_0x, Owner};
use crate::extract::{config_of, contexts_line, contexts_text, device_of, escape_round_trip, escaped,
    fs_config_line, fs_config_text, info_head, info_text, path_text, symlinks_line, symlinks_text,
    VisitView};
use crate::text::{decimal, hex, octal4, text_of};
use crate::words::{find, has_prefix, is_space, kept, lemma_find, lemma_span, lines_of, number_upto,
    split_at, split_space, trimmed, words_of};

verus! {

/// The capabilities of a node as a word of fs_config.
pub open spec fn caps_word(c: u64) -> Seq<char> {
    "capabilities=0x"@ + hex(c as nat)
}

/// A line of fs_config without its end.
pub open spec fn owner_line(path: Seq<char>, uid: nat, gid: nat, mode: nat, caps: Option<u64>) -> Seq<
    char,
> {
    then(
        path,
        then(
            decimal(uid),
            then(
                decimal(gid),
                match caps {
                    Some(c) => then(octal4(mode), caps_word(c)),
                    None => octal4(mode),
                },
            ),
        ),
    )
}

proof fn lemma_caps_word(c: u64)
    ensures
        is_word(caps_word(c)),
        has_prefix(caps_word(c), "capabilities="@),
        number_upto(
            without_0x(caps_word(c).skip("capabilities="@.len() as int)),
            16,
            u64::MAX as int,
        ) == Some(c as nat),
{
    reveal_strlit("capabilities=");
    reveal_strlit("capabilities=0x");
    let h = hex(c as nat);
    lemma_hex(c as nat);
    lemma_digits_word(h, 16);
    let w = caps_word(c);
    let k = "capabilities="@;
    assert forall|i: int| 0 <= i < w.len() implies !is_space(#[trigger] w[i]) by {
        if i >= 15 {
            assert(w[i] == h[i - 15]);
        } else {
            assert(w[i] == "capabilities=0x"@[i]);
        }
    }
    assert(w.take(k.len() as int) =~= k);
    let t = w.skip(k.len() as int);
    assert(t[0] == '0' && t[1] == 'x');
    assert(t.skip(2) =~= h);
    assert(without_0x(h) == h) by {
        if h.len() >= 2 {
            assert(h[1] != 'x');
        }
    }
}

/// A line of fs_config says what it was made of.
pub proof fn lemma_owner_line(path: Seq<char>, uid: nat, gid: nat, mode: nat, caps: Option<u64>)
    requires
        is_word(path),
        uid <= u32::MAX,
        gid <= u32::MAX,
        mode <= u32::MAX,
    ensures
        ({
            let s = owner_line(path, uid, gid, mode, caps);
            let f = words_of(s);
            &&& one_line(s)
            &&& f.len() == if caps is Some {
                5int
            } else {
                4
            }
            &&& f[0] == path
            &&& f[1] == decimal(uid)
            &&& f[2] == decimal(gid)
            &&& f[3] == octal4(mode)
            &&& caps is Some ==> f[4] == caps_word(caps->Some_0)
            &&& owner_in(f) == Some(
                Owner { uid: uid as u32, gid: gid as u32, mode: mode as u32, caps },
            )
        }),
{
    lemma_decimal(uid);
    lemma_decimal(gid);
    lemma_octal4(mode);
    lemma_digits_word(decimal(uid), 10);
    lemma_digits_word(decimal(gid), 10);
    lemma_digits_word(octal4(mode), 8);
    let o = octal4(mode);
    let tail = match caps {
        Some(c) => then(o, caps_word(c)),
        None => o,
    };
    match caps {
        Some(c) => {
            lemma_caps_word(c);
            lemma_then(o, caps_word(c));
            lemma_alone(caps_word(c));
            assert(plain(caps_word(c)));
            lemma_plain_then(o, caps_word(c));
        },
        None => {
            lemma_alone(o);
            assert(plain(o));
        },
    }
    lemma_then(decimal(gid), tail);
    lemma_then(decimal(uid), then(decimal(gid), tail));
    lemma_then(path, then(decimal(uid), then(decimal(gid), tail)));
    lemma_plain_then(decimal(gid), tail);
    lemma_plain_then(decimal(uid), then(decimal(gid), tail));
    lemma_plain_then(path, then(decimal(uid), then(decimal(gid), tail)));
    let s = owner_line(path, uid, gid, mode, caps);
    lemma_plain_line(s);
    let f = words_of(s);
    assert(f[0] == path);
    assert(f[1] == decimal(uid));
    assert(f[2] == decimal(gid));
    assert(f[3] == o);
    match caps {
        Some(c) => {
            assert(f[4] == caps_word(c));
        },
        None => {
            assert(f.len() == 4);
        },
    }
}

/// The path of a node in fs_config.
pub open spec fn config_for(mount: Seq<char>, v: VisitView) -> Seq<char> {
    config_of(device_of(mount, path_text(v.rel)))
}

/// A node whose path fs_config can hold, with numbers in their ranges.
pub open spec fn recordable(mount: Seq<char>, v: VisitView) -> bool {
    &&& is_word(config_for(mount, v))
    &&& 0 <= v.meta.uid <= u32::MAX
    &&& 0 <= v.meta.gid <= u32::MAX
    &&& 0 <= v.meta.mode <= u32::MAX
}

/// What fs_config is to say of a node.
pub open spec fn owner_of(v: VisitView) -> Owner {
    Owner {
        uid: v.meta.uid as u32,
        gid: v.meta.gid as u32,
        mode: v.meta.mode as u32,
        caps: v.meta.capabilities,
    }
}

/// The front of a line, grouped from the right.
proof fn lemma_grouped(p: Seq<char>, u: Seq<char>, g: Seq<char>, t: Seq<char>)
    ensures
        p.push(' ') + u + " "@ + g + " "@ + t == then(p, then(u, then(g, t))),
{
    reveal_strlit(" ");
    assert(p.push(' ') + u + " "@ + g + " "@ + t =~= then(p, then(u, then(g, t))));
}

/// The end of a line, grouped from the right.
proof fn lemma_tail(a: Seq<char>, o: Seq<char>, k: Seq<char>, h: Seq<char>)
    ensures
        a + o + (" "@ + k) + h == a + then(o, k + h),
{
    assert(a + o + (" "@ + k) + h =~= a + then(o, k + h));
}

pub proof fn lemma_config_line(mount: Seq<char>, v: VisitView)
    ensures
        fs_config_line(mount, v) == owner_line(
            config_for(mount, v),
            v.meta.uid as nat,
            v.meta.gid as nat,
            v.meta.mode as nat,
            v.meta.capabilities,
        ) + "\n"@,
{
    let path = config_for(mount, v);
    let u = decimal(v.meta.uid as nat);
    let g = decimal(v.meta.gid as nat);
    let o = octal4(v.meta.mode as nat);
    match v.meta.capabilities {
        Some(c) => {
            let h = hex(c as nat);
            assert(" capabilities=0x"@ == " "@ + "capabilities=0x"@) by {
                reveal_strlit(" ");
                reveal_strlit(" capabilities=0x");
                reveal_strlit("capabilities=0x");
                assert(" capabilities=0x"@ =~= " "@ + "capabilities=0x"@);
            }
            lemma_tail(path.push(' ') + u + " "@ + g + " "@, o, "capabilities=0x"@, h);
            lemma_grouped(path, u, g, then(o, caps_word(c)));
        },
        None => {
            lemma_grouped(path, u, g, o);
        },
    }
}

/// What fs_config is to say of the first `n` nodes.
pub open spec fn owners_of(mount: Seq<char>, v: Seq<VisitView>, n: int) -> Seq<(Seq<char>, Owner)> {
    Seq::new(n as nat, |i: int| (config_for(mount, v[i]), owner_of(v[i])))
}

proof fn lemma_owners_same(a: Seq<Seq<char>>, b: Seq<Seq<char>>, n: int)
    requires
        n <= a.len(),
        n <= b.len(),
        forall|i: int| 0 <= i < n ==> a[i] == b[i],
    ensures
        owners_in(a, n) == owners_in(b, n),
    decreases n,
{
    if n > 0 {
        lemma_owners_same(a, b, n - 1);
    }
}

proof fn lemma_fs_config(mount: Seq<char>, v: Seq<VisitView>, n: int)
    requires
        0 <= n <= v.len(),
        forall|i: int| 0 <= i < n ==> recordable(mount, #[trigger] v[i]),
    ensures
        ({
            let t = fs_config_text(mount, v, n);
            &&& t.len() == 0 || t.last() == '\n'
            &&& lines_of(t).len() == n
            &&& owners_in(lines_of(t), n) == Some(owners_of(mount, v, n))
        }),
    decreases n,
{
    if n > 0 {
        lemma_fs_config(mount, v, n - 1);
        let a = fs_config_text(mount, v, n - 1);
        let x = v[n - 1];
        assert(recordable(mount, x));
        lemma_config_line(mount, x);
        let s = owner_line(
            config_for(mount, x),
            x.meta.uid as nat,
            x.meta.gid as nat,
            x.meta.mode as nat,
            x.meta.capabilities,
        );
        lemma_owner_line(
            config_for(mount, x),
            x.meta.uid as nat,
            x.meta.gid as nat,
            x.meta.mode as nat,
            x.meta.capabilities,
        );
        lemma_add_line(a, s);
        let ls = lines_of(a).push(s);
        lemma_owners_same(lines_of(a), ls, n - 1);
        assert(owners_of(mount, v, n - 1).push((config_for(mount, x), owner_of(x))) =~= owners_of(
            mount,
            v,
            n,
        ));
    } else {
        assert(owners_of(mount, v, 0) =~= Seq::<(Seq<char>, Owner)>::empty());
    }
}

/// Owners, modes and capabilities survive in fs_config: reading the lines that
/// were written for some nodes gives each path with its metadata. It holds of
/// paths without white space.
pub proof fn fs_config_round_trip(mount: Seq<char>, v: Seq<VisitView>)
    requires
        forall|i: int| 0 <= i < v.len() ==> recordable(mount, #[trigger] v[i]),
    ensures
        ({
            let lines = lines_of(fs_config_text(mount, v, v.len() as int));
            owners_in(lines, lines.len() as int) == Some(owners_of(mount, v, v.len() as int))
        }),
{
    lemma_fs_config(mount, v, v.len() as int);
}

proof fn lemma_escaped_word(s: Seq<char>, n: int)
    requires
        0 <= n <= s.len(),
        forall|i: int| 0 <= i < s.len() ==> !is_space(#[trigger] s[i]),
    ensures
        forall|i: int| 0 <= i < escaped(s, n).len() ==> !is_space(#[trigger] escaped(s, n)[i]),
        n <= escaped(s, n).len(),
    decreases n,
{
    if n > 0 {
        lemma_escaped_word(s, n - 1);
        assert(!is_space('\\'));
        assert(!is_space(s[n - 1]));
    }
}

/// The device path of a node.
pub open spec fn device_for(mount: Seq<char>, v: VisitView) -> Seq<char> {
    device_of(mount, path_text(v.rel))
}

/// A node whose path and label file_contexts can hold.
pub open spec fn labelable(mount: Seq<char>, v: VisitView) -> bool {
    match v.meta.selinux {
        Some(l) => is_word(device_for(mount, v)) && trimmed(l) == l && !l.contains('\n'),
        None => true,
    }
}

/// The labels of the first `n` nodes.
pub open spec fn labels_of(mount: Seq<char>, v: Seq<VisitView>, n: int) -> Seq<
    (Seq<char>, Seq<char>),
>
    decreases n,
{
    if n <= 0 {
        Seq::empty()
    } else {
        match v[n - 1].meta.selinux {
            Some(l) => labels_of(mount, v, n - 1).push((device_for(mount, v[n - 1]), l)),
            None => labels_of(mount, v, n - 1),
        }
    }
}

/// A trimmed text ends in no white space.
proof fn lemma_trimmed_end(l: Seq<char>)
    requires
        trimmed(l) == l,
        l.len() > 0,
    ensures
        !is_space(l.last()),
{
    let n = l.len() as int;
    if is_space(l.last()) {
        lemma_kept(l, n - 1);
        assert(kept(l, n) == kept(l, n - 1));
        assert(trimmed(l).len() < n) by {
            lemma_span(l, true, 0);
        }
    }
}

proof fn lemma_kept(l: Seq<char>, n: int)
    requires
        0 <= n,
    ensures
        0 <= kept(l, n) <= n,
    decreases n,
{
    if n > 0 && is_space(l[n - 1]) {
        lemma_kept(l, n - 1);
    }
}

/// A word, a space and the rest, split at the space.
proof fn lemma_split_word(w: Seq<char>, rest: Seq<char>)
    requires
        is_word(w),
    ensures
        split_space(then(w, rest)) == Some((w, rest)),
        split_at(then(w, rest), ' ') == Some((w, rest)),
{
    reveal_strlit(" ");
    let s = then(w, rest);
    lemma_word_span(w, " "@ + rest, 0);
    assert(s.take(w.len() as int) =~= w);
    assert(s.skip(w.len() as int + 1) =~= rest);
    lemma_find(s, ' ', 0);
    let e = find(s, ' ', 0);
    assert(s[w.len() as int] == ' ');
    assert(e == w.len()) by {
        if e < w.len() {
            assert(s[e] == w[e]);
            assert(is_space(' '));
        }
    }
}

/// A line of a word, a space and a text that a line can hold.
proof fn lemma_word_line(w: Seq<char>, rest: Seq<char>)
    requires
        is_word(w),
        one_line(rest),
    ensures
        one_line(then(w, rest)),
{
    reveal_strlit(" ");
    let s = then(w, rest);
    if s.contains('\n') {
        let i = choose|i: int| 0 <= i < s.len() && s[i] == '\n';
        if i < w.len() {
            assert(s[i] == w[i]);
            assert(is_space('\n'));
        } else if i > w.len() {
            assert(s[i] == rest[i - w.len() - 1]);
            assert(rest.contains('\n'));
        }
    }
    if rest.len() > 0 {
        assert(s.last() == rest.last());
    } else {
        assert(s.last() == ' ');
    }
}

proof fn lemma_labels_same(a: Seq<Seq<char>>, b: Seq<Seq<char>>, n: int)
    requires
        n <= a.len(),
        n <= b.len(),
        forall|i: int| 0 <= i < n ==> a[i] == b[i],
    ensures
        labels_in(a, n) == labels_in(b, n),
        pairs_in(a, ' ', n) == pairs_in(b, ' ', n),
    decreases n,
{
    if n > 0 {
        lemma_labels_same(a, b, n - 1);
    }
}

proof fn lemma_contexts(mount: Seq<char>, v: Seq<VisitView>, n: int)
    requires
        0 <= n <= v.len(),
        forall|i: int| 0 <= i < n ==> labelable(mount, #[trigger] v[i]),
    ensures
        ({
            let t = contexts_text(mount, v, n);
            &&& t.len() == 0 || t.last() == '\n'
            &&& labels_in(lines_of(t), lines_of(t).len() as int) == labels_of(mount, v, n)
        }),
    decreases n,
{
    if n > 0 {
        lemma_contexts(mount, v, n - 1);
        let a = contexts_text(mount, v, n - 1);
        let x = v[n - 1];
        assert(labelable(mount, x));
        match x.meta.selinux {
            Some(l) => {
                let d = device_for(mount, x);
                let e = escaped(d, d.len() as int);
                lemma_escaped_word(d, d.len() as int);
                escape_round_trip(d);
                assert(is_word(e));
                if l.len() > 0 {
                    lemma_trimmed_end(l);
                    assert(is_space('\r'));
                }
                let s = then(e, l);
                lemma_word_line(e, l);
                lemma_split_word(e, l);
                assert(contexts_line(mount, x) =~= s + "\n"@);
                lemma_add_line(a, s);
                let ls = lines_of(a).push(s);
                lemma_labels_same(lines_of(a), ls, lines_of(a).len() as int);
            },
            None => {
                assert(a + Seq::<char>::empty() =~= a);
            },
        }
    } else {
        assert(labels_in(lines_of(Seq::empty()), 0) =~= Seq::<(Seq<char>, Seq<char>)>::empty());
    }
}

/// SELinux labels survive in file_contexts: reading the lines that were
/// written for some nodes gives each device path with its label. It holds of
/// paths without white space and labels without white space around them.
pub proof fn file_contexts_round_trip(mount: Seq<char>, v: Seq<VisitView>)
    requires
        forall|i: int| 0 <= i < v.len() ==> labelable(mount, #[trigger] v[i]),
    ensures
        ({
            let lines = lines_of(contexts_text(mount, v, v.len() as int));
            labels_in(lines, lines.len() as int) == labels_of(mount, v, v.len() as int)
        }),
{
    lemma_contexts(mount, v, v.len() as int);
}

/// A node whose path and target symlinks can hold.
pub open spec fn linkable(mount: Seq<char>, v: VisitView) -> bool {
    match v.link {
        Some(t) => is_word(config_for(mount, v)) && one_line(text_of(t)),
        None => true,
    }
}

/// The targets of the first `n` nodes.
pub open spec fn links_of(mount: Seq<char>, v: Seq<VisitView>, n: int) -> Seq<
    (Seq<char>, Seq<char>),
>
    decreases n,
{
    if n <= 0 {
        Seq::empty()
    } else {
        match v[n - 1].link {
            Some(t) => links_of(mount, v, n - 1).push((config_for(mount, v[n - 1]), text_of(t))),
            None => links_of(mount, v, n - 1),
        }
    }
}

proof fn lemma_symlinks(mount: Seq<char>, v: Seq<VisitView>, n: int)
    requires
        0 <= n <= v.len(),
        forall|i: int| 0 <= i < n ==> linkable(mount, #[trigger] v[i]),
    ensures
        ({
            let t = symlinks_text(mount, v, n);
            &&& t.len() == 0 || t.last() == '\n'
            &&& pairs_in(lines_of(t), ' ', lines_of(t).len() as int) == links_of(mount, v, n)
        }),
    decreases n,
{
    if n > 0 {
        lemma_symlinks(mount, v, n - 1);
        let a = symlinks_text(mount, v, n - 1);
        let x = v[n - 1];
        assert(linkable(mount, x));
        match x.link {
            Some(t) => {
                let c = config_for(mount, x);
                let s = then(c, text_of(t));
                lemma_word_line(c, text_of(t));
                lemma_split_word(c, text_of(t));
                assert(symlinks_line(mount, x) =~= s + "\n"@);
                lemma_add_line(a, s);
                let ls = lines_of(a).push(s);
                lemma_labels_same(lines_of(a), ls, lines_of(a).len() as int);
            },
            None => {
                assert(a + Seq::<char>::empty() =~= a);
            },
        }
    } else {
        assert(pairs_in(lines_of(Seq::empty()), ' ', 0) =~= Seq::<(Seq<char>, Seq<char>)>::empty());
    }
}

/// Symlinks survive in the symlinks file: reading the lines that were written
/// for some nodes gives each path with its target. It holds of paths without
/// white space and targets that a line can hold.
pub proof fn symlinks_round_trip(mount: Seq<char>, v: Seq<VisitView>)
    requires
        forall|i: int| 0 <= i < v.len() ==> linkable(mount, #[trigger] v[i]),
    ensures
        ({
            let lines = lines_of(symlinks_text(mount, v, v.len() as int));
            pairs_in(lines, ' ', lines.len() as int) == links_of(mount, v, v.len() as int)
        }),
{
    lemma_symlinks(mount, v, v.len() as int);
}

/// What the info file is to say: the partition, its mount point, and the
/// first `n` parameters.
pub open spec fn info_pairs(
    part: Seq<char>,
    mount: Seq<char>,
    info: Seq<(Seq<char>, Seq<char>)>,
    n: int,
) -> Seq<(Seq<char>, Seq<char>)> {
    seq![("part"@, part), ("mount_point"@, mount)] + info.take(n)
}

/// A parameter that a line can hold.
pub open spec fn is_parameter(x: (Seq<char>, Seq<char>)) -> bool {
    !x.0.contains('=') && one_line(x.0 + "="@ + x.1)
}

proof fn lemma_pairs_same(a: Seq<Seq<char>>, b: Seq<Seq<char>>, c: char, n: int)
    requires
        n <= a.len(),
        n <= b.len(),
        forall|i: int| 0 <= i < n ==> a[i] == b[i],
    ensures
        pairs_in(a, c, n) == pairs_in(b, c, n),
    decreases n,
{
    if n > 0 {
        lemma_pairs_same(a, b, c, n - 1);
    }
}

/// One more line with a parameter.
proof fn lemma_add_parameter(t: Seq<char>, x: (Seq<char>, Seq<char>))
    requires
        t.len() == 0 || t.last() == '\n',
        is_parameter(x),
    ensures
        ({
            let u = t + (x.0 + "="@ + x.1 + "\n"@);
            &&& u.len() > 0 && u.last() == '\n'
            &&& pairs_in(lines_of(u), '=', lines_of(u).len() as int) == pairs_in(
                lines_of(t),
                '=',
                lines_of(t).len() as int,
            ).push(x)
        }),
{
    let s = x.0 + "="@ + x.1;
    lemma_add_line(t, s);
    lemma_pair(x.0, x.1);
    let ls = lines_of(t).push(s);
    lemma_pairs_same(lines_of(t), ls, '=', lines_of(t).len() as int);
}

proof fn lemma_info(
    part: Seq<char>,
    mount: Seq<char>,
    info: Seq<(Seq<char>, Seq<char>)>,
    n: int,
)
    requires
        0 <= n <= info.len(),
        is_parameter(("part"@, part)),
        is_parameter(("mount_point"@, mount)),
        forall|i: int| 0 <= i < info.len() ==> is_parameter(#[trigger] info[i]),
    ensures
        ({
            let t = info_head(part, mount) + info_text(info, n);
            &&& t.len() > 0 && t.last() == '\n'
            &&& pairs_in(lines_of(t), '=', lines_of(t).len() as int) == info_pairs(
                part,
                mount,
                info,
                n,
            )
        }),
    decreases n,
{
    let t = info_head(part, mount) + info_text(info, n);
    if n > 0 {
        lemma_info(part, mount, info, n - 1);
        let before = info_head(part, mount) + info_text(info, n - 1);
        let x = info[n - 1];
        lemma_add_parameter(before, x);
        assert(t =~= before + (x.0 + "="@ + x.1 + "\n"@));
        assert(info_pairs(part, mount, info, n - 1).push(x) =~= info_pairs(part, mount, info, n));
    } else {
        reveal_strlit("part=");
        reveal_strlit("\nmount_point=");
        reveal_strlit("part");
        reveal_strlit("mount_point");
        reveal_strlit("=");
        reveal_strlit("\n");
        let e = Seq::<char>::empty();
        let one = "part"@ + "="@ + part + "\n"@;
        let two = "mount_point"@ + "="@ + mount + "\n"@;
        lemma_add_parameter(e, ("part"@, part));
        assert(e + one =~= one);
        lemma_add_parameter(one, ("mount_point"@, mount));
        assert(t =~= one + two);
        assert(pairs_in(lines_of(e), '=', lines_of(e).len() as int) =~= Seq::<
            (Seq<char>, Seq<char>),
        >::empty());
        assert(info_pairs(part, mount, info, 0) =~= Seq::<(Seq<char>, Seq<char>)>::empty().push(
            ("part"@, part),
        ).push(("mount_point"@, mount)));
    }
}

/// Filesystem parameters survive in the info file: reading the lines that were
/// written gives the partition, its mount point and each parameter. It holds
/// of keys without an equals sign and of values that a line can hold.
pub proof fn info_round_trip(part: Seq<char>, mount: Seq<char>, info: Seq<(Seq<char>, Seq<char>)>)
    requires
        is_parameter(("part"@, part)),
        is_parameter(("mount_point"@, mount)),
        forall|i: int| 0 <= i < info.len() ==> is_parameter(#[trigger] info[i]),
    ensures
        ({
            let lines = lines_of(info_head(part, mount) + info_text(info, info.len() as int));
            pairs_in(lines, '=', lines.len() as int) == info_pairs(
                part,
                mount,
                info,
                info.len() as int,
            )
        }),
{
    lemma_info(part, mount, info, info.len() as int);
}

} // verus!
