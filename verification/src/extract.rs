//! Extracts a filesystem image into a folder and saves the metadata a
//! folder can't hold (owners, modes, SELinux labels, capabilities, symlinks)
//! next to it, so the image can be rebuilt later:
//!
//! ```text
//! <out>/<part>/                    files
//! <out>/config/<part>_fs_config     <path> <uid> <gid> <mode> [capabilities=0x..]
//! <out>/config/<part>_file_contexts <path regex> <selinux label>
//! <out>/config/<part>_symlinks      <path> <target>
//! <out>/config/<part>_info          filesystem parameters, key=value
//! ```
//!
//! Paths are device paths: the image root is the mount point, taken from
//! the volume name ("/" on system-as-root, "vendor" -> "/vendor", ...).
//! fs_config paths drop the leading "/" (the root of "/" is written as "/").
use vstd::prelude::*;
use vstd::string::StringExecFns;
use vstd::utf8::valid_utf8;
use crate::bytes::{get32, le16, le32, push_bytes, same_bytes};
use crate::error::Error;
use crate::fs::ext4::{is_ext4, open_fault, Ext4, EXT4_MAGIC};
use crate::fs::mkerofs::layout::clone_bytes;
use crate::fs::mkext4::inode::lost_found_name;
use crate::fs::order::{by_name, labels, latest, latest_by_name, order, positions_view, Named};
use crate::fs::{info_view, list_view, Filesystem, Kind, Meta, MetaView};
use crate::text::{chars_of, debug_text, decimal, hex, lossy, octal4, push_decimal, push_hex,
    push_octal4, quoted, string_of, text_of};
use crate::words::{is_space, space, trim, trim_front, trimmed, without_front};

verus! {

pub const SPARSE_MAGIC: u32 = 0xED26_FF3A;

pub const EROFS_MAGIC: u32 = 0xE0F5_E1E2;

/// What an image is taken for, by its first 2048 bytes.
pub open spec fn image_fault(image: Seq<u8>) -> Option<Error> {
    if image.len() >= 4 && le32(image, 0) == SPARSE_MAGIC {
        Some(Error::SparseImage)
    } else if image.len() >= 1028 && le32(image, 1024) == EROFS_MAGIC {
        Some(Error::ErofsImage)
    } else if image.len() < 1082 || le16(image, 1080) != EXT4_MAGIC {
        Some(Error::UnknownFilesystem)
    } else {
        open_fault(image)
    }
}

/// Opens an image for extraction.
pub fn open_image(image: Vec<u8>) -> (r: Result<Ext4, Error>)
    ensures
        match r {
            Ok(fs) => image_fault(image@) is None && fs.inv() && fs@ == image@,
            Err(e) => image_fault(image@) == Some(e),
        },
{
    if image.len() >= 4 && get32(&image, 0) == SPARSE_MAGIC {
        return Err(Error::SparseImage);
    }
    if image.len() >= 1028 && get32(&image, 1024) == EROFS_MAGIC {
        return Err(Error::ErofsImage);
    }
    if !is_ext4(&image) {
        return Err(Error::UnknownFilesystem);
    }
    Ext4::open(image)
}

/// The mount point for a volume name.
pub open spec fn mount_of(volume: Seq<char>, part: Seq<char>) -> Seq<char> {
    let v = trimmed(volume);
    if v.len() > 0 && v[0] == '/' {
        v
    } else if v.len() > 0 {
        seq!['/'] + v
    } else {
        seq!['/'] + part
    }
}

/// Mount point from the volume name: "/" stays, "vendor" -> "/vendor",
/// empty -> "/<part>".
pub fn mount_point(volume: &str, part: &str) -> (r: String)
    ensures
        r@ == mount_of(volume@, part@),
{
    let chars: Vec<char> = chars_of(volume);
    let v: Vec<char> = trim(&chars);
    if v.len() > 0 && v[0] == '/' {
        return string_of(&v);
    }
    let mut s: String = String::new();
    s.push('/');
    if v.len() > 0 {
        let t: String = string_of(&v);
        s.append(t.as_str());
    } else {
        s.append(part);
    }
    assert(s@ =~= mount_of(volume@, part@));
    s
}

/// The path on the device of something in an image that is mounted at
/// `mount`, e.g. /vendor/bin/sh or /system/bin/sh on system-as-root.
pub open spec fn device_of(mount: Seq<char>, rel: Seq<char>) -> Seq<char> {
    if rel.len() == 0 {
        mount
    } else if mount == seq!['/'] {
        seq!['/'] + rel
    } else {
        mount.push('/') + rel
    }
}

/// The path on the device of something in an image.
pub fn device_path(mount: &str, rel: &str) -> (r: String)
    ensures
        r@ == device_of(mount@, rel@),
{
    let m: Vec<char> = chars_of(mount);
    let t: Vec<char> = chars_of(rel);
    let mut s: String = String::new();
    if t.len() == 0 {
        s.append(mount);
        assert(s@ =~= mount@);
        return s;
    }
    let root: bool = m.len() == 1 && m[0] == '/';
    assert(root == (mount@ =~= seq!['/']));
    if !root {
        s.append(mount);
    }
    s.push('/');
    s.append(rel);
    assert(s@ =~= device_of(mount@, rel@));
    s
}

/// A device path as fs_config has it: without the leading "/".
pub open spec fn config_of(device: Seq<char>) -> Seq<char> {
    let p = without_front(device, '/');
    if p.len() == 0 {
        seq!['/']
    } else {
        p
    }
}

/// A device path as fs_config has it.
pub fn config_path(device: &str) -> (r: String)
    ensures
        r@ == config_of(device@),
{
    let chars: Vec<char> = chars_of(device);
    let p: Vec<char> = trim_front(&chars, '/');
    if p.len() == 0 {
        let mut s: String = String::new();
        s.push('/');
        assert(s@ =~= seq!['/']);
        s
    } else {
        string_of(&p)
    }
}

/// Regex metacharacters.
pub open spec fn is_meta(c: char) -> bool {
    c == '.' || c == '^' || c == '$' || c == '*' || c == '+' || c == '?' || c == '(' || c == ')' || c
        == '[' || c == ']' || c == '{' || c == '}' || c == '|' || c == '\\'
}

/// The first `n` characters of a path, with a backslash before each
/// metacharacter.
pub open spec fn escaped(s: Seq<char>, n: int) -> Seq<char>
    decreases n,
{
    if n <= 0 {
        Seq::empty()
    } else if is_meta(s[n - 1]) {
        escaped(s, n - 1).push('\\').push(s[n - 1])
    } else {
        escaped(s, n - 1).push(s[n - 1])
    }
}

fn metacharacter(c: char) -> (r: bool)
    ensures
        r == is_meta(c),
{
    c == '.' || c == '^' || c == '$' || c == '*' || c == '+' || c == '?' || c == '(' || c == ')' || c
        == '[' || c == ']' || c == '{' || c == '}' || c == '|' || c == '\\'
}

/// Escapes regex metacharacters for file_contexts, e.g. `libc++.so` -> `libc\+\+\.so`.
pub fn regex_escape(path: &str) -> (r: String)
    ensures
        r@ == escaped(path@, path@.len() as int),
{
    let chars: Vec<char> = chars_of(path);
    let mut out: String = String::new();
    let mut i: usize = 0;
    assert(out@ =~= escaped(path@, 0));
    while i < chars.len()
        invariant
            i <= chars@.len(),
            chars@ == path@,
            out@ == escaped(path@, i as int),
        decreases chars.len() - i,
    {
        if metacharacter(chars[i]) {
            out.push('\\');
        }
        out.push(chars[i]);
        i += 1;
    }
    out
}

/// A text from `i` on, where a backslash stands for the character behind it.
pub open spec fn unescaped(s: Seq<char>, i: int) -> Seq<char>
    decreases s.len() - i,
{
    if i >= s.len() {
        Seq::empty()
    } else if s[i] == '\\' && i + 1 < s.len() {
        seq![s[i + 1]] + unescaped(s, i + 2)
    } else {
        seq![s[i]] + unescaped(s, i + 1)
    }
}

/// A path from file_contexts, where a backslash stands for the character
/// behind it.
pub fn regex_unescape(s: &[char]) -> (r: Vec<char>)
    ensures
        r@ == unescaped(s@, 0),
{
    let n: usize = s.len();
    let mut out: Vec<char> = Vec::new();
    let mut i: usize = 0;
    assert(out@ + unescaped(s@, 0) =~= unescaped(s@, 0));
    while i < n
        invariant
            n == s@.len(),
            i <= n,
            out@ + unescaped(s@, i as int) == unescaped(s@, 0),
        decreases n - i,
    {
        let ghost was = out@;
        if s[i] == '\\' && n - i > 1 {
            out.push(s[i + 1]);
            assert(out@ + unescaped(s@, i + 2) =~= was + (seq![s@[i + 1]] + unescaped(s@, i + 2)));
            i += 2;
        } else {
            out.push(s[i]);
            assert(out@ + unescaped(s@, i + 1) =~= was + (seq![s@[i as int]] + unescaped(s@, i + 1)));
            i += 1;
        }
    }
    assert(out@ + Seq::<char>::empty() =~= out@);
    out
}

/// Reading an escaped path gives back the path.
pub proof fn escape_round_trip(path: Seq<char>)
    ensures
        unescaped(escaped(path, path.len() as int), 0) == path,
{
    let e = escaped(path, path.len() as int);
    lemma_unescape(path, 0);
    assert(escaped(path, 0).len() == 0);
    assert(path.skip(0) =~= path);
}

proof fn lemma_unescape(path: Seq<char>, k: int)
    requires
        0 <= k <= path.len(),
    ensures
        unescaped(escaped(path, path.len() as int), escaped(path, k).len() as int) == path.skip(k),
    decreases path.len() - k,
{
    let n = path.len() as int;
    let e = escaped(path, n);
    if k < n {
        lemma_unescape(path, k + 1);
        lemma_escape_prefix(path, k + 1, n);
        let at = escaped(path, k).len() as int;
        let f = escaped(path, k + 1);
        assert(forall|x: int| 0 <= x < f.len() ==> #[trigger] e[x] == f[x]) by {
            assert forall|x: int| 0 <= x < f.len() implies #[trigger] e[x] == f[x] by {
                assert(e.take(f.len() as int)[x] == e[x]);
            }
        }
        if is_meta(path[k]) {
            assert(f[at] == '\\' && f[at + 1] == path[k]);
            assert(e[at] == '\\' && e[at + 1] == path[k]);
        } else {
            assert(f[at] == path[k]);
            assert(e[at] == path[k]);
        }
        assert(seq![path[k]] + path.skip(k + 1) =~= path.skip(k));
    } else {
        assert(path.skip(n) =~= Seq::<char>::empty());
    }
}

proof fn lemma_escape_prefix(path: Seq<char>, k: int, n: int)
    requires
        0 <= k <= n <= path.len(),
    ensures
        escaped(path, k).len() <= escaped(path, n).len(),
        escaped(path, n).take(escaped(path, k).len() as int) == escaped(path, k),
    decreases n - k,
{
    let a = escaped(path, k);
    if k < n {
        lemma_escape_prefix(path, k, n - 1);
        assert(escaped(path, n).take(a.len() as int) =~= escaped(path, n - 1).take(a.len() as int));
    } else {
        assert(a.take(a.len() as int) =~= a);
    }
}

/// A node that was visited: its path in the image, its metadata, the target
/// of a symlink, and the size of a file.
#[derive(Debug)]
pub struct Visit {
    pub rel: Vec<u8>,
    pub meta: Meta,
    pub link: Option<Vec<u8>>,
    pub bytes: u64,
}

pub struct VisitView {
    pub rel: Seq<u8>,
    pub meta: MetaView,
    pub link: Option<Seq<u8>>,
    pub bytes: int,
}

pub open spec fn bytes_view(b: Option<Vec<u8>>) -> Option<Seq<u8>> {
    match b {
        Some(v) => Some(v@),
        None => None,
    }
}

impl View for Visit {
    type V = VisitView;

    open spec fn view(&self) -> VisitView {
        VisitView {
            rel: self.rel@,
            meta: self.meta@,
            link: bytes_view(self.link),
            bytes: self.bytes as int,
        }
    }
}

pub open spec fn visits_view(v: Seq<Visit>) -> Seq<VisitView> {
    v.map_values(|x: Visit| x@)
}

/// What is to be made in the folder.
#[derive(Debug)]
pub enum Step {
    Dir,
    /// A file with its content.
    File(Vec<u8>),
    /// A symlink with its target.
    Symlink(Vec<u8>),
    /// Device nodes, fifos and sockets: only recorded in fs_config.
    Special,
}

pub enum StepView {
    Dir,
    File(Seq<u8>),
    Symlink(Seq<u8>),
    Special,
}

impl View for Step {
    type V = StepView;

    open spec fn view(&self) -> StepView {
        match self {
            Step::Dir => StepView::Dir,
            Step::File(b) => StepView::File(b@),
            Step::Symlink(b) => StepView::Symlink(b@),
            Step::Special => StepView::Special,
        }
    }
}

/// The path of an entry of the directory `rel`.
pub open spec fn child_path(rel: Seq<u8>, name: Seq<u8>) -> Seq<u8> {
    if rel.len() == 0 {
        name
    } else {
        rel.push(0x2f) + name
    }
}

/// The names in a directory listing.
pub open spec fn list_names<N>(list: Seq<(Seq<u8>, N)>) -> Seq<Seq<u8>> {
    list.map_values(|e: (Seq<u8>, N)| e.0)
}

/// What the last `n` entries of a directory, in the order of their names, put
/// on the stack: the last one first. lost+found is left out at the root.
pub open spec fn pushed<N>(rel: Seq<u8>, list: Seq<(Seq<u8>, N)>, n: int) -> Seq<(Seq<u8>, N)>
    decreases n,
{
    if n <= 0 {
        Seq::empty()
    } else {
        let below = pushed(rel, list, n - 1);
        let e = list[order(list_names(list), list.len() as int)[list.len() - n]];
        if rel.len() == 0 && e.0 == lost_found_name() {
            below
        } else {
            below.push((child_path(rel, e.0), e.1))
        }
    }
}

/// What visiting a node gives: what to record, what to make, and what to
/// visit next.
pub struct Visited<N> {
    pub visit: VisitView,
    pub step: StepView,
    pub next: Seq<(Seq<u8>, N)>,
}

/// Visits a node of a filesystem.
pub open spec fn visited<F: Filesystem>(fs: F, rel: Seq<u8>, node: F::Node) -> Result<
    Visited<F::Node>,
    Error,
> {
    match fs.meta_at(node) {
        Err(e) => Err(e),
        Ok(m) => match m.kind {
            Kind::Dir => match fs.dir_at(node) {
                Err(e) => Err(e),
                Ok(list) => Ok(
                    Visited {
                        visit: VisitView { rel, meta: m, link: None, bytes: 0 },
                        step: StepView::Dir,
                        next: pushed(rel, list, list.len() as int),
                    },
                ),
            },
            Kind::File => match fs.file_at(node) {
                Err(e) => Err(e),
                Ok(b) => Ok(
                    Visited {
                        visit: VisitView { rel, meta: m, link: None, bytes: b.len() as int },
                        step: StepView::File(b),
                        next: Seq::empty(),
                    },
                ),
            },
            Kind::Symlink => match fs.link_at(node) {
                Err(e) => Err(e),
                Ok(b) => Ok(
                    Visited {
                        visit: VisitView { rel, meta: m, link: Some(b), bytes: 0 },
                        step: StepView::Symlink(b),
                        next: Seq::empty(),
                    },
                ),
            },
            _ => Ok(
                Visited {
                    visit: VisitView { rel, meta: m, link: None, bytes: 0 },
                    step: StepView::Special,
                    next: Seq::empty(),
                },
            ),
        },
    }
}

/// Appends what a directory puts on the stack.
fn push_children<N: Copy>(stack: &mut Vec<(Vec<u8>, N)>, rel: &Vec<u8>, list: &Vec<(Vec<u8>, N)>)
    ensures
        list_view(final(stack)@) == list_view(old(stack)@) + pushed(
            rel@,
            list_view(list@),
            list@.len() as int,
        ),
{
    let ghost all = list_view(list@);
    let ghost ix = order(list_names(all), all.len() as int);
    let positions: Vec<usize> = by_name(list);
    proof {
        assert(labels(list@) =~= list_names(all));
    }
    let n: usize = list.len();
    let mut k: usize = 0;
    assert(list_view(stack@) + pushed(rel@, all, 0) =~= list_view(stack@));
    while k < n
        invariant
            n == list@.len(),
            n == all.len(),
            k <= n,
            all == list_view(list@),
            ix == order(list_names(all), all.len() as int),
            positions@.map_values(|i: usize| i as int) == ix,
            positions.len() == n,
            forall|j: int| 0 <= j < n ==> #[trigger] positions@[j] < n,
            list_view(stack@) == list_view(old(stack)@) + pushed(rel@, all, k as int),
        decreases n - k,
    {
        let i: usize = positions[n - 1 - k];
        proof {
            assert(positions@.map_values(|i: usize| i as int)[n - 1 - k] == i);
        }
        let name: &Vec<u8> = &list[i].0;
        let want: Vec<u8> = vec![0x6cu8, 0x6f, 0x73, 0x74, 0x2b, 0x66, 0x6f, 0x75, 0x6e, 0x64];
        assert(want@ =~= lost_found_name());
        if rel.len() == 0 && same_bytes(name, &want) {
        } else {
            let mut path: Vec<u8> = clone_bytes(rel);
            if path.len() > 0 {
                path.push(0x2f);
            }
            push_bytes(&mut path, name);
            assert(path@ =~= child_path(rel@, name@));
            let ghost was = stack@;
            stack.push((path, list[i].1));
            assert(list_view(stack@) =~= list_view(was).push(
                (child_path(rel@, all[i as int].0), all[i as int].1),
            ));
            assert(list_view(stack@) =~= list_view(old(stack)@) + pushed(rel@, all, k + 1));
        }
        k += 1;
    }
}

/// An extraction under way: the nodes still to visit, the last one next, and
/// those visited.
#[derive(Debug)]
pub struct Extraction<N> {
    pub stack: Vec<(Vec<u8>, N)>,
    pub visits: Vec<Visit>,
}

impl<N: Copy> Extraction<N> {
    /// Starts at the root.
    pub fn new(root: N) -> (r: Self)
        ensures
            list_view(r.stack@) == seq![(Seq::<u8>::empty(), root)],
            r.visits@.len() == 0,
    {
        let mut stack: Vec<(Vec<u8>, N)> = Vec::new();
        let none: Vec<u8> = Vec::new();
        assert(none@ =~= Seq::<u8>::empty());
        stack.push((none, root));
        assert(list_view(stack@) =~= seq![(Seq::<u8>::empty(), root)]);
        Extraction { stack, visits: Vec::new() }
    }

    /// Visits the next node. Nothing is left to do when there is none.
    pub fn step<F: Filesystem<Node = N>>(&mut self, fs: &F) -> (r: Result<
        Option<(Vec<u8>, Step)>,
        Error,
    >)
        requires
            fs.wf(),
        ensures
            ({
                let before = list_view(old(self).stack@);
                let after = list_view(final(self).stack@);
                if before.len() == 0 {
                    r == Ok::<Option<(Vec<u8>, Step)>, Error>(None) && after == before
                        && final(self).visits@ == old(self).visits@
                } else {
                    match visited(*fs, before.last().0, before.last().1) {
                        Err(e) => r == Err::<Option<(Vec<u8>, Step)>, Error>(e),
                        Ok(v) => {
                            &&& r is Ok
                            &&& r->Ok_0 is Some
                            &&& r->Ok_0->Some_0.0@ == before.last().0
                            &&& r->Ok_0->Some_0.1@ == v.step
                            &&& after == before.drop_last() + v.next
                            &&& visits_view(final(self).visits@) == visits_view(
                                old(self).visits@,
                            ).push(v.visit)
                        },
                    }
                }
            }),
    {
        let ghost before = list_view(self.stack@);
        let (rel, node): (Vec<u8>, N) = match self.stack.pop() {
            None => {
                return Ok(None);
            },
            Some(x) => x,
        };
        assert(list_view(self.stack@) =~= before.drop_last());
        assert(before.last() == (rel@, node));
        let ghost none = Seq::<(Seq<u8>, N)>::empty();
        assert(before.drop_last() + none =~= before.drop_last());
        let meta: Meta = match fs.meta(node) {
            Ok(m) => m,
            Err(e) => {
                return Err(e);
            },
        };
        let mut link: Option<Vec<u8>> = None;
        let mut bytes: u64 = 0;
        let step: Step = match meta.kind {
            Kind::Dir => {
                let list: Vec<(Vec<u8>, N)> = match fs.read_dir(node) {
                    Ok(v) => v,
                    Err(e) => {
                        return Err(e);
                    },
                };
                push_children(&mut self.stack, &rel, &list);
                Step::Dir
            },
            Kind::File => {
                let b: Vec<u8> = match fs.read_file(node) {
                    Ok(v) => v,
                    Err(e) => {
                        return Err(e);
                    },
                };
                bytes = b.len() as u64;
                Step::File(b)
            },
            Kind::Symlink => {
                let b: Vec<u8> = match fs.read_link(node) {
                    Ok(v) => v,
                    Err(e) => {
                        return Err(e);
                    },
                };
                link = Some(clone_bytes(&b));
                Step::Symlink(b)
            },
            _ => Step::Special,
        };
        let path: Vec<u8> = clone_bytes(&rel);
        let v: Visit = Visit { rel, meta, link, bytes };
        let ghost was = self.visits@;
        self.visits.push(v);
        assert(visits_view(self.visits@) =~= visits_view(was).push(v@));
        Ok(Some((path, step)))
    }
}

/// The paths of some visits.
pub open spec fn paths(v: Seq<VisitView>) -> Seq<Seq<u8>> {
    v.map_values(|x: VisitView| x.rel)
}

/// The visits in the order of their paths; of those with the same path the
/// last one.
pub open spec fn by_path(visits: Seq<VisitView>) -> Seq<VisitView> {
    latest(paths(visits), visits.len() as int).map_values(|i: int| visits[i])
}

impl Named for Visit {
    open spec fn label(&self) -> Seq<u8> {
        self.rel@
    }

    fn name(&self) -> &Vec<u8> {
        &self.rel
    }
}

/// A path as text.
pub open spec fn path_text(rel: Seq<u8>) -> Seq<char> {
    text_of(rel)
}

/// The line of fs_config for a node.
pub open spec fn fs_config_line(mount: Seq<char>, v: VisitView) -> Seq<char> {
    let head = config_of(device_of(mount, path_text(v.rel))).push(' ') + decimal(
        v.meta.uid as nat,
    ) + " "@ + decimal(v.meta.gid as nat) + " "@ + octal4(v.meta.mode as nat);
    match v.meta.capabilities {
        Some(c) => head + " capabilities=0x"@ + hex(c as nat) + "\n"@,
        None => head + "\n"@,
    }
}

/// The line of file_contexts for a node that has a label.
pub open spec fn contexts_line(mount: Seq<char>, v: VisitView) -> Seq<char> {
    let device = device_of(mount, path_text(v.rel));
    match v.meta.selinux {
        Some(l) => escaped(device, device.len() as int) + " "@ + l + "\n"@,
        None => Seq::empty(),
    }
}

/// The line of symlinks for a symlink.
pub open spec fn symlinks_line(mount: Seq<char>, v: VisitView) -> Seq<char> {
    match v.link {
        Some(t) => config_of(device_of(mount, path_text(v.rel))) + " "@ + text_of(t) + "\n"@,
        None => Seq::empty(),
    }
}

/// The first `n` lines of fs_config.
pub open spec fn fs_config_text(mount: Seq<char>, v: Seq<VisitView>, n: int) -> Seq<char>
    decreases n,
{
    if n <= 0 {
        Seq::empty()
    } else {
        fs_config_text(mount, v, n - 1) + fs_config_line(mount, v[n - 1])
    }
}

/// The lines of file_contexts for the first `n` nodes.
pub open spec fn contexts_text(mount: Seq<char>, v: Seq<VisitView>, n: int) -> Seq<char>
    decreases n,
{
    if n <= 0 {
        Seq::empty()
    } else {
        contexts_text(mount, v, n - 1) + contexts_line(mount, v[n - 1])
    }
}

/// The lines of symlinks for the first `n` nodes.
pub open spec fn symlinks_text(mount: Seq<char>, v: Seq<VisitView>, n: int) -> Seq<char>
    decreases n,
{
    if n <= 0 {
        Seq::empty()
    } else {
        symlinks_text(mount, v, n - 1) + symlinks_line(mount, v[n - 1])
    }
}

/// A path that the metadata files cannot hold: not UTF-8, or with white
/// space.
pub open spec fn is_odd(rel: Seq<u8>) -> bool {
    !valid_utf8(rel) || exists|i: int|
        0 <= i < path_text(rel).len() && is_space(#[trigger] path_text(rel)[i])
}

/// The warning for a path that the metadata files cannot hold.
pub open spec fn odd_warning(rel: Seq<u8>) -> Seq<char> {
    "path "@ + debug_text(path_text(rel))
        + " has whitespace or invalid UTF-8; its metadata lines may not parse"@
}

/// The warnings for the first `n` nodes.
pub open spec fn odd_warnings(v: Seq<VisitView>, n: int) -> Seq<Seq<char>>
    decreases n,
{
    if n <= 0 {
        Seq::empty()
    } else if is_odd(v[n - 1].rel) {
        odd_warnings(v, n - 1).push(odd_warning(v[n - 1].rel))
    } else {
        odd_warnings(v, n - 1)
    }
}

/// Every path that the metadata files cannot hold gets a warning.
pub proof fn odd_paths_are_warned(v: Seq<VisitView>, n: int, i: int)
    requires
        0 <= i < n <= v.len(),
        is_odd(v[i].rel),
    ensures
        odd_warnings(v, n).contains(odd_warning(v[i].rel)),
    decreases n,
{
    let all = odd_warnings(v, n);
    if i == n - 1 {
        assert(all[all.len() - 1] == odd_warning(v[i].rel));
    } else {
        odd_paths_are_warned(v, n - 1, i);
        let before = odd_warnings(v, n - 1);
        let k = choose|k: int| 0 <= k < before.len() && before[k] == odd_warning(v[i].rel);
        assert(all[k] == before[k]);
    }
}

/// A character that Windows rejects in a file name.
pub open spec fn is_rejected(c: char) -> bool {
    ||| c == '<' || c == '>' || c == ':' || c == '"' || c == '\\' || c == '|' || c == '?' || c == '*'
    ||| c <= '\u{1f}'
    ||| '\u{7f}' <= c <= '\u{9f}'
}

/// A name with the characters that Windows rejects replaced.
pub open spec fn tamed(s: Seq<char>) -> Seq<char> {
    s.map_values(
        |c: char|
            if is_rejected(c) {
                '_'
            } else {
                c
            },
    )
}

/// The name of a node on Windows, which cannot hold every Linux name.
pub fn windows_name(name: &[u8]) -> (r: String)
    ensures
        r@ == tamed(text_of(name@)),
{
    let chars: Vec<char> = chars_of(lossy(name).as_str());
    let mut s: String = String::new();
    let mut i: usize = 0;
    assert(s@ =~= tamed(text_of(name@)).take(0));
    while i < chars.len()
        invariant
            i <= chars@.len(),
            chars@ == text_of(name@),
            s@ == tamed(text_of(name@)).take(i as int),
        decreases chars.len() - i,
    {
        let c: char = chars[i];
        if c == '<' || c == '>' || c == ':' || c == '"' || c == '\\' || c == '|' || c == '?' || c
            == '*' || c <= '\u{1f}' || ('\u{7f}' <= c && c <= '\u{9f}') {
            s.push('_');
        } else {
            s.push(c);
        }
        i += 1;
        assert(s@ =~= tamed(text_of(name@)).take(i as int));
    }
    assert(s@ =~= tamed(text_of(name@)));
    s
}

/// The metadata files of an extracted image, and paths that they cannot hold.
#[derive(Debug)]
pub struct Config {
    pub fs_config: String,
    pub file_contexts: String,
    pub symlinks: String,
    pub warnings: Vec<String>,
}

pub open spec fn strings_view(v: Seq<String>) -> Seq<Seq<char>> {
    v.map_values(|s: String| s@)
}

/// `std::str::from_utf8`: whether bytes are UTF-8.
#[verifier::external_body]
fn is_utf8(b: &[u8]) -> (r: bool)
    ensures
        r == valid_utf8(b@),
{
    std::str::from_utf8(b).is_ok()
}

fn odd(rel: &Vec<u8>, text: &str) -> (r: bool)
    requires
        text@ == path_text(rel@),
    ensures
        r == is_odd(rel@),
{
    if !is_utf8(rel) {
        return true;
    }
    let chars: Vec<char> = chars_of(text);
    let mut i: usize = 0;
    while i < chars.len()
        invariant
            i <= chars@.len(),
            chars@ == path_text(rel@),
            valid_utf8(rel@),
            forall|k: int| 0 <= k < i ==> !is_space(#[trigger] chars@[k]),
        decreases chars.len() - i,
    {
        if space(chars[i]) {
            assert(is_space(path_text(rel@)[i as int]));
            return true;
        }
        i += 1;
    }
    false
}

/// The line of fs_config for a node at `path`.
fn config_line(path: &str, v: &Visit, Ghost(mount): Ghost<Seq<char>>) -> (r: String)
    requires
        path@ == config_of(device_of(mount, path_text(v@.rel))),
    ensures
        r@ == fs_config_line(mount, v@),
{
    let mut t: String = path.to_string();
    t.push(' ');
    push_decimal(&mut t, v.meta.uid as u64);
    t.append(" ");
    push_decimal(&mut t, v.meta.gid as u64);
    t.append(" ");
    push_octal4(&mut t, v.meta.mode);
    if let Some(caps) = v.meta.capabilities {
        t.append(" capabilities=0x");
        push_hex(&mut t, caps);
    }
    t.append("\n");
    t
}

/// The line of file_contexts for a node at `device`.
fn label_line(device: &str, v: &Visit, Ghost(mount): Ghost<Seq<char>>) -> (r: String)
    requires
        device@ == device_of(mount, path_text(v@.rel)),
    ensures
        r@ == contexts_line(mount, v@),
{
    match &v.meta.selinux {
        Some(label) => {
            let mut t: String = regex_escape(device);
            t.append(" ");
            t.append(label.as_str());
            t.append("\n");
            t
        },
        None => String::new(),
    }
}

/// The line of symlinks for a node at `path`.
fn link_line(path: &str, v: &Visit, Ghost(mount): Ghost<Seq<char>>) -> (r: String)
    requires
        path@ == config_of(device_of(mount, path_text(v@.rel))),
    ensures
        r@ == symlinks_line(mount, v@),
{
    match &v.link {
        Some(target) => {
            let mut t: String = path.to_string();
            t.append(" ");
            let to: String = lossy(target);
            t.append(to.as_str());
            t.append("\n");
            t
        },
        None => String::new(),
    }
}

/// The warning for a path that the metadata files cannot hold.
fn warning_for(rel: &str, Ghost(path): Ghost<Seq<u8>>) -> (r: String)
    requires
        rel@ == path_text(path),
    ensures
        r@ == odd_warning(path),
{
    let mut w: String = "path ".to_string();
    let q: String = quoted(rel);
    w.append(q.as_str());
    w.append(" has whitespace or invalid UTF-8; its metadata lines may not parse");
    w
}

/// Appends the lines for one node.
fn push_lines(c: &mut Config, mount: &str, v: &Visit)
    ensures
        final(c).fs_config@ == old(c).fs_config@ + fs_config_line(mount@, v@),
        final(c).file_contexts@ == old(c).file_contexts@ + contexts_line(mount@, v@),
        final(c).symlinks@ == old(c).symlinks@ + symlinks_line(mount@, v@),
        strings_view(final(c).warnings@) == (if is_odd(v@.rel) {
            strings_view(old(c).warnings@).push(odd_warning(v@.rel))
        } else {
            strings_view(old(c).warnings@)
        }),
{
    let rel: String = lossy(&v.rel);
    if odd(&v.rel, rel.as_str()) {
        let w: String = warning_for(rel.as_str(), Ghost(v@.rel));
        let ghost was = c.warnings@;
        c.warnings.push(w);
        assert(strings_view(c.warnings@) =~= strings_view(was).push(odd_warning(v@.rel)));
    }
    let device: String = device_path(mount, rel.as_str());
    let path: String = config_path(device.as_str());
    let config: String = config_line(path.as_str(), v, Ghost(mount@));
    c.fs_config.append(config.as_str());
    let label: String = label_line(device.as_str(), v, Ghost(mount@));
    c.file_contexts.append(label.as_str());
    let link: String = link_line(path.as_str(), v, Ghost(mount@));
    c.symlinks.append(link.as_str());
}

/// The metadata files for the nodes of an image that is mounted at `mount`.
pub fn write_config(mount: &str, visits: &Vec<Visit>) -> (r: Config)
    ensures
        ({
            let v = by_path(visits_view(visits@));
            &&& r.fs_config@ == fs_config_text(mount@, v, v.len() as int)
            &&& r.file_contexts@ == contexts_text(mount@, v, v.len() as int)
            &&& r.symlinks@ == symlinks_text(mount@, v, v.len() as int)
            &&& strings_view(r.warnings@) == odd_warnings(v, v.len() as int)
        }),
{
    let ix: Vec<usize> = latest_by_name(visits);
    let ghost v = by_path(visits_view(visits@));
    proof {
        assert(labels(visits@) =~= paths(visits_view(visits@)));
        assert forall|k: int| 0 <= k < ix@.len() implies #[trigger] v[k] == visits@[ix@[k] as int]@ by {
            assert(positions_view(ix@)[k] == ix@[k]);
        }
    }
    let mut c: Config = Config {
        fs_config: String::new(),
        file_contexts: String::new(),
        symlinks: String::new(),
        warnings: Vec::new(),
    };
    let mut k: usize = 0;
    assert(c.fs_config@ =~= Seq::<char>::empty());
    assert(c.file_contexts@ =~= Seq::<char>::empty());
    assert(c.symlinks@ =~= Seq::<char>::empty());
    assert(strings_view(c.warnings@) =~= Seq::<Seq<char>>::empty());
    while k < ix.len()
        invariant
            k <= ix@.len(),
            v.len() == ix@.len(),
            forall|j: int| 0 <= j < ix@.len() ==> #[trigger] v[j] == visits@[ix@[j] as int]@,
            forall|j: int| 0 <= j < ix@.len() ==> #[trigger] ix@[j] < visits@.len(),
            c.fs_config@ == fs_config_text(mount@, v, k as int),
            c.file_contexts@ == contexts_text(mount@, v, k as int),
            c.symlinks@ == symlinks_text(mount@, v, k as int),
            strings_view(c.warnings@) == odd_warnings(v, k as int),
        decreases ix.len() - k,
    {
        assert(v[k as int] == visits@[ix@[k as int] as int]@);
        push_lines(&mut c, mount, &visits[ix[k]]);
        k += 1;
    }
    c
}

/// `key=value` lines for the first `n` parameters.
pub open spec fn info_text(info: Seq<(Seq<char>, Seq<char>)>, n: int) -> Seq<char>
    decreases n,
{
    if n <= 0 {
        Seq::empty()
    } else {
        info_text(info, n - 1) + info[n - 1].0 + "="@ + info[n - 1].1 + "\n"@
    }
}

/// What the info file starts with.
pub open spec fn info_head(part: Seq<char>, mount: Seq<char>) -> Seq<char> {
    "part="@ + part + "\nmount_point="@ + mount + "\n"@
}

/// The info file: the partition, its mount point, and the parameters of the
/// filesystem.
pub fn write_info(part: &str, mount: &str, info: &Vec<(String, String)>) -> (r: String)
    ensures
        r@ == info_head(part@, mount@) + info_text(info_view(info@), info@.len() as int),
{
    let mut s: String = "part=".to_string();
    s.append(part);
    s.append("\nmount_point=");
    s.append(mount);
    s.append("\n");
    let ghost head = s@;
    let ghost all = info_view(info@);
    assert(head + info_text(all, 0) =~= head);
    let mut i: usize = 0;
    while i < info.len()
        invariant
            i <= info@.len(),
            all == info_view(info@),
            s@ == head + info_text(all, i as int),
        decreases info.len() - i,
    {
        s.append(info[i].0.as_str());
        s.append("=");
        s.append(info[i].1.as_str());
        s.append("\n");
        assert(s@ =~= head + info_text(all, i + 1));
        i += 1;
    }
    s
}

/// What was extracted.
#[derive(Debug, Clone)]
pub struct Summary {
    pub fs_type: String,
    pub part: String,
    pub mount_point: String,
    pub dirs: u64,
    pub files: u64,
    pub symlinks: u64,
    /// Device nodes, fifos and sockets: only recorded in fs_config.
    pub special: u64,
    pub bytes: u64,
    /// Symlinks that the folder cannot hold.
    pub symlinks_not_created: u64,
    /// Things that could not be represented, e.g. symlinks on a filesystem
    /// without symlink support. Their metadata is still saved.
    pub warnings: Vec<String>,
}

impl Default for Summary {
    fn default() -> (r: Self)
        ensures
            r.fs_type@ == ""@,
            r.part@ == ""@,
            r.mount_point@ == ""@,
            r.dirs == 0,
            r.files == 0,
            r.symlinks == 0,
            r.special == 0,
            r.bytes == 0,
            r.symlinks_not_created == 0,
            r.warnings@.len() == 0,
    {
        Summary {
            fs_type: "".to_string(),
            part: "".to_string(),
            mount_point: "".to_string(),
            dirs: 0,
            files: 0,
            symlinks: 0,
            special: 0,
            bytes: 0,
            symlinks_not_created: 0,
            warnings: Vec::new(),
        }
    }
}

/// Groups of kinds: directories, files, symlinks, and the rest.
pub open spec fn kind_class(k: Kind) -> int {
    match k {
        Kind::Dir => 0,
        Kind::File => 1,
        Kind::Symlink => 2,
        _ => 3,
    }
}

/// How many of the first `n` visits are of a class.
pub open spec fn count_class(v: Seq<VisitView>, class: int, n: int) -> int
    decreases n,
{
    if n <= 0 {
        0
    } else {
        count_class(v, class, n - 1) + (if kind_class(v[n - 1].meta.kind) == class {
            1int
        } else {
            0
        })
    }
}

/// Bytes of the files among the first `n` visits.
pub open spec fn sum_bytes(v: Seq<VisitView>, n: int) -> int
    decreases n,
{
    if n <= 0 {
        0
    } else {
        sum_bytes(v, n - 1) + v[n - 1].bytes
    }
}

/// Sums up an extraction; the bytes are counted modulo 2^64.
pub fn sum_up(visits: &Vec<Visit>, fs_type: &str, part: &str, mount: &str) -> (r: Summary)
    ensures
        ({
            let v = visits_view(visits@);
            let n = v.len() as int;
            &&& r.fs_type@ == fs_type@
            &&& r.part@ == part@
            &&& r.mount_point@ == mount@
            &&& r.dirs == count_class(v, 0, n)
            &&& r.files == count_class(v, 1, n)
            &&& r.symlinks == count_class(v, 2, n)
            &&& r.special == count_class(v, 3, n)
            &&& r.bytes == sum_bytes(v, n) % 0x1_0000_0000_0000_0000
            &&& r.symlinks_not_created == 0
            &&& r.warnings@.len() == 0
        }),
{
    let ghost v = visits_view(visits@);
    let mut s: Summary = Summary::default();
    s.fs_type = fs_type.to_string();
    s.part = part.to_string();
    s.mount_point = mount.to_string();
    let mut i: usize = 0;
    while i < visits.len()
        invariant
            i <= visits@.len(),
            v == visits_view(visits@),
            s.fs_type@ == fs_type@,
            s.part@ == part@,
            s.mount_point@ == mount@,
            s.symlinks_not_created == 0,
            s.warnings@.len() == 0,
            s.dirs == count_class(v, 0, i as int),
            s.files == count_class(v, 1, i as int),
            s.symlinks == count_class(v, 2, i as int),
            s.special == count_class(v, 3, i as int),
            s.dirs <= i,
            s.files <= i,
            s.symlinks <= i,
            s.special <= i,
            s.bytes == sum_bytes(v, i as int) % 0x1_0000_0000_0000_0000,
        decreases visits.len() - i,
    {
        assert(v[i as int] == visits@[i as int]@);
        match visits[i].meta.kind {
            Kind::Dir => {
                s.dirs += 1;
            },
            Kind::File => {
                s.files += 1;
            },
            Kind::Symlink => {
                s.symlinks += 1;
            },
            _ => {
                s.special += 1;
            },
        }
        s.bytes = s.bytes.wrapping_add(visits[i].bytes);
        i += 1;
    }
    s
}

} // verus!
