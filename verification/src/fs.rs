//! Android filesystem images.
use vstd::prelude::*;
use crate::bytes::{get32, le32};
use crate::error::Error;
use crate::text::{cstr, same_text, text_of, until_nul};

pub mod erofs;
pub mod ext4;
pub mod mkerofs;
pub mod mkext4;
pub mod order;
pub mod tree;
pub mod xattr;

verus! {

#[derive(Debug, Clone, Copy, PartialEq, Eq, Structural)]
pub enum Kind {
    File,
    Dir,
    Symlink,
    CharDevice,
    BlockDevice,
    Fifo,
    Socket,
}

/// The kind of a node, by the file type bits of its mode.
pub open spec fn kind_of(mode: int) -> Result<Kind, Error> {
    let t = mode / 0x1000;
    if t == 4 {
        Ok(Kind::Dir)
    } else if t == 8 {
        Ok(Kind::File)
    } else if t == 10 {
        Ok(Kind::Symlink)
    } else if t == 2 {
        Ok(Kind::CharDevice)
    } else if t == 6 {
        Ok(Kind::BlockDevice)
    } else if t == 1 {
        Ok(Kind::Fifo)
    } else if t == 12 {
        Ok(Kind::Socket)
    } else {
        Err(Error::UnknownFileType)
    }
}

pub fn mode_kind(mode: u16) -> (r: Result<Kind, Error>)
    ensures
        r == kind_of(mode as int),
{
    let t: u16 = mode / 0x1000;
    if t == 4 {
        Ok(Kind::Dir)
    } else if t == 8 {
        Ok(Kind::File)
    } else if t == 10 {
        Ok(Kind::Symlink)
    } else if t == 2 {
        Ok(Kind::CharDevice)
    } else if t == 6 {
        Ok(Kind::BlockDevice)
    } else if t == 1 {
        Ok(Kind::Fifo)
    } else if t == 12 {
        Ok(Kind::Socket)
    } else {
        Err(Error::UnknownFileType)
    }
}

/// Metadata of one inode, as needed for fs_config and file_contexts.
#[derive(Debug, Clone, PartialEq, Eq)]
pub struct Meta {
    pub kind: Kind,
    /// Permission bits including setuid/setgid/sticky (`0o7777`).
    pub mode: u32,
    pub uid: u32,
    pub gid: u32,
    pub mtime: i64,
    pub size: u64,
    /// `security.selinux` label, e.g. `u:object_r:system_file:s0`.
    pub selinux: Option<String>,
    /// Permitted capabilities from `security.capability`.
    pub capabilities: Option<u64>,
}

/// Metadata of one inode, with the label as characters.
pub struct MetaView {
    pub kind: Kind,
    pub mode: int,
    pub uid: int,
    pub gid: int,
    pub mtime: int,
    pub size: int,
    pub selinux: Option<Seq<char>>,
    pub capabilities: Option<u64>,
}

pub open spec fn text_view(s: Option<String>) -> Option<Seq<char>> {
    match s {
        Some(t) => Some(t@),
        None => None,
    }
}

impl View for Meta {
    type V = MetaView;

    open spec fn view(&self) -> MetaView {
        MetaView {
            kind: self.kind,
            mode: self.mode as int,
            uid: self.uid as int,
            gid: self.gid as int,
            mtime: self.mtime as int,
            size: self.size as int,
            selinux: text_view(self.selinux),
            capabilities: self.capabilities,
        }
    }
}

/// What a directory lists: (raw name, node).
pub open spec fn list_view<N>(v: Seq<(Vec<u8>, N)>) -> Seq<(Seq<u8>, N)> {
    v.map_values(|e: (Vec<u8>, N)| (e.0@, e.1))
}

/// Filesystem parameters as characters.
pub open spec fn info_view(v: Seq<(String, String)>) -> Seq<(Seq<char>, Seq<char>)> {
    v.map_values(|e: (String, String)| (e.0@, e.1@))
}

/// A read-only filesystem image.
pub trait Filesystem {
    /// Inode number (or equivalent) of a node.
    type Node: Copy;

    spec fn wf(&self) -> bool;

    spec fn format_name(&self) -> Seq<char>;

    spec fn root_node(&self) -> Self::Node;

    spec fn meta_at(&self, node: Self::Node) -> Result<MetaView, Error>;

    spec fn dir_at(&self, node: Self::Node) -> Result<Seq<(Seq<u8>, Self::Node)>, Error>;

    spec fn file_at(&self, node: Self::Node) -> Result<Seq<u8>, Error>;

    spec fn link_at(&self, node: Self::Node) -> Result<Seq<u8>, Error>;

    spec fn label(&self) -> Seq<char>;

    spec fn parameters(&self) -> Seq<(Seq<char>, Seq<char>)>;

    fn fs_type(&self) -> (r: &'static str)
        requires
            self.wf(),
        ensures
            r@ == self.format_name(),
    ;

    fn root(&self) -> (r: Self::Node)
        requires
            self.wf(),
        ensures
            r == self.root_node(),
    ;

    fn meta(&self, node: Self::Node) -> (r: Result<Meta, Error>)
        requires
            self.wf(),
        ensures
            match r {
                Ok(m) => self.meta_at(node) == Ok::<MetaView, Error>(m@),
                Err(e) => self.meta_at(node) == Err::<MetaView, Error>(e),
            },
    ;

    /// Directory entries without "." and "..", as (raw name, node).
    fn read_dir(&self, node: Self::Node) -> (r: Result<Vec<(Vec<u8>, Self::Node)>, Error>)
        requires
            self.wf(),
        ensures
            match r {
                Ok(v) => self.dir_at(node) == Ok::<Seq<(Seq<u8>, Self::Node)>, Error>(
                    list_view(v@),
                ),
                Err(e) => self.dir_at(node) == Err::<Seq<(Seq<u8>, Self::Node)>, Error>(e),
            },
    ;

    /// The content of a regular file.
    fn read_file(&self, node: Self::Node) -> (r: Result<Vec<u8>, Error>)
        requires
            self.wf(),
        ensures
            match r {
                Ok(v) => self.file_at(node) == Ok::<Seq<u8>, Error>(v@),
                Err(e) => self.file_at(node) == Err::<Seq<u8>, Error>(e),
            },
    ;

    fn read_link(&self, node: Self::Node) -> (r: Result<Vec<u8>, Error>)
        requires
            self.wf(),
        ensures
            match r {
                Ok(v) => self.link_at(node) == Ok::<Seq<u8>, Error>(v@),
                Err(e) => self.link_at(node) == Err::<Seq<u8>, Error>(e),
            },
    ;

    /// Volume label, e.g. "/" for system-as-root or "vendor".
    fn volume_name(&self) -> (r: String)
        requires
            self.wf(),
        ensures
            r@ == self.label(),
    ;

    /// Filesystem parameters worth keeping for a rebuild, as key=value.
    fn info(&self) -> (r: Vec<(String, String)>)
        requires
            self.wf(),
        ensures
            info_view(r@) == self.parameters(),
    ;
}

/// `len` bytes of an image from `offset` on.
pub open spec fn read_range(image: Seq<u8>, offset: int, len: int) -> Result<Seq<u8>, Error> {
    if len <= 0 {
        Ok(Seq::empty())
    } else if offset + len <= image.len() {
        Ok(image.subrange(offset, offset + len))
    } else {
        Err(Error::UnexpectedEof)
    }
}

/// Reads `len` bytes of an image from `offset` on.
pub fn read_at(image: &Vec<u8>, offset: u64, len: u64) -> (r: Result<&[u8], Error>)
    ensures
        match r {
            Ok(s) => read_range(image@, offset as int, len as int) == Ok::<Seq<u8>, Error>(s@),
            Err(e) => read_range(image@, offset as int, len as int) == Err::<Seq<u8>, Error>(e),
        },
{
    let total: u64 = image.len() as u64;
    if len == 0 {
        let r: &[u8] = vstd::slice::slice_subrange(image, 0, 0);
        assert(r@ =~= Seq::<u8>::empty());
        Ok(r)
    } else if offset <= total && len <= total - offset {
        Ok(vstd::slice::slice_subrange(image, offset as usize, (offset + len) as usize))
    } else {
        Err(Error::UnexpectedEof)
    }
}

/// `head` before the items of `rest`, unless those are an error.
pub open spec fn chain<T>(head: Seq<T>, rest: Result<Seq<T>, Error>) -> Result<Seq<T>, Error> {
    match rest {
        Ok(r) => Ok(head + r),
        Err(e) => Err(e),
    }
}

pub proof fn lemma_chain_empty<T>(rest: Result<Seq<T>, Error>)
    ensures
        chain(Seq::empty(), rest) == rest,
{
    if let Ok(r) = rest {
        assert(Seq::<T>::empty() + r =~= r);
    }
}

/// Taking one item from the rest to the head changes nothing.
pub proof fn lemma_chain_push<T>(head: Seq<T>, x: T, rest: Result<Seq<T>, Error>)
    ensures
        chain(head, chain(seq![x], rest)) == chain(head.push(x), rest),
{
    if let Ok(r) = rest {
        assert(head + (seq![x] + r) =~= head.push(x) + r);
    }
}

/// Taking some items from the rest to the head changes nothing.
pub proof fn lemma_chain_append<T>(head: Seq<T>, more: Seq<T>, rest: Result<Seq<T>, Error>)
    ensures
        chain(head, chain(more, rest)) == chain(head + more, rest),
{
    if let Ok(r) = rest {
        assert(head + (more + r) =~= (head + more) + r);
    }
}

/// The SELinux label and the capabilities among the first `n` xattrs; the
/// last of each counts.
pub open spec fn security_of(xattrs: Seq<(Seq<char>, Seq<u8>)>, n: int) -> (
    Option<Seq<char>>,
    Option<u64>,
)
    decreases n,
{
    if n <= 0 {
        (None, None)
    } else {
        let (label, caps) = security_of(xattrs, n - 1);
        let (name, value) = xattrs[n - 1];
        if name == "security.selinux"@ {
            (Some(text_of(until_nul(value, 0))), caps)
        } else if name == "security.capability"@ {
            (label, capability_mask(value))
        } else {
            (label, caps)
        }
    }
}

/// Xattrs as characters and bytes.
pub open spec fn xattrs_view(v: Seq<(String, Vec<u8>)>) -> Seq<(Seq<char>, Seq<u8>)> {
    v.map_values(|e: (String, Vec<u8>)| (e.0@, e.1@))
}

/// Picks the label and the capabilities out of the xattrs of an inode.
pub fn pick_security(xattrs: &Vec<(String, Vec<u8>)>) -> (r: (Option<String>, Option<u64>))
    ensures
        (text_view(r.0), r.1) == security_of(xattrs_view(xattrs@), xattrs@.len() as int),
{
    let ghost all = xattrs_view(xattrs@);
    let mut label: Option<String> = None;
    let mut caps: Option<u64> = None;
    let mut i: usize = 0;
    while i < xattrs.len()
        invariant
            i <= xattrs.len(),
            all == xattrs_view(xattrs@),
            (text_view(label), caps) == security_of(all, i as int),
        decreases xattrs.len() - i,
    {
        assert(all[i as int] == (xattrs@[i as int].0@, xattrs@[i as int].1@));
        let name: &str = xattrs[i].0.as_str();
        if same_text(name, "security.selinux") {
            label = Some(cstr(&xattrs[i].1));
        } else if same_text(name, "security.capability") {
            caps = parse_capability(&xattrs[i].1);
        }
        i += 1;
    }
    (label, caps)
}

/// The permitted capability mask in a `security.capability` value: the low
/// word, and the high word where the value is long enough to have one.
pub open spec fn capability_mask(value: Seq<u8>) -> Option<u64> {
    if value.len() < 12 {
        None
    } else if value.len() < 20 {
        Some(le32(value, 4) as u64)
    } else {
        Some((le32(value, 4) + 0x1_0000_0000 * le32(value, 12)) as u64)
    }
}

/// Decodes a `security.capability` xattr (`struct vfs_cap_data`) into the
/// permitted capability mask.
pub fn parse_capability(value: &[u8]) -> (r: Option<u64>)
    ensures
        r == capability_mask(value@),
{
    if value.len() < 12 {
        return None;
    }
    let low: u64 = get32(value, 4) as u64;
    // revision 2 and 3 carry a second 32-bit word
    let high: u64 = if value.len() >= 20 {
        get32(value, 12) as u64
    } else {
        0
    };
    Some(low + 0x1_0000_0000 * high)
}

} // verus!
