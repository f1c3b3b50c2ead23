//! The `security.*` xattrs of a node.
use vstd::prelude::*;
use vstd::utf8::encode_utf8;
use crate::bytes::{bytes32, lemma_bytes32, le32, push32, push_bytes};
use crate::fs::capability_mask;
use crate::fs::mkext4::Node;

verus! {

broadcast use crate::bytes::group_byte_lens;

/// An xattr: its name without the `security.` prefix, and its value.
pub struct Attr {
    pub name: Seq<u8>,
    pub value: Seq<u8>,
}

/// `selinux`
pub open spec fn selinux_name() -> Seq<u8> {
    seq![0x73u8, 0x65, 0x6c, 0x69, 0x6e, 0x75, 0x78]
}

/// `capability`
pub open spec fn capability_name() -> Seq<u8> {
    seq![0x63u8, 0x61, 0x70, 0x61, 0x62, 0x69, 0x6c, 0x69, 0x74, 0x79]
}

/// `struct vfs_cap_data`, revision 2 with the effective flag.
pub open spec fn capability_value(caps: u64) -> Seq<u8> {
    bytes32(0x0200_0001) + bytes32((caps % 0x1_0000_0000) as int) + bytes32(0) + bytes32(
        (caps / 0x1_0000_0000) as int,
    ) + bytes32(0)
}

/// The security xattrs of a node: label (NUL terminated), then capabilities,
/// which is the order by name length that the kernel keeps.
pub open spec fn attrs_of(node: Node) -> Seq<Attr> {
    let label = match node.selinux {
        Some(l) => seq![Attr { name: selinux_name(), value: encode_utf8(l@).push(0) }],
        None => Seq::empty(),
    };
    let caps = match node.capabilities {
        Some(c) => seq![Attr { name: capability_name(), value: capability_value(c) }],
        None => Seq::empty(),
    };
    label + caps
}

/// What is written for a capability mask reads back as that mask.
pub proof fn capability_round_trip(caps: u64)
    ensures
        capability_mask(capability_value(caps)) == Some(caps),
        capability_value(caps).len() == 20,
{
    let v = capability_value(caps);
    let low = (caps % 0x1_0000_0000) as int;
    let high = (caps / 0x1_0000_0000) as int;
    lemma_bytes32(low);
    lemma_bytes32(high);
    assert(le32(v, 4) == le32(bytes32(low), 0));
    assert(le32(v, 12) == le32(bytes32(high), 0));
}

#[derive(Debug)]
pub struct Xattr {
    pub name: Vec<u8>,
    pub value: Vec<u8>,
}

impl View for Xattr {
    type V = Attr;

    open spec fn view(&self) -> Attr {
        Attr { name: self.name@, value: self.value@ }
    }
}

pub open spec fn attrs_view(v: Seq<Xattr>) -> Seq<Attr> {
    v.map_values(|x: Xattr| x@)
}

/// The security xattrs of a node, sorted as the kernel keeps them.
pub fn security_xattrs(node: &Node) -> (r: Vec<Xattr>)
    ensures
        attrs_view(r@) == attrs_of(*node),
{
    let mut v: Vec<Xattr> = Vec::new();
    if let Some(label) = &node.selinux {
        let mut value: Vec<u8> = Vec::new();
        push_bytes(&mut value, label.as_str().as_bytes());
        value.push(0);
        let name: Vec<u8> = vec![0x73u8, 0x65, 0x6c, 0x69, 0x6e, 0x75, 0x78];
        assert(name@ =~= selinux_name());
        assert(value@ =~= encode_utf8(label@).push(0));
        v.push(Xattr { name, value });
    }
    if let Some(caps) = node.capabilities {
        let mut value: Vec<u8> = Vec::new();
        push32(&mut value, 0x0200_0001);
        push32(&mut value, (caps % 0x1_0000_0000) as u32);
        push32(&mut value, 0);
        push32(&mut value, (caps / 0x1_0000_0000) as u32);
        push32(&mut value, 0);
        let name: Vec<u8> = vec![0x63u8, 0x61, 0x70, 0x61, 0x62, 0x69, 0x6c, 0x69, 0x74, 0x79];
        assert(name@ =~= capability_name());
        assert(value@ =~= capability_value(caps));
        v.push(Xattr { name, value });
    }
    assert(attrs_view(v@) =~= attrs_of(*node));
    v
}

} // verus!
