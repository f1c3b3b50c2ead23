//! An image that is built again has the parameters of the one that was
//! extracted.
use vstd::prelude::*;
use vstd::utf8::{encode_utf8, encode_utf8_decode_utf8, encode_utf8_valid_utf8};
use crate::apart::{lemma_decimal, lemma_digits_word};
use crate::build::config::value_for;
use crate::build::image::{id_bytes, info_number, uuid_round_trip, wanted_block_size};
use crate::build::kept::lemma_only_value;
use crate::build::round_trip::info_pairs;
use crate::bytes::zero_seq;
use crate::fs::ext4::{block_size, inodes_count, parameters_of, reserved_blocks};
use crate::fs::mkext4::image::{field, reserved_of};
use crate::fs::mkext4::read_back::{groups_of, image_of, lemma_writable, writable};
use crate::fs::mkext4::read_groups::{lemma_reader, lemma_sb, lemma_sb_fields};
use crate::fs::mkext4::{laid_out, Node, Params};
use crate::text::{decimal, until_nul};

verus! {

/// What the info file of an extracted image says.
pub open spec fn recorded_info(
    part: Seq<char>,
    mount: Seq<char>,
    image: Seq<u8>,
) -> Seq<(Seq<char>, Seq<char>)> {
    info_pairs(part, mount, parameters_of(image), parameters_of(image).len() as int)
}

proof fn lemma_keys()
    ensures
        "part"@.len() == 4 && "mount_point"@.len() == 11 && "fs_type"@.len() == 7,
        "volume_name"@.len() == 11 && "last_mounted"@.len() == 12 && "uuid"@.len() == 4,
        "hash_seed"@.len() == 9 && "default_hash"@.len() == 12 && "block_size"@.len() == 10,
        "blocks"@.len() == 6 && "reserved_blocks"@.len() == 15 && "inodes"@.len() == 6,
        "inode_size"@.len() == 10 && "blocks_per_group"@.len() == 16,
        "inodes_per_group"@.len() == 16 && "created"@.len() == 7 && "features"@.len() == 8,
        "blocks"@[0] == 'b' && "inodes"@[0] == 'i',
        "block_size"@[0] == 'b' && "inode_size"@[0] == 'i',
        "mount_point"@[0] == 'm' && "volume_name"@[0] == 'v',
{
    reveal_strlit("part");
    reveal_strlit("mount_point");
    reveal_strlit("fs_type");
    reveal_strlit("volume_name");
    reveal_strlit("last_mounted");
    reveal_strlit("uuid");
    reveal_strlit("hash_seed");
    reveal_strlit("default_hash");
    reveal_strlit("block_size");
    reveal_strlit("blocks");
    reveal_strlit("reserved_blocks");
    reveal_strlit("inodes");
    reveal_strlit("inode_size");
    reveal_strlit("blocks_per_group");
    reveal_strlit("inodes_per_group");
    reveal_strlit("created");
    reveal_strlit("features");
}

/// The values that a rebuild looks up.
proof fn lemma_lookups(part: Seq<char>, mount: Seq<char>, image: Seq<u8>)
    ensures
        ({
            let v = recorded_info(part, mount, image);
            let q = parameters_of(image);
            let n = v.len() as int;
            &&& value_for(v, "mount_point"@, n) == Some(mount)
            &&& value_for(v, "volume_name"@, n) == Some(q[1].1)
            &&& value_for(v, "uuid"@, n) == Some(q[3].1)
            &&& value_for(v, "hash_seed"@, n) == Some(q[4].1)
            &&& value_for(v, "block_size"@, n) == Some(q[6].1)
            &&& value_for(v, "blocks"@, n) == Some(q[7].1)
            &&& value_for(v, "reserved_blocks"@, n) == Some(q[8].1)
            &&& value_for(v, "inodes"@, n) == Some(q[9].1)
            &&& value_for(v, "created"@, n) == Some(q[13].1)
        }),
{
    let v = recorded_info(part, mount, image);
    let q = parameters_of(image);
    let n = v.len() as int;
    lemma_keys();
    assert(q.len() == 15 && n == 17);
    assert forall|i: int| 0 <= i < 15 implies #[trigger] v[2 + i] == q[i] by {}
    assert(v[1] == ("mount_point"@, mount));
    assert(v[3] == q[1] && v[5] == q[3] && v[6] == q[4] && v[8] == q[6] && v[9] == q[7]);
    assert(v[10] == q[8] && v[11] == q[9] && v[15] == q[13]);
    assert(v[2] == q[0] && v[4] == q[2] && v[7] == q[5] && v[12] == q[10] && v[13] == q[11]);
    assert(v[14] == q[12] && v[16] == q[14]);
    lemma_only_value(v, "mount_point"@, 1, n);
    lemma_only_value(v, "volume_name"@, 3, n);
    lemma_only_value(v, "uuid"@, 5, n);
    lemma_only_value(v, "hash_seed"@, 6, n);
    lemma_only_value(v, "block_size"@, 8, n);
    lemma_only_value(v, "blocks"@, 9, n);
    lemma_only_value(v, "reserved_blocks"@, 10, n);
    lemma_only_value(v, "inodes"@, 11, n);
    lemma_only_value(v, "created"@, 15, n);
}

proof fn lemma_number(n: nat)
    requires
        n <= u64::MAX,
    ensures
        crate::words::number_upto(decimal(n), 10, u64::MAX as int) == Some(n),
{
    lemma_decimal(n);
    lemma_digits_word(decimal(n), 10);
}

proof fn lemma_name_ends(b: Seq<u8>, k: int, i: int)
    requires
        0 <= i <= b.len(),
        0 <= k,
        !b.contains(0u8),
    ensures
        until_nul(b + zero_seq(k), i) == b,
    decreases b.len() - i,
{
    let t = b + zero_seq(k);
    if i < b.len() {
        assert(b.contains(b[i]));
        assert(t[i] == b[i]);
        lemma_name_ends(b, k, i + 1);
    } else if i < t.len() {
        assert(t[i] == 0);
        assert(t.take(i) =~= b);
    } else {
        assert(t =~= b);
        assert(until_nul(t, i) =~= b);
    }
}

/// The size of an image, its ids and its build time are kept when it is built
/// again from its info file, and so is its name where the superblock holds all
/// of it.
pub proof fn parameters_are_kept(
    root: Node,
    p: Params,
    part: Seq<char>,
    mount: Seq<char>,
    name: Seq<char>,
    now: u128,
)
    requires
        writable(root, p),
    ensures
        ({
            let info = recorded_info(part, mount, image_of(root, p));
            let l = groups_of(root, p);
            &&& wanted_block_size(info) == p.block_size
            &&& info_number(info, "blocks"@) == Some(l.blocks as nat)
            &&& info_number(info, "inodes"@) == Some((l.ipg * l.groups) as nat)
            &&& info_number(info, "reserved_blocks"@) == Some(reserved_of(l, p) as nat)
            &&& info_number(info, "created"@) == Some(p.timestamp as nat)
            &&& id_bytes(info, "uuid"@, name, now) == p.uuid@
            &&& id_bytes(info, "hash_seed"@, name, now) == p.hash_seed@
            &&& value_for(info, "mount_point"@, info.len() as int) == Some(mount)
            &&& encode_utf8(p.volume_name@).len() <= 16 && !encode_utf8(
                p.volume_name@,
            ).contains(0u8) ==> value_for(info, "volume_name"@, info.len() as int) == Some(
                p.volume_name@,
            )
        }),
{
    let img = image_of(root, p);
    let l = groups_of(root, p);
    let c = laid_out(root, p)->Ok_0.content;
    let info = recorded_info(part, mount, img);
    let q = parameters_of(img);
    lemma_writable(root, p);
    crate::fs::mkext4::layout::lemma_bounds(l);
    crate::fs::mkext4::layout::lemma_layout_blocks(
        p.block_size as int,
        p.blocks as int,
        crate::fs::mkext4::min_inodes(root, p),
    );
    lemma_reader(l, p, c);
    lemma_sb(l, p, c);
    lemma_sb_fields(l, p, c);
    lemma_lookups(part, mount, img);
    lemma_number(block_size(img) as nat);
    lemma_number(l.blocks as nat);
    lemma_number(inodes_count(img) as nat);
    lemma_number(reserved_blocks(img) as nat);
    lemma_number(p.timestamp as nat);
    uuid_round_trip(p.uuid@);
    uuid_round_trip(p.hash_seed@);
    let b = encode_utf8(p.volume_name@);
    if b.len() <= 16 && !b.contains(0u8) {
        assert(field(p.volume_name@, 16, 16) == b + zero_seq(16 - b.len()));
        lemma_name_ends(b, 16 - b.len(), 0);
        encode_utf8_decode_utf8(p.volume_name@);
        encode_utf8_valid_utf8(p.volume_name@);
    }
}

} // verus!
