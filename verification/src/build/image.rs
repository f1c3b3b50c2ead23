//! The parameters of an image, and the image itself.
use vstd::prelude::*;
use vstd::utf8::encode_utf8;
use crate::apart::lemma_digit;
use crate::build::config::{find_value, pairs_view, value_for};
use crate::build::Size;
use crate::error::Error;
use crate::fs::mkext4::layout::{addressable, first_block, lemma_layout_blocks, supported};
use crate::fs::mkext4::size::{blocks_for, data_blocks_needed, lemma_too_much, smallest,
    tree_blocks};
use crate::fs::mkext4::{image_bytes, laid_out, min_inodes, stats_of, tree_fault, write_image, Laid,
    Node, Params, Stats};
use crate::fs::tree::items_of;
use crate::text::{chars_of, digit, hex_byte, string_of, uuid_text};
use crate::words::{digits, number_upto, opt_view, parse_number, part};

verus! {

/// Android build timestamp (2009-01-01), used when `_info` has none.
pub const DEFAULT_TIMESTAMP: u32 = 1_230_768_000;

/// The first `n` characters that are no hyphens.
pub open spec fn without_hyphens(s: Seq<char>, n: int) -> Seq<char>
    decreases n,
{
    if n <= 0 {
        Seq::empty()
    } else if s[n - 1] == '-' {
        without_hyphens(s, n - 1)
    } else {
        without_hyphens(s, n - 1).push(s[n - 1])
    }
}

/// Byte `i` of 16 bytes in hexadecimal.
pub open spec fn hex_pair(h: Seq<char>, i: int) -> Option<nat> {
    number_upto(h.subrange(2 * i, 2 * i + 2), 16, 0xFF)
}

/// 16 bytes in hexadecimal, with hyphens anywhere.
pub open spec fn is_hex16(s: Seq<char>) -> bool {
    let h = without_hyphens(s, s.len() as int);
    h.len() == 32 && forall|i: int| 0 <= i < 16 ==> #[trigger] hex_pair(h, i) is Some
}

/// The bytes that a text in hexadecimal stands for.
pub open spec fn hex16_bytes(s: Seq<char>) -> Seq<u8> {
    let h = without_hyphens(s, s.len() as int);
    Seq::new(16, |i: int| hex_pair(h, i)->Some_0 as u8)
}

/// 16 bytes in hexadecimal, with hyphens anywhere.
pub fn parse_hex16(s: Option<&String>) -> (r: Option<[u8; 16]>)
    ensures
        match s {
            None => r is None,
            Some(t) => match r {
                Some(b) => is_hex16(t@) && b@ == hex16_bytes(t@),
                None => !is_hex16(t@),
            },
        },
{
    match s {
        None => None,
        Some(t) => hex16(&chars_of(t.as_str())),
    }
}

fn hex16(s: &[char]) -> (r: Option<[u8; 16]>)
    ensures
        match r {
            Some(b) => is_hex16(s@) && b@ == hex16_bytes(s@),
            None => !is_hex16(s@),
        },
{
    let mut h: Vec<char> = Vec::new();
    let mut i: usize = 0;
    assert(h@ =~= without_hyphens(s@, 0));
    while i < s.len()
        invariant
            i <= s@.len(),
            h@ == without_hyphens(s@, i as int),
        decreases s.len() - i,
    {
        if s[i] != '-' {
            h.push(s[i]);
        }
        i += 1;
    }
    if h.len() != 32 {
        return None;
    }
    let mut out: [u8; 16] = [0u8; 16];
    let mut i: usize = 0;
    while i < 16
        invariant
            i <= 16,
            h@.len() == 32,
            h@ == without_hyphens(s@, s@.len() as int),
            forall|k: int| 0 <= k < i ==> #[trigger] hex_pair(h@, k) is Some,
            forall|k: int| 0 <= k < i ==> #[trigger] out@[k] == hex_pair(h@, k)->Some_0,
        decreases 16 - i,
    {
        let p: Vec<char> = part(&h, 2 * i, 2 * i + 2);
        match parse_number(&p, 16, 0xFF) {
            Some(v) => {
                assert(hex_pair(h@, i as int) == Some(v as nat));
                out[i] = v as u8;
            },
            None => {
                assert(hex_pair(h@, i as int) is None);
                return None;
            },
        }
        i += 1;
    }
    assert(out@ =~= hex16_bytes(s@));
    Some(out)
}

/// `h` with its bits moved 13 places to the left, round the end.
pub open spec fn rotated(h: u128) -> u128 {
    (h << 13) | (h >> 115)
}

/// A number made of the time and the first `n` bytes of a name.
pub open spec fn mixed(name: Seq<u8>, now: u128, n: int) -> u128
    decreases n,
{
    if n <= 0 {
        0x6a09_e667_f3bc_c908_bb67_ae85_84ca_a73b ^ now
    } else {
        (rotated(mixed(name, now, n - 1)) ^ name[n - 1] as u128).wrapping_mul(
            0x0000_0000_0100_0000_0000_0000_0000_013B,
        )
    }
}

/// `h` without its last `i` bytes.
pub open spec fn shifted(h: u128, i: int) -> u128
    decreases i,
{
    if i <= 0 {
        h
    } else {
        shifted(h, i - 1) / 256
    }
}

/// Stand-in for a random UUID: its version and variant bits are set.
pub open spec fn made_up(name: Seq<u8>, now: u128) -> Seq<u8> {
    let h = mixed(name, now, name.len() as int);
    let b = Seq::new(16, |i: int| (shifted(h, i) % 256) as u8);
    b.update(6, (b[6] & 0x0F) | 0x40).update(8, (b[8] & 0x3F) | 0x80)
}

/// Stand-in for a random UUID when `_info` has none: derived from the
/// partition name and the current time.
pub fn made_up_uuid(part: &str, now: u128) -> (r: [u8; 16])
    ensures
        r@ == made_up(encode_utf8(part@), now),
{
    let b: &[u8] = part.as_bytes();
    let mut h: u128 = 0x6a09_e667_f3bc_c908_bb67_ae85_84ca_a73b ^ now;
    let mut i: usize = 0;
    while i < b.len()
        invariant
            i <= b@.len(),
            h == mixed(b@, now, i as int),
        decreases b.len() - i,
    {
        h = (((h << 13) | (h >> 115)) ^ b[i] as u128).wrapping_mul(
            0x0000_0000_0100_0000_0000_0000_0000_013B,
        );
        i += 1;
    }
    let ghost all = h;
    let mut out: [u8; 16] = [0u8; 16];
    let mut i: usize = 0;
    while i < 16
        invariant
            i <= 16,
            h == shifted(all, i as int),
            forall|k: int| 0 <= k < i ==> #[trigger] out@[k] == shifted(all, k) % 256,
        decreases 16 - i,
    {
        out[i] = (h % 256) as u8;
        h = h / 256;
        i += 1;
    }
    let b6: u8 = out[6];
    let b8: u8 = out[8];
    out[6] = (b6 & 0x0F) | 0x40;  // version 4
    out[8] = (b8 & 0x3F) | 0x80;  // variant
    assert(out@ =~= made_up(encode_utf8(part@), now));
    out
}

/// A number of `_info`.
pub open spec fn info_number(info: Seq<(Seq<char>, Seq<char>)>, key: Seq<char>) -> Option<nat> {
    match value_for(info, key, info.len() as int) {
        Some(v) => number_upto(v, 10, u64::MAX as int),
        None => None,
    }
}

fn number_for(info: &Vec<(Vec<char>, Vec<char>)>, key: &str) -> (r: Option<u64>)
    ensures
        opt_view(r) == info_number(pairs_view(info@), key@),
{
    match find_value(info, &chars_of(key)) {
        Some(v) => parse_number(&v, 10, u64::MAX),
        None => None,
    }
}

/// The block size of an image.
pub open spec fn wanted_block_size(info: Seq<(Seq<char>, Seq<char>)>) -> int {
    match info_number(info, "block_size"@) {
        Some(n) => n as int,
        None => 4096,
    }
}

/// The inodes of an image that is made to fit: some more than are in use.
pub open spec fn auto_inodes(used: int) -> int {
    (used + used / 50 + 64) % 0x1_0000_0000
}

/// The inodes of an image that keeps its size.
pub open spec fn kept_inodes(info: Seq<(Seq<char>, Seq<char>)>, used: int) -> int {
    match info_number(info, "inodes"@) {
        Some(n) => if n % 0x1_0000_0000 > auto_inodes(used) {
            (n % 0x1_0000_0000) as int
        } else {
            auto_inodes(used)
        },
        None => auto_inodes(used),
    }
}

/// The content with a margin of 2% for extent leaves and growth.
pub open spec fn with_margin(data: int) -> int {
    data + data / 50 + 256
}

/// The blocks and inodes of an image.
pub open spec fn wanted_size(
    info: Seq<(Seq<char>, Seq<char>)>,
    size: Size,
    data: int,
    used: int,
) -> Result<(int, int), Error> {
    let bs = wanted_block_size(info);
    let auto = match smallest(with_margin(data), auto_inodes(used), bs) {
        Some(n) => Ok((n, auto_inodes(used))),
        None => Err(Error::ImageTooBig),
    };
    match size {
        Size::Bytes(b) => Ok((b as int / bs, kept_inodes(info, used))),
        Size::Original => match info_number(info, "blocks"@) {
            Some(b) => Ok((b as int, kept_inodes(info, used))),
            None => auto,
        },
        Size::Auto => auto,
    }
}

/// The size of an image: blocks and inodes.
fn choose_size(
    info: &Vec<(Vec<char>, Vec<char>)>,
    size: Size,
    bs: u64,
    data: u64,
    used: u32,
) -> (r: Result<(u64, u32), Error>)
    requires
        supported(bs as int),
        bs == wanted_block_size(pairs_view(info@)),
    ensures
        match r {
            Ok((b, i)) => wanted_size(pairs_view(info@), size, data as int, used as int) == Ok::<
                (int, int),
                Error,
            >((b as int, i as int)),
            Err(e) => wanted_size(pairs_view(info@), size, data as int, used as int) == Err::<
                (int, int),
                Error,
            >(e),
        },
{
    let auto: u32 = ((used as u64 + used as u64 / 50 + 64) % 0x1_0000_0000) as u32;
    let mut kept: u32 = auto;
    if let Some(n) = number_for(info, "inodes") {
        let low: u32 = (n % 0x1_0000_0000) as u32;
        if low > auto {
            kept = low;
        }
    }
    assert(kept == kept_inodes(pairs_view(info@), used as int));
    match size {
        Size::Bytes(b) => {
            return Ok((b / bs, kept));
        },
        Size::Original => {
            if let Some(b) = number_for(info, "blocks") {
                return Ok((b, kept));
            }
        },
        Size::Auto => {},
    }
    if data > u32::MAX as u64 {
        proof {
            lemma_too_much(with_margin(data as int), auto as int, bs as int);
        }
        return Err(Error::ImageTooBig);
    }
    let want: u64 = data + data / 50 + 256;
    match blocks_for(want, auto, bs) {
        Ok(n) => Ok((n, auto)),
        Err(e) => Err(e),
    }
}

/// 16 bytes of `_info`, or made-up ones.
pub open spec fn id_bytes(
    info: Seq<(Seq<char>, Seq<char>)>,
    key: Seq<char>,
    name: Seq<char>,
    now: u128,
) -> Seq<u8> {
    match value_for(info, key, info.len() as int) {
        Some(v) => if is_hex16(v) {
            hex16_bytes(v)
        } else {
            made_up(encode_utf8(name), now)
        },
        None => made_up(encode_utf8(name), now),
    }
}

fn choose_id(info: &Vec<(Vec<char>, Vec<char>)>, key: &str, name: &str, now: u128) -> (r: [u8; 16])
    ensures
        r@ == id_bytes(pairs_view(info@), key@, name@, now),
{
    match find_value(info, &chars_of(key)) {
        Some(v) => match hex16(&v) {
            Some(b) => b,
            None => made_up_uuid(name, now),
        },
        None => made_up_uuid(name, now),
    }
}

/// The parameters of an image.
pub open spec fn are_params(
    p: Params,
    info: Seq<(Seq<char>, Seq<char>)>,
    part: Seq<char>,
    mount: Seq<char>,
    now: u128,
    blocks: int,
    inodes: int,
) -> bool {
    &&& p.block_size == wanted_block_size(info)
    &&& p.blocks == blocks
    &&& p.inodes == inodes
    &&& p.reserved_blocks == (match info_number(info, "reserved_blocks"@) {
        Some(n) => n,
        None => 0,
    })
    &&& p.uuid@ == id_bytes(info, "uuid"@, part, now)
    &&& p.hash_seed@ == id_bytes(info, "hash_seed"@, part + "-seed"@, now)
    &&& p.volume_name@ == (match value_for(info, "volume_name"@, info.len() as int) {
        Some(v) => v,
        None => part,
    })
    &&& p.last_mounted@ == mount
    &&& p.timestamp == (match info_number(info, "created"@) {
        Some(t) => t % 0x1_0000_0000,
        None => DEFAULT_TIMESTAMP as nat,
    })
}

fn choose_params(
    info: &Vec<(Vec<char>, Vec<char>)>,
    part: &str,
    mount: &str,
    now: u128,
    bs: u64,
    blocks: u64,
    inodes: u32,
) -> (r: Params)
    requires
        bs == wanted_block_size(pairs_view(info@)),
    ensures
        are_params(r, pairs_view(info@), part@, mount@, now, blocks as int, inodes as int),
{
    let reserved: u64 = match number_for(info, "reserved_blocks") {
        Some(n) => n,
        None => 0,
    };
    let timestamp: u32 = match number_for(info, "created") {
        Some(t) => (t % 0x1_0000_0000) as u32,
        None => DEFAULT_TIMESTAMP,
    };
    let volume_name: String = match find_value(info, &chars_of("volume_name")) {
        Some(v) => string_of(&v),
        None => part.to_string(),
    };
    let mut seed: String = part.to_string();
    vstd::string::StringExecFns::append(&mut seed, "-seed");
    Params {
        block_size: bs,
        blocks,
        inodes,
        reserved_blocks: reserved,
        uuid: choose_id(info, "uuid", part, now),
        hash_seed: choose_id(info, "hash_seed", seed.as_str(), now),
        volume_name,
        last_mounted: mount.to_string(),
        timestamp,
    }
}

/// What keeps the image of a tree from being made, before its size is known.
pub open spec fn content_fault(root: Node, bs: int) -> Option<Error> {
    if !(264 <= bs <= 65536) {
        Some(Error::UnsupportedBlockSize)
    } else {
        match tree_fault(root) {
            Some(e) => Some(e),
            None => if tree_blocks(root, bs) > u64::MAX {
                Some(Error::ImageTooBig)
            } else if !supported(bs) {
                Some(Error::UnsupportedBlockSize)
            } else {
                None
            },
        }
    }
}

/// The blocks and inodes of the image of a tree.
pub open spec fn image_size(
    root: Node,
    info: Seq<(Seq<char>, Seq<char>)>,
    size: Size,
) -> Result<(int, int), Error> {
    let bs = wanted_block_size(info);
    match content_fault(root, bs) {
        Some(e) => Err(e),
        None => match wanted_size(
            info,
            size,
            tree_blocks(root, bs),
            items_of(root).len() as int + 9,
        ) {
            Err(e) => Err(e),
            Ok((blocks, inodes)) => if blocks <= first_block(bs) {
                Err(Error::ImageTooSmall)
            } else if !addressable(bs, blocks) {
                Err(Error::ImageTooBig)
            } else {
                Ok((blocks, inodes))
            },
        },
    }
}

fn write(root: &Node, p: &Params) -> (r: Result<(Vec<u8>, Stats), Error>)
    requires
        addressable(p.block_size as int, p.blocks as int),
    ensures
        match r {
            Ok((image, stats)) => {
                &&& laid_out(*root, *p) is Ok
                &&& image@ == image_bytes(laid_out(*root, *p)->Ok_0, *p)
                &&& stats == stats_of(laid_out(*root, *p)->Ok_0)
                &&& stats.blocks <= p.blocks
            },
            Err(e) => laid_out(*root, *p) == Err::<Laid, Error>(e),
        },
{
    proof {
        lemma_layout_blocks(p.block_size as int, p.blocks as int, min_inodes(*root, *p));
    }
    write_image(root, p)
}

/// Makes the image of a tree: its bytes, and block and inode usage.
pub fn build_image(
    root: &Node,
    info: &Vec<(Vec<char>, Vec<char>)>,
    part: &str,
    mount: &str,
    size: Size,
    now: u128,
) -> (r: Result<(Vec<u8>, Stats, u64), Error>)
    ensures
        match r {
            Ok((_, stats, bs)) => stats.blocks <= u32::MAX && bs <= 4096,
            Err(_) => true,
        },
        match image_size(*root, pairs_view(info@), size) {
            Err(e) => r == Err::<(Vec<u8>, Stats, u64), Error>(e),
            Ok((blocks, inodes)) => exists|p: Params|
                #![trigger laid_out(*root, p)]
                are_params(p, pairs_view(info@), part@, mount@, now, blocks, inodes) && match r {
                    Ok((image, stats, bs)) => {
                        &&& laid_out(*root, p) is Ok
                        &&& image@ == image_bytes(laid_out(*root, p)->Ok_0, p)
                        &&& stats == stats_of(laid_out(*root, p)->Ok_0)
                        &&& bs == p.block_size
                    },
                    Err(e) => laid_out(*root, p) == Err::<Laid, Error>(e),
                },
        },
{
    let bs: u64 = match number_for(info, "block_size") {
        Some(n) => n,
        None => 4096,
    };
    if bs < 264 || bs > 65536 {
        return Err(Error::UnsupportedBlockSize);
    }
    let (data, used): (u64, u32) = match data_blocks_needed(root, bs) {
        Ok(x) => x,
        Err(e) => {
            return Err(e);
        },
    };
    if bs != 1024 && bs != 2048 && bs != 4096 {
        return Err(Error::UnsupportedBlockSize);
    }
    let (blocks, inodes): (u64, u32) = match choose_size(info, size, bs, data, used) {
        Ok(x) => x,
        Err(e) => {
            return Err(e);
        },
    };
    let first: u64 = if bs == 1024 {
        1
    } else {
        0
    };
    if blocks <= first {
        return Err(Error::ImageTooSmall);
    }
    if blocks > u32::MAX as u64 {
        return Err(Error::ImageTooBig);
    }
    let p: Params = choose_params(info, part, mount, now, bs, blocks, inodes);
    match write(root, &p) {
        Ok((image, stats)) => Ok((image, stats, bs)),
        Err(e) => Err(e),
    }
}

proof fn lemma_hyphens_prefix(s: Seq<char>, t: Seq<char>, n: int)
    requires
        0 <= n <= s.len(),
    ensures
        without_hyphens(s + t, n) == without_hyphens(s, n),
    decreases n,
{
    if n > 0 {
        lemma_hyphens_prefix(s, t, n - 1);
        assert((s + t)[n - 1] == s[n - 1]);
    }
}

/// Two digits more.
proof fn lemma_two_more(s: Seq<char>, b: u8)
    ensures
        without_hyphens(s + hex_byte(b), s.len() as int + 2) == without_hyphens(s, s.len() as int)
            + hex_byte(b),
{
    let t = s + hex_byte(b);
    let n = s.len() as int;
    lemma_hyphens_prefix(s, hex_byte(b), n);
    assert(t[n] == digit(b as int / 16));
    assert(t[n + 1] == digit(b as int % 16));
    assert(without_hyphens(t, n + 1) == without_hyphens(t, n).push(t[n]));
    assert(without_hyphens(t, n + 2) == without_hyphens(t, n + 1).push(t[n + 1]));
    assert(without_hyphens(t, n).push(t[n]).push(t[n + 1]) =~= without_hyphens(s, n) + hex_byte(b));
}

/// The digits of the first `n` bytes.
proof fn lemma_uuid_digits(b: Seq<u8>, n: int)
    requires
        0 <= n <= b.len(),
    ensures
        ({
            let h = without_hyphens(uuid_text(b, n), uuid_text(b, n).len() as int);
            &&& h.len() == 2 * n
            &&& forall|i: int|
                #![trigger b[i]]
                0 <= i < n ==> h.subrange(2 * i, 2 * i + 2) == hex_byte(b[i])
        }),
    decreases n,
{
    if n > 0 {
        lemma_uuid_digits(b, n - 1);
        let head = uuid_text(b, n - 1);
        let before = without_hyphens(head, head.len() as int);
        let s = if n == 5 || n == 7 || n == 9 || n == 11 {
            head.push('-')
        } else {
            head
        };
        if n == 5 || n == 7 || n == 9 || n == 11 {
            assert(head.push('-') =~= head + seq!['-']);
            lemma_hyphens_prefix(head, seq!['-'], head.len() as int);
        }
        assert(without_hyphens(s, s.len() as int) == before);
        lemma_two_more(s, b[n - 1]);
        let h = without_hyphens(uuid_text(b, n), uuid_text(b, n).len() as int);
        assert(h == before + hex_byte(b[n - 1]));
        assert forall|i: int| #![trigger b[i]] 0 <= i < n implies h.subrange(2 * i, 2 * i + 2)
            == hex_byte(b[i]) by {
            if i < n - 1 {
                assert(h.subrange(2 * i, 2 * i + 2) =~= before.subrange(2 * i, 2 * i + 2));
            } else {
                assert(h.subrange(2 * i, 2 * i + 2) =~= hex_byte(b[i]));
            }
        }
    }
}

/// The value of a byte in hexadecimal.
proof fn lemma_hex_byte(b: u8)
    ensures
        number_upto(hex_byte(b), 16, 0xFF) == Some(b as nat),
{
    let s = hex_byte(b);
    lemma_digit(b as int / 16);
    lemma_digit(b as int % 16);
    assert(s[0] == digit(b as int / 16));
    assert(s[1] == digit(b as int % 16));
    assert(digits(s, 16, 0) == Some(0nat));
    assert(digits(s, 16, 1) == Some((b as int / 16) as nat));
    assert(digits(s, 16, 2) == Some(b as nat));
}

/// A UUID that was written is read back.
pub proof fn uuid_round_trip(b: Seq<u8>)
    requires
        b.len() == 16,
    ensures
        is_hex16(uuid_text(b, 16)),
        hex16_bytes(uuid_text(b, 16)) == b,
{
    lemma_uuid_digits(b, 16);
    let h = without_hyphens(uuid_text(b, 16), uuid_text(b, 16).len() as int);
    assert forall|i: int| 0 <= i < 16 implies #[trigger] hex_pair(h, i) == Some(b[i] as nat) by {
        lemma_hex_byte(b[i]);
        assert(h.subrange(2 * i, 2 * i + 2) == hex_byte(b[i]));
    }
    assert(hex16_bytes(uuid_text(b, 16)) =~= b);
}

} // verus!
