//! The xattrs of an ext4 image: entries from the front of an area, values
//! from its end.
use vstd::prelude::*;
use crate::bytes::{bytes16, bytes32, get32, le32, push16, push32, push_bytes, push_zeros, start32,
    zero_seq};
use crate::error::Error;
use crate::fs::xattr::{attrs_view, Attr, Xattr};

verus! {

broadcast use crate::bytes::group_byte_lens;

pub const XATTR_MAGIC: u32 = 0xEA02_0000;

pub const XATTR_INDEX_SECURITY: u8 = 6;

/// `n` rounded up to a multiple of 4.
pub open spec fn pad4(n: int) -> int {
    (n + 3) / 4 * 4
}

/// The hash of the first `n` bytes of a name.
pub open spec fn name_hash(name: Seq<u8>, n: int) -> u32
    decreases n,
{
    if n <= 0 {
        0
    } else {
        let h = name_hash(name, n - 1);
        (h << 5) ^ (h >> 27) ^ name[n - 1] as u32
    }
}

/// Word `k` of a value that is padded with zeros.
pub open spec fn value_word(value: Seq<u8>, k: int) -> u32 {
    le32(value + zero_seq(pad4(value.len() as int) - value.len()), 4 * k) as u32
}

/// A hash, taken further over the first `n` words of a value.
pub open spec fn value_hash(start: u32, value: Seq<u8>, n: int) -> u32
    decreases n,
{
    if n <= 0 {
        start
    } else {
        let h = value_hash(start, value, n - 1);
        (h << 16) ^ (h >> 16) ^ value_word(value, n - 1)
    }
}

/// The hash of an entry: over its name, then over the words of its value.
pub open spec fn hash_of(name: Seq<u8>, value: Seq<u8>) -> u32 {
    value_hash(
        name_hash(name, name.len() as int),
        value,
        pad4(value.len() as int) / 4,
    )
}

/// Bytes of the values of the first `k` xattrs.
pub open spec fn values_len(attrs: Seq<Attr>, k: int) -> int
    decreases k,
{
    if k <= 0 {
        0
    } else {
        values_len(attrs, k - 1) + pad4(attrs[k - 1].value.len() as int)
    }
}

/// Bytes of the first `k` entries.
pub open spec fn entries_len(attrs: Seq<Attr>, k: int) -> int
    decreases k,
{
    if k <= 0 {
        0
    } else {
        entries_len(attrs, k - 1) + 16 + pad4(attrs[k - 1].name.len() as int)
    }
}

/// Entry `k` of an area of `len` bytes: name length, index, offset of the
/// value, no inode, size of the value, hash, name.
pub open spec fn entry_bytes(attrs: Seq<Attr>, k: int, len: int, hashed: bool) -> Seq<u8> {
    let a = attrs[k];
    seq![a.name.len() as u8, XATTR_INDEX_SECURITY] + bytes16(len - values_len(attrs, k + 1))
        + bytes32(0) + bytes32(a.value.len() as int) + bytes32(
        (if hashed {
            hash_of(a.name, a.value)
        } else {
            0
        }) as int,
    ) + a.name + zero_seq(pad4(a.name.len() as int) - a.name.len())
}

/// The first `k` entries.
pub open spec fn entries(attrs: Seq<Attr>, k: int, len: int, hashed: bool) -> Seq<u8>
    decreases k,
{
    if k <= 0 {
        Seq::empty()
    } else {
        entries(attrs, k - 1, len, hashed) + entry_bytes(attrs, k - 1, len, hashed)
    }
}

/// The values of the first `k` xattrs; the first one comes last.
pub open spec fn values(attrs: Seq<Attr>, k: int) -> Seq<u8>
    decreases k,
{
    if k <= 0 {
        Seq::empty()
    } else {
        let v = attrs[k - 1].value;
        v + zero_seq(pad4(v.len() as int) - v.len()) + values(attrs, k - 1)
    }
}

/// Whether the xattrs fit in an area of `len` bytes behind `at` bytes: all
/// entries, a terminator and all values.
pub open spec fn fits(attrs: Seq<Attr>, at: int, len: int) -> bool {
    let n = attrs.len() as int;
    at + entries_len(attrs, n) + 4 + values_len(attrs, n) <= len
}

/// An area of `len` bytes behind its first `at` bytes.
pub open spec fn area(attrs: Seq<Attr>, at: int, len: int, hashed: bool) -> Seq<u8> {
    let n = attrs.len() as int;
    entries(attrs, n, len, hashed) + zero_seq(
        len - at - entries_len(attrs, n) - values_len(attrs, n),
    ) + values(attrs, n)
}

/// The hash of the first `k` entries of a block.
pub open spec fn block_hash(attrs: Seq<Attr>, k: int) -> u32
    decreases k,
{
    if k <= 0 {
        0
    } else {
        let h = block_hash(attrs, k - 1);
        (h << 16) ^ (h >> 16) ^ hash_of(attrs[k - 1].name, attrs[k - 1].value)
    }
}

/// An xattr block: magic, one reference, one block, hash, the area.
pub open spec fn block_bytes(attrs: Seq<Attr>, bs: int) -> Seq<u8> {
    bytes32(XATTR_MAGIC as int) + bytes32(1) + bytes32(1) + bytes32(
        block_hash(attrs, attrs.len() as int) as int,
    ) + zero_seq(16) + area(attrs, 32, bs, true)
}

pub proof fn lemma_lens(attrs: Seq<Attr>, k: int, len: int, hashed: bool)
    requires
        0 <= k <= attrs.len(),
    ensures
        entries(attrs, k, len, hashed).len() == entries_len(attrs, k),
        values(attrs, k).len() == values_len(attrs, k),
        0 <= entries_len(attrs, k),
        0 <= values_len(attrs, k),
    decreases k,
{
    if k > 0 {
        lemma_lens(attrs, k - 1, len, hashed);
    }
}

pub proof fn lemma_lens_mono(attrs: Seq<Attr>, j: int, k: int)
    requires
        0 <= j <= k <= attrs.len(),
    ensures
        0 <= values_len(attrs, j) <= values_len(attrs, k),
        0 <= entries_len(attrs, j) <= entries_len(attrs, k),
    decreases k,
{
    if j < k {
        lemma_lens_mono(attrs, j, k - 1);
    } else if j > 0 {
        lemma_lens_mono(attrs, j - 1, k - 1);
    }
}

/// `ext2fs_ext_attr_hash_entry`
pub fn xattr_hash(name: &[u8], value: &[u8]) -> (r: u32)
    requires
        value.len() + 3 <= usize::MAX,
    ensures
        r == hash_of(name@, value@),
{
    let mut h: u32 = 0;
    let mut i: usize = 0;
    while i < name.len()
        invariant
            i <= name.len(),
            h == name_hash(name@, i as int),
        decreases name.len() - i,
    {
        h = (h << 5) ^ (h >> 27) ^ name[i] as u32;
        i += 1;
    }
    let ghost start = h;
    let n: usize = value.len();
    let padded: usize = (n + 3) / 4 * 4;
    let mut words: Vec<u8> = Vec::new();
    push_bytes(&mut words, value);
    push_zeros(&mut words, padded - n);
    assert(words@ =~= value@ + zero_seq(pad4(n as int) - n));
    let mut k: usize = 0;
    while k < padded / 4
        invariant
            k <= padded / 4,
            words@.len() == padded,
            padded % 4 == 0,
            words@ == value@ + zero_seq(pad4(value@.len() as int) - value@.len()),
            h == value_hash(start, value@, k as int),
        decreases padded / 4 - k,
    {
        h = (h << 16) ^ (h >> 16) ^ get32(&words, 4 * k);
        k += 1;
    }
    h
}

/// Bytes of all entries and of all values.
fn lengths(attrs: &Vec<Xattr>) -> (r: Option<(u64, u64)>)
    ensures
        match r {
            Some((e, v)) => {
                &&& e == entries_len(attrs_view(attrs@), attrs@.len() as int)
                &&& v == values_len(attrs_view(attrs@), attrs@.len() as int)
                &&& e + v < 0x1000_0000
                &&& forall|k: int|
                    0 <= k < attrs@.len() ==> (#[trigger] attrs@[k]).value.len() < 0x1000_0000
            },
            None => entries_len(attrs_view(attrs@), attrs@.len() as int) + values_len(
                attrs_view(attrs@),
                attrs@.len() as int,
            ) >= 0x1000_0000,
        },
{
    let ghost all = attrs_view(attrs@);
    let mut e: u64 = 0;
    let mut v: u64 = 0;
    let mut k: usize = 0;
    while k < attrs.len()
        invariant
            k <= attrs.len(),
            all == attrs_view(attrs@),
            e == entries_len(all, k as int),
            v == values_len(all, k as int),
            e + v < 0x1000_0000,
            forall|j: int| 0 <= j < k ==> (#[trigger] attrs@[j]).value.len() < 0x1000_0000,
        decreases attrs.len() - k,
    {
        assert(all[k as int] == attrs@[k as int]@);
        let name: usize = attrs[k].name.len();
        let value: usize = attrs[k].value.len();
        proof {
            lemma_lens_mono(all, k + 1, all.len() as int);
        }
        if name >= 0x1000_0000 || value >= 0x1000_0000 {
            return None;
        }
        e = e + 16 + (name as u64 + 3) / 4 * 4;
        v = v + (value as u64 + 3) / 4 * 4;
        if e + v >= 0x1000_0000 {
            return None;
        }
        k += 1;
    }
    Some((e, v))
}

/// Appends entry `k` of an area of `len` bytes, whose value starts at
/// `value_at`.
fn push_entry(
    out: &mut Vec<u8>,
    attrs: &Vec<Xattr>,
    k: usize,
    value_at: u64,
    hashed: bool,
    Ghost(len): Ghost<int>,
)
    requires
        k < attrs.len(),
        attrs@[k as int].name.len() <= 255,
        attrs@[k as int].value.len() < 0x1000_0000,
        value_at == len - values_len(attrs_view(attrs@), k + 1),
        value_at < 0x1_0000,
    ensures
        final(out)@ == old(out)@ + entry_bytes(attrs_view(attrs@), k as int, len, hashed),
{
    let a: &Xattr = &attrs[k];
    assert(attrs_view(attrs@)[k as int] == a@);
    let n: usize = a.name.len();
    let mut b: Vec<u8> = vec![n as u8, XATTR_INDEX_SECURITY];
    assert(b@ =~= seq![a@.name.len() as u8, XATTR_INDEX_SECURITY]);
    push16(&mut b, value_at as u16);
    push32(&mut b, 0);
    push32(&mut b, a.value.len() as u32);
    let hash: u32 = if hashed {
        xattr_hash(&a.name, &a.value)
    } else {
        0
    };
    push32(&mut b, hash);
    push_bytes(&mut b, &a.name);
    push_zeros(&mut b, (n + 3) / 4 * 4 - n);
    push_bytes(out, &b);
}

/// Lays out xattr entries and values in an area of `len` bytes behind its
/// first `at` bytes. Nothing when they don't fit.
pub fn place_xattrs(attrs: &Vec<Xattr>, at: u64, len: u64, hashed: bool) -> (r: Option<Vec<u8>>)
    requires
        len <= 0xFFFF,
        forall|k: int| 0 <= k < attrs@.len() ==> (#[trigger] attrs@[k]).name.len() <= 255,
    ensures
        match r {
            Some(v) => fits(attrs_view(attrs@), at as int, len as int) && v@ == area(
                attrs_view(attrs@),
                at as int,
                len as int,
                hashed,
            ),
            None => !fits(attrs_view(attrs@), at as int, len as int),
        },
{
    let ghost all = attrs_view(attrs@);
    let ghost n = attrs@.len() as int;
    proof {
        lemma_lens_mono(all, 0, n);
    }
    if at > len {
        return None;
    }
    let (elen, vlen): (u64, u64) = match lengths(attrs) {
        Some(x) => x,
        None => {
            return None;
        },
    };
    if at + elen + 4 + vlen > len {
        return None;
    }
    let mut out: Vec<u8> = Vec::new();
    assert(out@ =~= entries(all, 0, len as int, hashed));
    let mut value_at: u64 = len;
    let mut k: usize = 0;
    while k < attrs.len()
        invariant
            k <= attrs.len(),
            all == attrs_view(attrs@),
            len <= 0xFFFF,
            vlen <= len,
            vlen == values_len(all, attrs@.len() as int),
            value_at == len - values_len(all, k as int),
            forall|k: int| 0 <= k < attrs@.len() ==> (#[trigger] attrs@[k]).name.len() <= 255,
            forall|k: int|
                0 <= k < attrs@.len() ==> (#[trigger] attrs@[k]).value.len() < 0x1000_0000,
            out@ == entries(all, k as int, len as int, hashed),
        decreases attrs.len() - k,
    {
        assert(all[k as int] == attrs@[k as int]@);
        proof {
            lemma_lens_mono(all, k + 1, all.len() as int);
        }
        value_at = value_at - (attrs[k].value.len() as u64 + 3) / 4 * 4;
        push_entry(&mut out, attrs, k, value_at, hashed, Ghost(len as int));
        k += 1;
    }
    push_zeros(&mut out, (len - at - elen - vlen) as usize);
    let ghost head = out@;
    let mut k: usize = attrs.len();
    proof {
        assert(head + Seq::<u8>::empty() =~= head);
    }
    let ghost mut tail = Seq::<u8>::empty();
    while k > 0
        invariant
            k <= attrs.len(),
            all == attrs_view(attrs@),
            out@ == head + tail,
            tail + values(all, k as int) == values(all, all.len() as int),
            forall|k: int|
                0 <= k < attrs@.len() ==> (#[trigger] attrs@[k]).value.len() < 0x1000_0000,
        decreases k,
    {
        assert(all[k - 1] == attrs@[k - 1]@);
        let v: &Vec<u8> = &attrs[k - 1].value;
        let m: usize = v.len();
        push_bytes(&mut out, v);
        push_zeros(&mut out, (m + 3) / 4 * 4 - m);
        proof {
            let more = v@ + zero_seq(pad4(m as int) - m);
            let rest = values(all, k - 1);
            assert(head + tail + v@ + zero_seq(pad4(m as int) - m) =~= head + (tail + more));
            assert(tail + (more + rest) =~= (tail + more) + rest);
            tail = tail + more;
        }
        k -= 1;
    }
    assert(tail + Seq::<u8>::empty() =~= tail);
    Some(out)
}

/// The hash over the entries of a block.
fn hash_all(attrs: &Vec<Xattr>) -> (r: u32)
    requires
        forall|k: int| 0 <= k < attrs@.len() ==> (#[trigger] attrs@[k]).value.len() < 0x1000_0000,
    ensures
        r == block_hash(attrs_view(attrs@), attrs@.len() as int),
{
    let ghost all = attrs_view(attrs@);
    let mut h: u32 = 0;
    let mut k: usize = 0;
    while k < attrs.len()
        invariant
            k <= attrs.len(),
            all == attrs_view(attrs@),
            h == block_hash(all, k as int),
            forall|k: int|
                0 <= k < attrs@.len() ==> (#[trigger] attrs@[k]).value.len() < 0x1000_0000,
        decreases attrs.len() - k,
    {
        assert(all[k as int] == attrs@[k as int]@);
        let e: u32 = xattr_hash(&attrs[k].name, &attrs[k].value);
        h = (h << 16) ^ (h >> 16) ^ e;
        k += 1;
    }
    h
}

/// An xattr block.
pub fn xattr_block(attrs: &Vec<Xattr>, bs: usize) -> (r: Result<Vec<u8>, Error>)
    requires
        32 <= bs <= 0xFFFF,
        forall|k: int| 0 <= k < attrs@.len() ==> (#[trigger] attrs@[k]).name.len() <= 255,
    ensures
        match r {
            Ok(v) => fits(attrs_view(attrs@), 32, bs as int) && v@ == block_bytes(
                attrs_view(attrs@),
                bs as int,
            ),
            Err(e) => !fits(attrs_view(attrs@), 32, bs as int) && e == Error::XattrsTooBig,
        },
{
    match place_xattrs(attrs, 32, bs as u64, true) {
        Some(area) => {
            proof {
                let all = attrs_view(attrs@);
                lemma_lens_mono(all, 0, all.len() as int);
                assert forall|k: int| 0 <= k < attrs@.len() implies (
                #[trigger] attrs@[k]).value.len() < 0x1000_0000 by {
                    assert(all[k] == attrs@[k]@);
                    lemma_lens_mono(all, k + 1, all.len() as int);
                    lemma_lens_mono(all, 0, k);
                }
            }
            let hash: u32 = hash_all(attrs);
            let mut b: Vec<u8> = start32(XATTR_MAGIC);
            push32(&mut b, 1);
            push32(&mut b, 1);
            push32(&mut b, hash);
            push_zeros(&mut b, 16);
            push_bytes(&mut b, &area);
            Ok(b)
        },
        None => Err(Error::XattrsTooBig),
    }
}

} // verus!
