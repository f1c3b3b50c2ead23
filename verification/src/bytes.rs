//! Little-endian and big-endian integers in byte sequences, and the few
//! buffer operations the image formats are built from.
use vstd::prelude::*;

verus! {

/// The little-endian 16-bit number at byte `i`.
pub open spec fn le16(s: Seq<u8>, i: int) -> int {
    s[i] + 0x100 * s[i + 1]
}

/// The little-endian 32-bit number at byte `i`.
pub open spec fn le32(s: Seq<u8>, i: int) -> int {
    s[i] + 0x100 * s[i + 1] + 0x1_0000 * s[i + 2] + 0x100_0000 * s[i + 3]
}

/// The little-endian 64-bit number at byte `i`.
pub open spec fn le64(s: Seq<u8>, i: int) -> int {
    le32(s, i) + 0x1_0000_0000 * le32(s, i + 4)
}

/// The big-endian 32-bit number at byte `i`.
pub open spec fn be32(s: Seq<u8>, i: int) -> int {
    s[i + 3] + 0x100 * s[i + 2] + 0x1_0000 * s[i + 1] + 0x100_0000 * s[i]
}

/// The low byte of `v`.
pub open spec fn low8(v: int) -> u8 {
    (v % 0x100) as u8
}

/// The low 16 bits of `v`, little-endian.
#[verifier::opaque]
pub open spec fn bytes16(v: int) -> Seq<u8> {
    seq![low8(v), low8(v / 0x100)]
}

/// The low 32 bits of `v`, little-endian.
#[verifier::opaque]
pub open spec fn bytes32(v: int) -> Seq<u8> {
    seq![low8(v), low8(v / 0x100), low8(v / 0x1_0000), low8(v / 0x100_0000)]
}

/// The low 64 bits of `v`, little-endian.
#[verifier::opaque]
pub open spec fn bytes64(v: int) -> Seq<u8> {
    bytes32(v % 0x1_0000_0000) + bytes32(v / 0x1_0000_0000)
}

pub broadcast proof fn len_bytes16(v: int)
    ensures
        #[trigger] bytes16(v).len() == 2,
{
    reveal(bytes16);
}

pub broadcast proof fn len_bytes32(v: int)
    ensures
        #[trigger] bytes32(v).len() == 4,
{
    reveal(bytes32);
}

pub broadcast proof fn len_bytes64(v: int)
    ensures
        #[trigger] bytes64(v).len() == 8,
{
    reveal(bytes64);
    reveal(bytes32);
}

pub broadcast group group_byte_lens {
    len_bytes16,
    len_bytes32,
    len_bytes64,
}

/// `n` zero bytes.
pub open spec fn zero_seq(n: int) -> Seq<u8> {
    Seq::new(n as nat, |k: int| 0u8)
}

/// `n` rounded up to a multiple of `m`.
pub open spec fn round_up(n: int, m: int) -> int {
    (n + m - 1) / m * m
}

/// `n` divided by `m`, rounded up.
pub open spec fn ceil_div(n: int, m: int) -> int {
    (n + m - 1) / m
}

/// `s` with the bytes from `at` on replaced by `d`.
pub open spec fn patched(s: Seq<u8>, at: int, d: Seq<u8>) -> Seq<u8> {
    Seq::new(s.len(), |k: int| if at <= k < at + d.len() { d[k - at] } else { s[k] })
}

/// `new` differs from `old` at most in the bytes `at..at + n`.
pub open spec fn same_outside(old: Seq<u8>, new: Seq<u8>, at: int, n: int) -> bool {
    &&& new.len() == old.len()
    &&& forall|k: int| 0 <= k < old.len() && !(at <= k < at + n) ==> #[trigger] new[k] == old[k]
}

/// The number written by `bytes16` is the one that `le16` reads.
pub proof fn lemma_bytes16(v: int)
    requires
        0 <= v < 0x1_0000,
    ensures
        le16(bytes16(v), 0) == v,
{
    reveal(bytes16);
}

/// The number written by `bytes32` is the one that `le32` reads.
pub proof fn lemma_bytes32(v: int)
    requires
        0 <= v < 0x1_0000_0000,
    ensures
        le32(bytes32(v), 0) == v,
{
    reveal(bytes32);
}

/// The number written by `bytes64` is the one that `le64` reads.
pub proof fn lemma_bytes64(v: int)
    requires
        0 <= v < 0x1_0000_0000_0000_0000,
    ensures
        le64(bytes64(v), 0) == v,
{
    reveal(bytes64);
    broadcast use group_byte_lens;

    lemma_bytes32(v % 0x1_0000_0000);
    lemma_bytes32(v / 0x1_0000_0000);
}

pub proof fn lemma_round_up(n: int, m: int)
    requires
        0 < m,
    ensures
        n <= round_up(n, m) < n + m,
        round_up(n, m) % m == 0,
        round_up(n, m) == ceil_div(n, m) * m,
        n % m == 0 ==> round_up(n, m) == n,
        0 <= n ==> 0 <= ceil_div(n, m),
{
    let q = (n + m - 1) / m;
    assert(n + m - 1 == m * q + (n + m - 1) % m) by (nonlinear_arith)
        requires
            0 < m,
            q == (n + m - 1) / m,
    ;
    assert(q * m == m * q) by (nonlinear_arith);
    assert(q * m % m == 0) by (nonlinear_arith)
        requires
            0 < m,
    ;
    if n % m == 0 {
        assert(q * m == n) by (nonlinear_arith)
            requires
                n % m == 0,
                0 < m,
                n <= q * m < n + m,
                q * m % m == 0,
        ;
    }
    if 0 <= n {
        assert(0 <= q) by (nonlinear_arith)
            requires
                0 <= n,
                0 < m,
                q == (n + m - 1) / m,
        ;
    }
}

/// `n` divided by `m`, rounded up.
pub fn div_up(n: u64, m: u64) -> (r: u64)
    requires
        0 < m,
    ensures
        r == ceil_div(n as int, m as int),
        r <= n,
{
    let q: u64 = n / m;
    let k: u64 = n % m;
    assert(n == q * m + k && k < m && q * m <= n && q <= q * m) by (nonlinear_arith)
        requires
            q == n / m,
            k == n % m,
            0 < m,
    ;
    proof {
        let up: int = if k == 0 {
            0
        } else {
            1
        };
        assert((q + up) * m == q * m + up * m) by (nonlinear_arith);
        vstd::arithmetic::div_mod::lemma_fundamental_div_mod_converse(
            n + m - 1,
            m as int,
            q + up,
            k + m - 1 - up * m,
        );
    }
    if k == 0 {
        q
    } else {
        q + 1
    }
}

/// `n` rounded up to a multiple of `m`.
pub fn align_up(n: u64, m: u64) -> (r: u64)
    requires
        0 < m,
        n + m <= u64::MAX,
    ensures
        r == round_up(n as int, m as int),
        n <= r < n + m,
{
    proof {
        lemma_round_up(n as int, m as int);
    }
    (n + (m - 1)) / m * m
}

pub fn get16(b: &[u8], i: usize) -> (r: u16)
    requires
        i + 2 <= b.len(),
    ensures
        r == le16(b@, i as int),
{
    b[i] as u16 + 0x100 * (b[i + 1] as u16)
}

pub fn get32(b: &[u8], i: usize) -> (r: u32)
    requires
        i + 4 <= b.len(),
    ensures
        r == le32(b@, i as int),
{
    b[i] as u32 + 0x100 * (b[i + 1] as u32) + 0x1_0000 * (b[i + 2] as u32) + 0x100_0000 * (b[i
        + 3] as u32)
}

pub fn get64(b: &[u8], i: usize) -> (r: u64)
    requires
        i + 8 <= b.len(),
    ensures
        r == le64(b@, i as int),
{
    get32(b, i) as u64 + 0x1_0000_0000 * (get32(b, i + 4) as u64)
}

pub fn get_be32(b: &[u8], i: usize) -> (r: u32)
    requires
        i + 4 <= b.len(),
    ensures
        r == be32(b@, i as int),
{
    b[i + 3] as u32 + 0x100 * (b[i + 2] as u32) + 0x1_0000 * (b[i + 1] as u32) + 0x100_0000 * (
    b[i] as u32)
}

pub fn put32(b: &mut Vec<u8>, at: usize, v: u32)
    requires
        at + 4 <= old(b).len(),
    ensures
        final(b)@ == patched(old(b)@, at as int, bytes32(v as int)),
{
    b.set(at, (v % 0x100) as u8);
    b.set(at + 1, (v / 0x100 % 0x100) as u8);
    b.set(at + 2, (v / 0x1_0000 % 0x100) as u8);
    b.set(at + 3, (v / 0x100_0000) as u8);
    proof {
        reveal(bytes32);
    }
    assert(b@ =~= patched(old(b)@, at as int, bytes32(v as int)));
}

pub fn put_be32(b: &mut Vec<u8>, at: usize, v: u32)
    requires
        at + 4 <= old(b).len(),
    ensures
        be32(final(b)@, at as int) == v,
        same_outside(old(b)@, final(b)@, at as int, 4),
{
    b.set(at + 3, (v % 0x100) as u8);
    b.set(at + 2, (v / 0x100 % 0x100) as u8);
    b.set(at + 1, (v / 0x1_0000 % 0x100) as u8);
    b.set(at, (v / 0x100_0000) as u8);
}

/// A buffer that starts with a 16-bit number.
pub fn start16(x: u16) -> (r: Vec<u8>)
    ensures
        r@ == bytes16(x as int),
{
    let mut v: Vec<u8> = Vec::new();
    v.push((x % 0x100) as u8);
    v.push((x / 0x100) as u8);
    proof {
        reveal(bytes16);
    }
    assert(v@ =~= bytes16(x as int));
    v
}

/// A buffer that starts with a 32-bit number.
pub fn start32(x: u32) -> (r: Vec<u8>)
    ensures
        r@ == bytes32(x as int),
{
    let mut v: Vec<u8> = Vec::new();
    push32(&mut v, x);
    proof {
        reveal(bytes32);
    }
    assert(v@ =~= bytes32(x as int));
    v
}

pub fn push16(v: &mut Vec<u8>, x: u16)
    ensures
        final(v)@ == old(v)@ + bytes16(x as int),
{
    v.push((x % 0x100) as u8);
    v.push((x / 0x100) as u8);
    proof {
        reveal(bytes16);
    }
    assert(v@ =~= old(v)@ + bytes16(x as int));
}

pub fn push32(v: &mut Vec<u8>, x: u32)
    ensures
        final(v)@ == old(v)@ + bytes32(x as int),
{
    v.push((x % 0x100) as u8);
    v.push((x / 0x100 % 0x100) as u8);
    v.push((x / 0x1_0000 % 0x100) as u8);
    v.push((x / 0x100_0000) as u8);
    proof {
        reveal(bytes32);
    }
    assert(v@ =~= old(v)@ + bytes32(x as int));
}

pub fn push64(v: &mut Vec<u8>, x: u64)
    ensures
        final(v)@ == old(v)@ + bytes64(x as int),
{
    push32(v, (x % 0x1_0000_0000) as u32);
    push32(v, (x / 0x1_0000_0000) as u32);
    proof {
        reveal(bytes64);
    }
    assert(v@ =~= old(v)@ + bytes64(x as int));
}

/// A buffer of `n` zero bytes.
pub fn zeros(n: usize) -> (r: Vec<u8>)
    ensures
        r@ == zero_seq(n as int),
{
    let v: Vec<u8> = vec![0u8; n];
    assert(v@ =~= zero_seq(n as int));
    v
}

/// Appends `n` zero bytes.
pub fn push_zeros(v: &mut Vec<u8>, n: usize)
    ensures
        final(v)@ == old(v)@ + zero_seq(n as int),
{
    let mut i: usize = 0;
    while i < n
        invariant
            0 <= i <= n,
            v@ =~= old(v)@ + zero_seq(i as int),
        decreases n - i,
    {
        v.push(0);
        i += 1;
    }
}

/// Appends `src`.
pub fn push_bytes(v: &mut Vec<u8>, src: &[u8])
    ensures
        final(v)@ == old(v)@ + src@,
{
    v.extend_from_slice(src);
    assert(v@ =~= old(v)@ + src@);
}

/// The bytes `from..to` as a buffer of their own.
pub fn copy_range(b: &[u8], from: usize, to: usize) -> (r: Vec<u8>)
    requires
        from <= to <= b.len(),
    ensures
        r@ == b@.subrange(from as int, to as int),
{
    let mut v: Vec<u8> = Vec::new();
    push_bytes(&mut v, vstd::slice::slice_subrange(b, from, to));
    assert(v@ =~= b@.subrange(from as int, to as int));
    v
}

pub fn same_bytes(a: &[u8], b: &[u8]) -> (r: bool)
    ensures
        r == (a@ == b@),
{
    if a.len() != b.len() {
        return false;
    }
    let mut i: usize = 0;
    while i < a.len()
        invariant
            a@.len() == b@.len(),
            0 <= i <= a@.len(),
            forall|k: int| 0 <= k < i ==> a@[k] == b@[k],
        decreases a@.len() - i,
    {
        if a[i] != b[i] {
            return false;
        }
        i += 1;
    }
    assert(a@ =~= b@);
    true
}

} // verus!
