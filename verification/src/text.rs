//! Text: characters, numbers and bytes.
use vstd::prelude::*;
use vstd::string::StringExecFns;
use vstd::utf8::{decode_utf8, encode_utf8_decode_utf8, valid_utf8};
use crate::bytes::same_bytes;

verus! {

/// What `String::from_utf8_lossy` makes of bytes that are not UTF-8.
pub uninterp spec fn utf8_lossy(bytes: Seq<u8>) -> Seq<char>;

/// The text in `bytes`, where it is UTF-8 and where it is not.
pub open spec fn text_of(bytes: Seq<u8>) -> Seq<char> {
    if valid_utf8(bytes) {
        decode_utf8(bytes)
    } else {
        utf8_lossy(bytes)
    }
}

/// `String::from_utf8_lossy`: UTF-8 is kept as it is; other bytes give a text
/// that depends on nothing but them.
#[verifier::external_body]
pub(crate) fn lossy(bytes: &[u8]) -> (r: String)
    ensures
        r@ == (if valid_utf8(bytes@) {
            decode_utf8(bytes@)
        } else {
            utf8_lossy(bytes@)
        }),
{
    String::from_utf8_lossy(bytes).into_owned()
}

/// `String::push` appends one character.
pub assume_specification[ String::push ](s: &mut String, c: char)
    ensures
        final(s)@ == old(s)@.push(c),
;

/// The bytes before the first NUL.
pub open spec fn until_nul(b: Seq<u8>, i: int) -> Seq<u8>
    decreases b.len() - i,
{
    if i >= b.len() || b[i] == 0 {
        b.take(i)
    } else {
        until_nul(b, i + 1)
    }
}

/// The number of bytes before the first NUL.
pub fn nul_position(b: &[u8]) -> (r: usize)
    ensures
        r <= b.len(),
        until_nul(b@, 0) == b@.take(r as int),
        forall|k: int| 0 <= k < r ==> b@[k] != 0,
        r < b.len() ==> b@[r as int] == 0,
{
    let mut i: usize = 0;
    while i < b.len() && b[i] != 0
        invariant
            i <= b.len(),
            until_nul(b@, 0) == until_nul(b@, i as int),
            forall|k: int| 0 <= k < i ==> b@[k] != 0,
        decreases b.len() - i,
    {
        i += 1;
    }
    i
}

/// The text before the first NUL.
pub fn cstr(b: &[u8]) -> (r: String)
    ensures
        r@ == text_of(until_nul(b@, 0)),
{
    let n: usize = nul_position(b);
    assert(b@.subrange(0, n as int) =~= b@.take(n as int));
    lossy(vstd::slice::slice_subrange(b, 0, n))
}

/// Whether two texts are the same.
pub fn same_text(a: &str, b: &str) -> (r: bool)
    ensures
        r == (a@ == b@),
{
    proof {
        encode_utf8_decode_utf8(a@);
        encode_utf8_decode_utf8(b@);
    }
    same_bytes(a.as_bytes(), b.as_bytes())
}

/// The characters of a text.
pub fn chars_of(s: &str) -> (r: Vec<char>)
    ensures
        r@ == s@,
{
    let mut v: Vec<char> = Vec::new();
    for c in it: s.chars()
        invariant
            v@ == s@.take(it.index() as int),
            it.seq() == s@,
    {
        v.push(c);
    }
    v
}

/// The text of some characters.
pub fn string_of(chars: &[char]) -> (r: String)
    ensures
        r@ == chars@,
{
    let mut s: String = String::new();
    let mut i: usize = 0;
    while i < chars.len()
        invariant
            i <= chars.len(),
            s@ =~= chars@.take(i as int),
        decreases chars.len() - i,
    {
        s.push(chars[i]);
        i += 1;
    }
    assert(chars@.take(chars@.len() as int) =~= chars@);
    s
}

/// The character of a digit below 16.
pub open spec fn digit(d: int) -> char {
    if d < 10 {
        ('0' as int + d) as char
    } else {
        ('a' as int + (d - 10)) as char
    }
}

/// A number in decimal.
pub open spec fn decimal(n: nat) -> Seq<char>
    decreases n,
{
    if n < 10 {
        seq![digit(n as int)]
    } else {
        decimal(n / 10).push(digit((n % 10) as int))
    }
}

fn digit_char(d: u8) -> (r: char)
    requires
        d < 16,
    ensures
        r == digit(d as int),
{
    if d < 10 {
        (0x30 + d) as char
    } else {
        (0x61 + (d - 10)) as char
    }
}

/// Appends a number in decimal.
pub fn push_decimal(s: &mut String, n: u64)
    ensures
        final(s)@ == old(s)@ + decimal(n as nat),
    decreases n,
{
    if n >= 10 {
        push_decimal(s, n / 10);
    }
    s.push(digit_char((n % 10) as u8));
    assert(s@ =~= old(s)@ + decimal(n as nat));
}

/// A number in decimal.
pub fn decimal_of(n: u64) -> (r: String)
    ensures
        r@ == decimal(n as nat),
{
    let mut s: String = String::new();
    push_decimal(&mut s, n);
    assert(s@ =~= decimal(n as nat));
    s
}

/// A number in hexadecimal.
pub open spec fn hex(n: nat) -> Seq<char>
    decreases n,
{
    if n < 16 {
        seq![digit(n as int)]
    } else {
        hex(n / 16).push(digit((n % 16) as int))
    }
}

/// Appends a number in hexadecimal.
pub fn push_hex(s: &mut String, n: u64)
    ensures
        final(s)@ == old(s)@ + hex(n as nat),
    decreases n,
{
    if n >= 16 {
        push_hex(s, n / 16);
    }
    s.push(digit_char((n % 16) as u8));
    assert(s@ =~= old(s)@ + hex(n as nat));
}

/// A byte as two hexadecimal digits.
pub open spec fn hex_byte(b: u8) -> Seq<char> {
    seq![digit(b as int / 16), digit(b as int % 16)]
}

/// The first `n` bytes of a UUID, in groups of 4, 2, 2, 2 and 6.
pub open spec fn uuid_text(b: Seq<u8>, n: int) -> Seq<char>
    decreases n,
{
    if n <= 0 {
        Seq::empty()
    } else {
        let head = uuid_text(b, n - 1);
        if n == 5 || n == 7 || n == 9 || n == 11 {
            head.push('-') + hex_byte(b[n - 1])
        } else {
            head + hex_byte(b[n - 1])
        }
    }
}

/// A UUID in its usual form.
pub fn uuid(b: &[u8]) -> (r: String)
    requires
        b.len() == 16,
    ensures
        r@ == uuid_text(b@, 16),
{
    let mut s: String = String::new();
    let mut i: usize = 0;
    while i < 16
        invariant
            i <= 16,
            b.len() == 16,
            s@ == uuid_text(b@, i as int),
        decreases 16 - i,
    {
        if i == 4 || i == 6 || i == 8 || i == 10 {
            s.push('-');
        }
        let ghost before = s@;
        s.push(digit_char(b[i] / 16));
        s.push(digit_char(b[i] % 16));
        assert(s@ =~= before + hex_byte(b@[i as int]));
        i += 1;
    }
    s
}

/// `list` with one more word, separated by a space.
pub open spec fn with_word(list: Seq<char>, word: Seq<char>) -> Seq<char> {
    if list.len() == 0 {
        word
    } else if word.len() == 0 {
        list
    } else {
        list.push(' ') + word
    }
}

/// Appends a word to a list of words.
pub fn push_word(list: &mut String, word: &str)
    ensures
        final(list)@ == with_word(old(list)@, word@),
{
    if word.is_empty() {
        assert(list@ =~= with_word(old(list)@, word@));
        return;
    }
    if !list.as_str().is_empty() {
        list.push(' ');
    }
    list.append(word);
    assert(list@ =~= with_word(old(list)@, word@));
}

/// A number in octal.
pub open spec fn octal(n: nat) -> Seq<char>
    decreases n,
{
    if n < 8 {
        seq![digit(n as int)]
    } else {
        octal(n / 8).push(digit((n % 8) as int))
    }
}

/// A number in octal, with zeros before it up to 4 digits.
pub open spec fn octal4(n: nat) -> Seq<char> {
    let s = octal(n);
    if s.len() >= 4 {
        s
    } else {
        Seq::new((4 - s.len()) as nat, |i: int| '0') + s
    }
}

fn push_octal(s: &mut String, n: u32)
    ensures
        final(s)@ == old(s)@ + octal(n as nat),
    decreases n,
{
    if n >= 8 {
        push_octal(s, n / 8);
    }
    s.push(digit_char((n % 8) as u8));
    assert(s@ =~= old(s)@ + octal(n as nat));
}

/// Appends a number in octal, with zeros before it up to 4 digits.
pub fn push_octal4(s: &mut String, n: u32)
    ensures
        final(s)@ == old(s)@ + octal4(n as nat),
{
    let zeros: usize = if n < 8 {
        3
    } else if n < 64 {
        2
    } else if n < 512 {
        1
    } else {
        0
    };
    proof {
        reveal_with_fuel(octal, 4);
        assert(octal(n as nat).len() + zeros >= 4);
        assert(zeros > 0 ==> octal(n as nat).len() + zeros == 4);
    }
    let mut i: usize = 0;
    while i < zeros
        invariant
            i <= zeros,
            s@ =~= old(s)@ + Seq::new(i as nat, |k: int| '0'),
        decreases zeros - i,
    {
        s.push('0');
        i += 1;
    }
    push_octal(s, n);
    assert(s@ =~= old(s)@ + octal4(n as nat));
}

/// A number with zeros before it up to `width` digits.
pub open spec fn padded(n: nat, width: nat) -> Seq<char>
    decreases width,
{
    if width == 0 {
        Seq::empty()
    } else {
        padded(n / 10, (width - 1) as nat).push(digit((n % 10) as int))
    }
}

/// Appends the last `width` digits of a number.
pub fn push_padded(s: &mut String, n: u64, width: u32)
    ensures
        final(s)@ == old(s)@ + padded(n as nat, width as nat),
    decreases width,
{
    if width > 0 {
        push_padded(s, n / 10, width - 1);
        s.push(digit_char((n % 10) as u8));
    }
    assert(s@ =~= old(s)@ + padded(n as nat, width as nat));
}

/// A text with another one behind it.
pub fn followed_by(s: &str, end: &str) -> (r: String)
    ensures
        r@ == s@ + end@,
{
    let mut t: String = s.to_string();
    t.append(end);
    t
}

/// What formatting a text with `{:?}` gives.
pub uninterp spec fn debug_text(s: Seq<char>) -> Seq<char>;

/// `std::fmt::Debug` of a `str`: the text in quotes, with characters escaped
/// as std decides.
#[verifier::external_body]
pub(crate) fn quoted(s: &str) -> (r: String)
    ensures
        r@ == debug_text(s@),
{
    format!("{:?}", s)
}

} // verus!
