//! Texts that were put together come apart again: lines, words and numbers.
use vstd::prelude::*;
use crate::text::{decimal, digit, hex, octal, octal4};
use crate::words::{digit_value, digits, find, is_space, lemma_find, lemma_span, lines_at, lines_of,
    number, span, split_at, without_cr, words_at, words_of};

verus! {

pub(crate) proof fn lemma_find_shift(a: Seq<char>, b: Seq<char>, c: char, k: int)
    requires
        0 <= k <= b.len(),
    ensures
        find(a + b, c, a.len() + k) == a.len() + find(b, c, k),
    decreases b.len() - k,
{
    if k < b.len() && b[k] != c {
        assert((a + b)[a.len() + k] == b[k]);
        lemma_find_shift(a, b, c, k + 1);
    } else if k < b.len() {
        assert((a + b)[a.len() + k] == b[k]);
    }
}

pub(crate) proof fn lemma_find_prefix(a: Seq<char>, b: Seq<char>, c: char, k: int)
    requires
        0 <= k <= a.len(),
    ensures
        find(a, c, k) < a.len() ==> find(a + b, c, k) == find(a, c, k),
        find(a, c, k) >= a.len() ==> find(a + b, c, k) == a.len() + find(b, c, 0),
    decreases a.len() - k,
{
    if k < a.len() {
        assert((a + b)[k] == a[k]);
        if a[k] != c {
            lemma_find_prefix(a, b, c, k + 1);
        }
    } else {
        lemma_find_shift(a, b, c, 0);
    }
}

pub(crate) proof fn lemma_lines_shift(a: Seq<char>, b: Seq<char>, k: int)
    requires
        0 <= k <= b.len(),
    ensures
        lines_at(a + b, a.len() + k) == lines_at(b, k),
    decreases b.len() - k,
{
    if k < b.len() {
        lemma_find_shift(a, b, '\n', k);
        lemma_find(b, '\n', k);
        let e = find(b, '\n', k);
        if e >= b.len() {
            assert((a + b).skip(a.len() + k) =~= b.skip(k));
        } else {
            lemma_lines_shift(a, b, e + 1);
            assert((a + b).subrange(a.len() + k, a.len() + e) =~= b.subrange(k, e));
        }
    }
}

/// Texts that end with a line end can be read one after the other.
pub(crate) proof fn lemma_lines_append(a: Seq<char>, b: Seq<char>, at: int)
    requires
        a.len() == 0 || a.last() == '\n',
        0 <= at <= a.len(),
    ensures
        lines_at(a + b, at) == lines_at(a, at) + lines_at(b, 0),
    decreases a.len() - at,
{
    if at < a.len() {
        lemma_find(a, '\n', at);
        lemma_find_prefix(a, b, '\n', at);
        let e = find(a, '\n', at);
        assert(e < a.len()) by {
            if e >= a.len() {
                assert(a[a.len() - 1] != '\n');
            }
        }
        lemma_lines_append(a, b, e + 1);
        assert((a + b).subrange(at, e) =~= a.subrange(at, e));
        let x = seq![without_cr(a.subrange(at, e))];
        assert(x + (lines_at(a, e + 1) + lines_at(b, 0)) =~= x + lines_at(a, e + 1) + lines_at(b, 0));
    } else {
        lemma_lines_shift(a, b, 0);
        assert(Seq::<Seq<char>>::empty() + lines_at(b, 0) =~= lines_at(b, 0));
    }
}

/// A text that a line can hold.
pub open spec fn one_line(s: Seq<char>) -> bool {
    !s.contains('\n') && (s.len() == 0 || s.last() != '\r')
}

/// One line with its end.
pub(crate) proof fn lemma_one_line(s: Seq<char>)
    requires
        one_line(s),
    ensures
        lines_of(s + "\n"@) == seq![s],
{
    reveal_strlit("\n");
    let t = s + "\n"@;
    lemma_find(t, '\n', 0);
    let e = find(t, '\n', 0);
    assert(t[s.len() as int] == '\n');
    assert(e == s.len()) by {
        if e < s.len() {
            assert(s.contains(s[e]));
        }
    }
    assert(t.subrange(0, e) =~= s);
    assert(lines_at(t, e + 1) =~= Seq::<Seq<char>>::empty());
    assert(seq![s] + Seq::<Seq<char>>::empty() =~= seq![s]);
}

/// A text with one more line.
pub(crate) proof fn lemma_add_line(a: Seq<char>, s: Seq<char>)
    requires
        a.len() == 0 || a.last() == '\n',
        one_line(s),
    ensures
        lines_of(a + (s + "\n"@)) == lines_of(a).push(s),
        (a + (s + "\n"@)).len() > 0,
        (a + (s + "\n"@)).last() == '\n',
{
    lemma_lines_append(a, s + "\n"@, 0);
    lemma_one_line(s);
    reveal_strlit("\n");
    assert(lines_of(a) + seq![s] =~= lines_of(a).push(s));
}

pub(crate) proof fn lemma_span_shift(a: Seq<char>, b: Seq<char>, white: bool, k: int)
    requires
        0 <= k <= b.len(),
    ensures
        span(a + b, white, a.len() + k) == a.len() + span(b, white, k),
    decreases b.len() - k,
{
    if k < b.len() {
        assert((a + b)[a.len() + k] == b[k]);
        if is_space(b[k]) == white {
            lemma_span_shift(a, b, white, k + 1);
        }
    }
}

pub(crate) proof fn lemma_words_shift(a: Seq<char>, b: Seq<char>, k: int)
    requires
        0 <= k <= b.len(),
    ensures
        words_at(a + b, a.len() + k) == words_at(b, k),
    decreases b.len() - k,
{
    lemma_span(b, true, k);
    lemma_span_shift(a, b, true, k);
    let s = span(b, true, k);
    lemma_span(b, false, s);
    lemma_span_shift(a, b, false, s);
    let e = span(b, false, s);
    if s < b.len() {
        lemma_words_shift(a, b, e);
        assert((a + b).subrange(a.len() + s, a.len() + e) =~= b.subrange(s, e));
    }
}

/// A text without white space.
pub open spec fn is_word(s: Seq<char>) -> bool {
    s.len() > 0 && forall|i: int| 0 <= i < s.len() ==> !is_space(#[trigger] s[i])
}

pub(crate) proof fn lemma_word_span(w: Seq<char>, rest: Seq<char>, k: int)
    requires
        is_word(w),
        rest.len() == 0 || is_space(rest[0]),
        0 <= k <= w.len(),
    ensures
        span(w + rest, false, k) == w.len(),
    decreases w.len() - k,
{
    if k < w.len() {
        assert((w + rest)[k] == w[k]);
        lemma_word_span(w, rest, k + 1);
    } else if rest.len() > 0 {
        assert((w + rest)[k] == rest[0]);
    }
}

/// A word, then the words of the rest.
pub(crate) proof fn lemma_word_first(w: Seq<char>, rest: Seq<char>)
    requires
        is_word(w),
        rest.len() == 0 || is_space(rest[0]),
    ensures
        words_of(w + rest) == seq![w] + words_of(rest),
{
    let s = w + rest;
    assert(s[0] == w[0]);
    assert(span(s, true, 0) == 0);
    lemma_word_span(w, rest, 0);
    lemma_words_shift(w, rest, 0);
    assert(s.subrange(0, w.len() as int) =~= w);
}

/// White space before words does not matter.
pub(crate) proof fn lemma_space_first(rest: Seq<char>)
    requires
        rest.len() > 0,
        !is_space(rest[0]),
    ensures
        words_of(" "@ + rest) == words_of(rest),
{
    reveal_strlit(" ");
    let s = " "@ + rest;
    assert(s[0] == ' ');
    assert(s[1] == rest[0]);
    lemma_words_shift(" "@, rest, 0);
    assert(span(s, true, 0) == span(s, true, 1));
    assert(span(rest, true, 0) == 0);
    lemma_span(rest, false, 0);
    lemma_span_shift(" "@, rest, false, 0);
    assert(words_at(s, 0) == words_at(s, 1));
}

/// The digits of a number are no white space, no sign and no `x`.
pub(crate) proof fn lemma_digit(d: int)
    requires
        0 <= d < 16,
    ensures
        digit_value(digit(d)) == d,
        !is_space(digit(d)),
        digit(d) != '+',
        digit(d) != 'x',
{
}

pub(crate) proof fn lemma_digits_prefix(a: Seq<char>, b: Seq<char>, radix: int, n: int)
    requires
        0 <= n <= a.len(),
        n <= b.len(),
        forall|i: int| 0 <= i < n ==> a[i] == b[i],
    ensures
        digits(a, radix, n) == digits(b, radix, n),
    decreases n,
{
    if n > 0 {
        lemma_digits_prefix(a, b, radix, n - 1);
    }
}

/// A text of digits below `radix`.
pub open spec fn all_digits(s: Seq<char>, radix: int) -> bool {
    s.len() > 0 && forall|i: int|
        0 <= i < s.len() ==> exists|d: int| 0 <= d < radix && #[trigger] s[i] == #[trigger] digit(d)
}

pub(crate) proof fn lemma_push_digit(s: Seq<char>, v: nat, d: int, radix: int)
    requires
        2 <= radix <= 16,
        0 <= d < radix,
        digits(s, radix, s.len() as int) == Some(v),
    ensures
        digits(s.push(digit(d)), radix, s.len() as int + 1) == Some((v * radix + d) as nat),
{
    let t = s.push(digit(d));
    lemma_digits_prefix(s, t, radix, s.len() as int);
    lemma_digit(d);
    assert(t[s.len() as int] == digit(d));
    assert(0 <= v * radix) by (nonlinear_arith)
        requires
            0 <= v,
            0 <= radix,
    ;
}

pub(crate) proof fn lemma_decimal(n: nat)
    ensures
        digits(decimal(n), 10, decimal(n).len() as int) == Some(n),
        all_digits(decimal(n), 10),
    decreases n,
{
    if n < 10 {
        let e = Seq::<char>::empty();
        lemma_push_digit(e, 0, n as int, 10);
        assert(e.push(digit(n as int)) =~= decimal(n));
        assert(decimal(n)[0] == digit(n as int));
    } else {
        lemma_decimal(n / 10);
        lemma_push_digit(decimal(n / 10), n / 10, (n % 10) as int, 10);
        lemma_more_digits(decimal(n / 10), (n % 10) as int, 10);
    }
}

pub(crate) proof fn lemma_hex(n: nat)
    ensures
        digits(hex(n), 16, hex(n).len() as int) == Some(n),
        all_digits(hex(n), 16),
    decreases n,
{
    if n < 16 {
        let e = Seq::<char>::empty();
        lemma_push_digit(e, 0, n as int, 16);
        assert(e.push(digit(n as int)) =~= hex(n));
        assert(hex(n)[0] == digit(n as int));
    } else {
        lemma_hex(n / 16);
        lemma_push_digit(hex(n / 16), n / 16, (n % 16) as int, 16);
        lemma_more_digits(hex(n / 16), (n % 16) as int, 16);
    }
}

pub(crate) proof fn lemma_octal(n: nat)
    ensures
        digits(octal(n), 8, octal(n).len() as int) == Some(n),
        all_digits(octal(n), 8),
    decreases n,
{
    if n < 8 {
        let e = Seq::<char>::empty();
        lemma_push_digit(e, 0, n as int, 8);
        assert(e.push(digit(n as int)) =~= octal(n));
        assert(octal(n)[0] == digit(n as int));
    } else {
        lemma_octal(n / 8);
        lemma_push_digit(octal(n / 8), n / 8, (n % 8) as int, 8);
        lemma_more_digits(octal(n / 8), (n % 8) as int, 8);
    }
}

pub(crate) proof fn lemma_more_digits(s: Seq<char>, d: int, radix: int)
    requires
        all_digits(s, radix),
        0 <= d < radix,
    ensures
        all_digits(s.push(digit(d)), radix),
{
    let t = s.push(digit(d));
    assert forall|i: int| 0 <= i < t.len() implies exists|x: int|
        0 <= x < radix && #[trigger] t[i] == #[trigger] digit(x) by {
        if i < s.len() {
            let x = choose|x: int| 0 <= x < radix && s[i] == #[trigger] digit(x);
            assert(t[i] == digit(x));
        } else {
            assert(t[i] == digit(d));
        }
    }
}

/// Zeros before a number do not change it.
pub(crate) proof fn lemma_zeros(s: Seq<char>, z: int, radix: int, n: int)
    requires
        2 <= radix <= 16,
        0 <= z,
        0 <= n <= s.len(),
    ensures
        digits(Seq::new(z as nat, |i: int| '0') + s, radix, z + n) == digits(s, radix, n),
    decreases z + n,
{
    let t = Seq::new(z as nat, |i: int| '0') + s;
    assert(digit(0) == '0');
    lemma_digit(0);
    if n > 0 {
        lemma_zeros(s, z, radix, n - 1);
        assert(t[z + n - 1] == s[n - 1]);
    } else if z > 0 {
        lemma_zeros(s, z - 1, radix, 0);
        let u = Seq::new((z - 1) as nat, |i: int| '0') + s;
        lemma_digits_prefix(t, u, radix, z - 1);
        assert(t[z - 1] == '0');
        assert(0 * radix == 0) by (nonlinear_arith);
    }
}

pub(crate) proof fn lemma_octal4(n: nat)
    ensures
        digits(octal4(n), 8, octal4(n).len() as int) == Some(n),
        all_digits(octal4(n), 8),
{
    lemma_octal(n);
    let s = octal(n);
    let t = octal4(n);
    if s.len() < 4 {
        let z = 4 - s.len();
        lemma_zeros(s, z, 8, s.len() as int);
        assert forall|i: int| 0 <= i < t.len() implies exists|x: int|
            0 <= x < 8 && #[trigger] t[i] == #[trigger] digit(x) by {
            if i < z {
                assert(t[i] == digit(0));
            } else {
                let x = choose|x: int| 0 <= x < 8 && s[i - z] == #[trigger] digit(x);
                assert(t[i] == s[i - z]);
                assert(t[i] == digit(x));
            }
        }
    }
}

/// Digits are a word and no sign.
pub(crate) proof fn lemma_digits_word(s: Seq<char>, radix: int)
    requires
        all_digits(s, radix),
        radix <= 16,
    ensures
        is_word(s),
        s[0] != '+',
        forall|i: int| 0 <= i < s.len() ==> #[trigger] s[i] != 'x',
        number(s, radix) == digits(s, radix, s.len() as int),
{
    assert forall|i: int| 0 <= i < s.len() implies !is_space(#[trigger] s[i]) && s[i] != '+' && s[i]
        != 'x' by {
        let d = choose|d: int| 0 <= d < radix && s[i] == #[trigger] digit(d);
        lemma_digit(d);
    }
    assert(s[0] != '+');
}

/// A word and the rest of a line behind a space.
pub open spec fn then(w: Seq<char>, rest: Seq<char>) -> Seq<char> {
    w + (" "@ + rest)
}

/// The words of a line, one by one.
pub(crate) proof fn lemma_then(w: Seq<char>, rest: Seq<char>)
    requires
        is_word(w),
        rest.len() > 0,
        !is_space(rest[0]),
    ensures
        words_of(then(w, rest)) == seq![w] + words_of(rest),
        then(w, rest).len() > 0,
        !is_space(then(w, rest)[0]),
{
    reveal_strlit(" ");
    lemma_word_first(w, " "@ + rest);
    lemma_space_first(rest);
    assert(then(w, rest)[0] == w[0]);
}

pub(crate) proof fn lemma_alone(w: Seq<char>)
    requires
        is_word(w),
    ensures
        words_of(w) == seq![w],
{
    let e = Seq::<char>::empty();
    lemma_word_first(w, e);
    assert(w + e =~= w);
    assert(words_of(e) =~= Seq::<Seq<char>>::empty());
    assert(seq![w] + Seq::<Seq<char>>::empty() =~= seq![w]);
}

/// Nothing but words and spaces.
pub open spec fn plain(s: Seq<char>) -> bool {
    &&& s.len() > 0
    &&& !is_space(s.last())
    &&& forall|i: int| 0 <= i < s.len() ==> !is_space(#[trigger] s[i]) || s[i] == ' '
}

pub(crate) proof fn lemma_plain_then(w: Seq<char>, rest: Seq<char>)
    requires
        is_word(w),
        plain(rest),
    ensures
        plain(then(w, rest)),
{
    reveal_strlit(" ");
    let t = then(w, rest);
    assert forall|i: int| 0 <= i < t.len() implies !is_space(#[trigger] t[i]) || t[i] == ' ' by {
        if i < w.len() {
            assert(t[i] == w[i]);
        } else if i > w.len() {
            assert(t[i] == rest[i - w.len() - 1]);
        }
    }
    assert(t.last() == rest.last());
}

pub(crate) proof fn lemma_plain_line(s: Seq<char>)
    requires
        plain(s),
    ensures
        one_line(s),
{
    assert(is_space('\n') && is_space('\r'));
    if s.contains('\n') {
        let i = choose|i: int| 0 <= i < s.len() && s[i] == '\n';
        assert(!is_space(s[i]) || s[i] == ' ');
    }
}

/// What a text comes apart into are words.
pub(crate) proof fn lemma_words_at(s: Seq<char>, at: int)
    requires
        0 <= at <= s.len(),
    ensures
        forall|k: int|
            0 <= k < words_at(s, at).len() ==> is_word(#[trigger] words_at(s, at)[k]),
    decreases s.len() - at,
{
    lemma_span(s, true, at);
    let b = span(s, true, at);
    lemma_span(s, false, b);
    let e = span(s, false, b);
    if b < s.len() {
        lemma_words_at(s, e);
        let w = s.subrange(b, e);
        assert forall|i: int| 0 <= i < w.len() implies !is_space(#[trigger] w[i]) by {
            assert(w[i] == s[b + i]);
        }
        let all = words_at(s, at);
        assert(all == seq![w] + words_at(s, e));
        assert forall|k: int| 0 <= k < all.len() implies is_word(#[trigger] all[k]) by {
            if k > 0 {
                assert(all[k] == words_at(s, e)[k - 1]);
            }
        }
    }
}

/// A line with a key that holds no equals sign.
pub(crate) proof fn lemma_pair(key: Seq<char>, value: Seq<char>)
    requires
        !key.contains('='),
    ensures
        split_at(key + "="@ + value, '=') == Some((key, value)),
{
    reveal_strlit("=");
    let s = key + "="@ + value;
    let rest = "="@ + value;
    assert(s =~= key + rest);
    lemma_find(key, '=', 0);
    assert(find(key, '=', 0) >= key.len()) by {
        if find(key, '=', 0) < key.len() {
            assert(key.contains(key[find(key, '=', 0)]));
        }
    }
    lemma_find_prefix(key, rest, '=', 0);
    assert(rest[0] == '=');
    assert(find(rest, '=', 0) == 0);
    assert(s.take(key.len() as int) =~= key);
    assert(s.skip(key.len() as int + 1) =~= value);
}

} // verus!
