//! Texts taken apart: lines, words, parts and numbers.
use vstd::prelude::*;
use vstd::string::StringExecFns;
use crate::text::chars_of;

verus! {

/// White space as Unicode defines it.
pub open spec fn is_space(c: char) -> bool {
    ||| '\u{9}' <= c <= '\u{d}'
    ||| c == ' '
    ||| c == '\u{85}'
    ||| c == '\u{a0}'
    ||| c == '\u{1680}'
    ||| '\u{2000}' <= c <= '\u{200a}'
    ||| c == '\u{2028}'
    ||| c == '\u{2029}'
    ||| c == '\u{202f}'
    ||| c == '\u{205f}'
    ||| c == '\u{3000}'
}

pub fn space(c: char) -> (r: bool)
    ensures
        r == is_space(c),
{
    ('\u{9}' <= c && c <= '\u{d}') || c == ' ' || c == '\u{85}' || c == '\u{a0}' || c == '\u{1680}' || (
    '\u{2000}' <= c && c <= '\u{200a}') || c == '\u{2028}' || c == '\u{2029}' || c == '\u{202f}' || c
        == '\u{205f}' || c == '\u{3000}'
}

/// The first place from `i` on where `c` stands, or the end.
pub open spec fn find(s: Seq<char>, c: char, i: int) -> int
    decreases s.len() - i,
{
    if i >= s.len() || s[i] == c {
        i
    } else {
        find(s, c, i + 1)
    }
}

pub proof fn lemma_find(s: Seq<char>, c: char, i: int)
    requires
        0 <= i <= s.len(),
    ensures
        i <= find(s, c, i) <= s.len(),
        find(s, c, i) < s.len() ==> s[find(s, c, i)] == c,
        forall|k: int| i <= k < find(s, c, i) ==> s[k] != c,
    decreases s.len() - i,
{
    if i < s.len() && s[i] != c {
        lemma_find(s, c, i + 1);
    }
}

pub fn position(s: &[char], c: char, from: usize) -> (r: usize)
    requires
        from <= s.len(),
    ensures
        r == find(s@, c, from as int),
        from <= r <= s.len(),
        r < s.len() ==> s@[r as int] == c,
{
    let n: usize = s.len();
    let mut i: usize = from;
    while i < n && s[i] != c
        invariant
            n == s@.len(),
            from <= i <= n,
            find(s@, c, i as int) == find(s@, c, from as int),
        decreases n - i,
    {
        i += 1;
    }
    i
}

pub fn part(s: &[char], from: usize, to: usize) -> (r: Vec<char>)
    requires
        from <= to <= s.len(),
    ensures
        r@ == s@.subrange(from as int, to as int),
{
    let mut v: Vec<char> = Vec::new();
    let mut i: usize = from;
    while i < to
        invariant
            from <= i <= to <= s.len(),
            v@ =~= s@.subrange(from as int, i as int),
        decreases to - i,
    {
        v.push(s[i]);
        i += 1;
    }
    v
}

/// Whether two sequences of characters are the same.
pub fn same_chars(a: &[char], b: &[char]) -> (r: bool)
    ensures
        r == (a@ == b@),
{
    if a.len() != b.len() {
        return false;
    }
    let n: usize = a.len();
    let mut i: usize = 0;
    while i < n
        invariant
            n == a@.len(),
            n == b@.len(),
            i <= n,
            forall|k: int| 0 <= k < i ==> a@[k] == b@[k],
        decreases n - i,
    {
        if a[i] != b[i] {
            return false;
        }
        i += 1;
    }
    assert(a@ =~= b@);
    true
}

/// A line without the carriage return at its end.
pub open spec fn without_cr(s: Seq<char>) -> Seq<char> {
    if s.len() > 0 && s.last() == '\r' {
        s.drop_last()
    } else {
        s
    }
}

/// The lines of `s` from `at` on. A line ends at a line feed, with or without
/// a carriage return before it, or at the end of the text.
pub open spec fn lines_at(s: Seq<char>, at: int) -> Seq<Seq<char>>
    decreases s.len() - at,
{
    if at < 0 || at >= s.len() {
        Seq::empty()
    } else {
        let e = find(s, '\n', at);
        if e >= s.len() {
            seq![s.skip(at)]
        } else if e >= at {
            seq![without_cr(s.subrange(at, e))] + lines_at(s, e + 1)
        } else {
            Seq::empty()
        }
    }
}

/// The lines of a text.
pub open spec fn lines_of(s: Seq<char>) -> Seq<Seq<char>> {
    lines_at(s, 0)
}

pub open spec fn texts_view(v: Seq<Vec<char>>) -> Seq<Seq<char>> {
    Seq::new(v.len(), |i: int| v[i]@)
}

pub proof fn lemma_texts_push(v: Seq<Vec<char>>, x: Vec<char>)
    ensures
        texts_view(v.push(x)) == texts_view(v).push(x@),
{
    assert(texts_view(v.push(x)) =~= texts_view(v).push(x@));
}

/// The lines of a text.
pub fn lines(s: &[char]) -> (r: Vec<Vec<char>>)
    ensures
        texts_view(r@) == lines_of(s@),
{
    let n: usize = s.len();
    let mut out: Vec<Vec<char>> = Vec::new();
    let mut at: usize = 0;
    assert(texts_view(out@) + lines_at(s@, 0) =~= lines_of(s@));
    while at < n
        invariant
            n == s@.len(),
            at <= n,
            texts_view(out@) + lines_at(s@, at as int) == lines_of(s@),
        decreases n - at,
    {
        let e: usize = position(s, '\n', at);
        let ghost was = texts_view(out@);
        if e >= n {
            let l: Vec<char> = part(s, at, n);
            assert(l@ =~= s@.skip(at as int));
            proof {
                lemma_texts_push(out@, l);
            }
            out.push(l);
            assert(was + seq![l@] =~= texts_view(out@));
            return out;
        }
        let cut: usize = if e > at && s[e - 1] == '\r' {
            e - 1
        } else {
            e
        };
        let l: Vec<char> = part(s, at, cut);
        assert(l@ =~= without_cr(s@.subrange(at as int, e as int)));
        proof {
            lemma_texts_push(out@, l);
        }
        out.push(l);
        proof {
            assert(was + (seq![l@] + lines_at(s@, e + 1)) =~= texts_view(out@) + lines_at(s@, e + 1));
        }
        at = e + 1;
    }
    assert(texts_view(out@) + Seq::<Seq<char>>::empty() =~= texts_view(out@));
    out
}

/// The first place from `i` on that is white space (or is not), or the end.
pub open spec fn span(s: Seq<char>, white: bool, i: int) -> int
    decreases s.len() - i,
{
    if i >= s.len() || is_space(s[i]) != white {
        i
    } else {
        span(s, white, i + 1)
    }
}

pub proof fn lemma_span(s: Seq<char>, white: bool, i: int)
    requires
        0 <= i <= s.len(),
    ensures
        i <= span(s, white, i) <= s.len(),
        span(s, white, i) < s.len() ==> is_space(s[span(s, white, i)]) != white,
        i < s.len() && is_space(s[i]) == white ==> i < span(s, white, i),
        forall|k: int| i <= k < span(s, white, i) ==> is_space(#[trigger] s[k]) == white,
    decreases s.len() - i,
{
    if i < s.len() && is_space(s[i]) == white {
        lemma_span(s, white, i + 1);
    }
}

fn span_end(s: &[char], white: bool, from: usize) -> (r: usize)
    requires
        from <= s.len(),
    ensures
        r == span(s@, white, from as int),
        from <= r <= s.len(),
{
    let n: usize = s.len();
    let mut i: usize = from;
    while i < n && space(s[i]) == white
        invariant
            n == s@.len(),
            from <= i <= n,
            span(s@, white, i as int) == span(s@, white, from as int),
        decreases n - i,
    {
        i += 1;
    }
    i
}

/// The words of `s` from `at` on, separated by white space.
pub open spec fn words_at(s: Seq<char>, at: int) -> Seq<Seq<char>>
    decreases s.len() - at,
{
    let b = span(s, true, at);
    let e = span(s, false, b);
    if at < 0 || b >= s.len() || e <= at || e > s.len() {
        Seq::empty()
    } else {
        seq![s.subrange(b, e)] + words_at(s, e)
    }
}

/// The words of a text.
pub open spec fn words_of(s: Seq<char>) -> Seq<Seq<char>> {
    words_at(s, 0)
}

/// The words of a text.
pub fn words(s: &[char]) -> (r: Vec<Vec<char>>)
    ensures
        texts_view(r@) == words_of(s@),
{
    let n: usize = s.len();
    let mut out: Vec<Vec<char>> = Vec::new();
    let mut at: usize = 0;
    assert(texts_view(out@) + words_at(s@, 0) =~= words_of(s@));
    loop
        invariant
            n == s@.len(),
            at <= n,
            texts_view(out@) + words_at(s@, at as int) == words_of(s@),
        decreases n - at,
    {
        let b: usize = span_end(s, true, at);
        proof {
            lemma_span(s@, true, at as int);
            lemma_span(s@, false, b as int);
        }
        if b >= n {
            assert(texts_view(out@) + Seq::<Seq<char>>::empty() =~= texts_view(out@));
            return out;
        }
        let e: usize = span_end(s, false, b);
        let w: Vec<char> = part(s, b, e);
        let ghost was = texts_view(out@);
        proof {
            lemma_texts_push(out@, w);
        }
        out.push(w);
        assert(was + (seq![w@] + words_at(s@, e as int)) =~= texts_view(out@) + words_at(
            s@,
            e as int,
        ));
        at = e;
    }
}

/// What stands before and behind the first `c`.
pub open spec fn split_at(s: Seq<char>, c: char) -> Option<(Seq<char>, Seq<char>)> {
    let i = find(s, c, 0);
    if i >= s.len() {
        None
    } else {
        Some((s.take(i), s.skip(i + 1)))
    }
}

pub open spec fn pair_view(p: Option<(Vec<char>, Vec<char>)>) -> Option<(Seq<char>, Seq<char>)> {
    match p {
        Some((a, b)) => Some((a@, b@)),
        None => None,
    }
}

/// What stands before and behind the first `c`.
pub fn split_once(s: &[char], c: char) -> (r: Option<(Vec<char>, Vec<char>)>)
    ensures
        pair_view(r) == split_at(s@, c),
{
    let i: usize = position(s, c, 0);
    if i >= s.len() {
        return None;
    }
    let a: Vec<char> = part(s, 0, i);
    let b: Vec<char> = part(s, i + 1, s.len());
    assert(a@ =~= s@.take(i as int));
    assert(b@ =~= s@.skip(i + 1));
    Some((a, b))
}

/// What stands before and behind the first white space.
pub open spec fn split_space(s: Seq<char>) -> Option<(Seq<char>, Seq<char>)> {
    let i = span(s, false, 0);
    if i >= s.len() {
        None
    } else {
        Some((s.take(i), s.skip(i + 1)))
    }
}

/// What stands before and behind the first white space.
pub fn split_once_space(s: &[char]) -> (r: Option<(Vec<char>, Vec<char>)>)
    ensures
        pair_view(r) == split_space(s@),
{
    let i: usize = span_end(s, false, 0);
    if i >= s.len() {
        return None;
    }
    let a: Vec<char> = part(s, 0, i);
    let b: Vec<char> = part(s, i + 1, s.len());
    assert(a@ =~= s@.take(i as int));
    assert(b@ =~= s@.skip(i + 1));
    Some((a, b))
}

/// How many of the first `n` characters are left when white space is taken
/// off their end.
pub open spec fn kept(s: Seq<char>, n: int) -> int
    decreases n,
{
    if n <= 0 || !is_space(s[n - 1]) {
        n
    } else {
        kept(s, n - 1)
    }
}

/// A text without the white space around it.
pub open spec fn trimmed(s: Seq<char>) -> Seq<char> {
    let b = span(s, true, 0);
    let e = kept(s, s.len() as int);
    if b < e {
        s.subrange(b, e)
    } else {
        Seq::empty()
    }
}

/// A text without the white space around it.
pub fn trim(s: &[char]) -> (r: Vec<char>)
    ensures
        r@ == trimmed(s@),
{
    let b: usize = span_end(s, true, 0);
    let mut e: usize = s.len();
    while e > 0 && space(s[e - 1])
        invariant
            e <= s@.len(),
            kept(s@, e as int) == kept(s@, s@.len() as int),
        decreases e,
    {
        e -= 1;
    }
    if b < e {
        part(s, b, e)
    } else {
        let none: Vec<char> = Vec::new();
        assert(none@ =~= Seq::<char>::empty());
        none
    }
}

/// `p` is the front of `s`.
pub open spec fn has_prefix(s: Seq<char>, p: Seq<char>) -> bool {
    p.len() <= s.len() && s.take(p.len() as int) == p
}

/// `p` is the end of `s`.
pub open spec fn has_suffix(s: Seq<char>, p: Seq<char>) -> bool {
    p.len() <= s.len() && s.skip(s.len() - p.len()) == p
}

pub fn starts(s: &[char], p: &[char]) -> (r: bool)
    ensures
        r == has_prefix(s@, p@),
{
    if p.len() > s.len() {
        return false;
    }
    let front: &[char] = vstd::slice::slice_subrange(s, 0, p.len());
    assert(front@ =~= s@.take(p@.len() as int));
    same_chars(front, p)
}

pub fn ends(s: &[char], p: &[char]) -> (r: bool)
    ensures
        r == has_suffix(s@, p@),
{
    if p.len() > s.len() {
        return false;
    }
    let back: &[char] = vstd::slice::slice_subrange(s, s.len() - p.len(), s.len());
    assert(back@ =~= s@.skip(s@.len() - p@.len()));
    same_chars(back, p)
}

/// The last place before `n` where `c` stands, or -1.
pub open spec fn rfind(s: Seq<char>, c: char, n: int) -> int
    decreases n,
{
    if n <= 0 {
        -1
    } else if s[n - 1] == c {
        n - 1
    } else {
        rfind(s, c, n - 1)
    }
}

/// What stands before the last `c`; nothing where there is none.
pub open spec fn before_last(s: Seq<char>, c: char) -> Seq<char> {
    let i = rfind(s, c, s.len() as int);
    if i < 0 {
        Seq::empty()
    } else {
        s.take(i)
    }
}

/// What stands behind the last `c`, or the whole text.
pub open spec fn after_last(s: Seq<char>, c: char) -> Seq<char> {
    s.skip(rfind(s, c, s.len() as int) + 1)
}

/// What stands before and behind the last `c`.
pub fn split_last(s: &[char], c: char) -> (r: (Vec<char>, Vec<char>))
    ensures
        r.0@ == before_last(s@, c),
        r.1@ == after_last(s@, c),
{
    let n: usize = s.len();
    let mut i: usize = n;
    while i > 0 && s[i - 1] != c
        invariant
            i <= n,
            n == s@.len(),
            rfind(s@, c, i as int) == rfind(s@, c, n as int),
        decreases i,
    {
        i -= 1;
    }
    if i == 0 {
        let none: Vec<char> = Vec::new();
        assert(none@ =~= Seq::<char>::empty());
        let all: Vec<char> = part(s, 0, n);
        assert(all@ =~= s@.skip(0));
        (none, all)
    } else {
        let a: Vec<char> = part(s, 0, i - 1);
        let b: Vec<char> = part(s, i, n);
        assert(a@ =~= s@.take(i - 1));
        assert(b@ =~= s@.skip(i as int));
        (a, b)
    }
}

/// How many of `c` the text starts with, from `i` on.
pub open spec fn run_of(s: Seq<char>, c: char, i: int) -> int
    decreases s.len() - i,
{
    if i >= s.len() || s[i] != c {
        i
    } else {
        run_of(s, c, i + 1)
    }
}

/// A text without the `c`s at its front.
pub open spec fn without_front(s: Seq<char>, c: char) -> Seq<char> {
    s.skip(run_of(s, c, 0))
}

/// A text without the `c`s at its front.
pub fn trim_front(s: &[char], c: char) -> (r: Vec<char>)
    ensures
        r@ == without_front(s@, c),
{
    let n: usize = s.len();
    let mut i: usize = 0;
    while i < n && s[i] == c
        invariant
            i <= n,
            n == s@.len(),
            run_of(s@, c, i as int) == run_of(s@, c, 0),
        decreases n - i,
    {
        i += 1;
    }
    let v: Vec<char> = part(s, i, n);
    assert(v@ =~= s@.skip(i as int));
    v
}

/// The value of a digit, or 36.
pub open spec fn digit_value(c: char) -> int {
    if '0' <= c <= '9' {
        c as int - '0' as int
    } else if 'a' <= c <= 'z' {
        c as int - 'a' as int + 10
    } else if 'A' <= c <= 'Z' {
        c as int - 'A' as int + 10
    } else {
        36
    }
}

pub fn value_of(c: char) -> (r: u64)
    ensures
        r == digit_value(c),
        r <= 36,
{
    if '0' <= c && c <= '9' {
        c as u64 - '0' as u64
    } else if 'a' <= c && c <= 'z' {
        c as u64 - 'a' as u64 + 10
    } else if 'A' <= c && c <= 'Z' {
        c as u64 - 'A' as u64 + 10
    } else {
        36
    }
}

/// The number that the first `n` digits stand for, where they are digits.
pub open spec fn digits(s: Seq<char>, radix: int, n: int) -> Option<nat>
    decreases n,
{
    if n <= 0 {
        Some(0)
    } else {
        match digits(s, radix, n - 1) {
            None => None,
            Some(v) => if digit_value(s[n - 1]) < radix {
                Some((v * radix + digit_value(s[n - 1])) as nat)
            } else {
                None
            },
        }
    }
}

/// A number without a sign, or with a plus before it.
pub open spec fn number(s: Seq<char>, radix: int) -> Option<nat> {
    let d = if s.len() > 1 && s[0] == '+' {
        s.skip(1)
    } else {
        s
    };
    if d.len() == 0 {
        None
    } else {
        digits(d, radix, d.len() as int)
    }
}

/// A number that is at most `max`.
pub open spec fn number_upto(s: Seq<char>, radix: int, max: int) -> Option<nat> {
    match number(s, radix) {
        Some(n) => if n <= max {
            Some(n)
        } else {
            None
        },
        None => None,
    }
}

/// More digits make no smaller number.
proof fn lemma_digits_grow(s: Seq<char>, radix: int, m: int, n: int)
    requires
        2 <= radix,
        0 <= m <= n <= s.len(),
    ensures
        digits(s, radix, m) is None ==> digits(s, radix, n) is None,
        digits(s, radix, m) is Some && digits(s, radix, n) is Some ==> digits(s, radix, m)->Some_0
            <= digits(s, radix, n)->Some_0,
    decreases n - m,
{
    if m < n {
        lemma_digits_grow(s, radix, m, n - 1);
        if digits(s, radix, n - 1) is Some {
            let v = digits(s, radix, n - 1)->Some_0 as int;
            assert(v <= v * radix) by (nonlinear_arith)
                requires
                    0 <= v,
                    2 <= radix,
            ;
        }
    }
}

pub open spec fn opt_view(v: Option<u64>) -> Option<nat> {
    match v {
        Some(n) => Some(n as nat),
        None => None,
    }
}

/// A number that is at most `max`.
pub fn parse_number(s: &[char], radix: u64, max: u64) -> (r: Option<u64>)
    requires
        2 <= radix <= 36,
    ensures
        opt_view(r) == number_upto(s@, radix as int, max as int),
{
    let n: usize = s.len();
    let from: usize = if n > 1 && s[0] == '+' {
        1
    } else {
        0
    };
    if from >= n {
        return None;
    }
    let ghost d = s@.skip(from as int);
    assert(d =~= if s@.len() > 1 && s@[0] == '+' {
        s@.skip(1)
    } else {
        s@
    });
    let mut v: u128 = 0;
    let mut i: usize = from;
    while i < n
        invariant
            from < n,
            n == s@.len(),
            from <= i <= n,
            d == s@.skip(from as int),
            2 <= radix <= 36,
            v <= max,
            digits(d, radix as int, i - from) == Some(v as nat),
            number(s@, radix as int) == digits(d, radix as int, n - from),
        decreases n - i,
    {
        let x: u64 = value_of(s[i]);
        assert(d[i - from] == s@[i as int]);
        if x >= radix {
            proof {
                lemma_digits_grow(d, radix as int, i - from + 1, n - from);
            }
            return None;
        }
        let r: u128 = radix as u128;
        assert(v * r <= 0x1_0000_0000_0000_0000 * 36) by (nonlinear_arith)
            requires
                v <= 0x1_0000_0000_0000_0000,
                r <= 36,
        ;
        let w: u128 = v * r + x as u128;
        if w > max as u128 {
            proof {
                lemma_digits_grow(d, radix as int, i - from + 1, n - from);
            }
            return None;
        }
        v = w;
        i += 1;
    }
    Some(v as u64)
}

/// A number with an optional sign that fits 64 bits.
pub open spec fn signed_in(s: Seq<char>) -> Option<int> {
    if s.len() > 1 && s[0] == '-' {
        match digits(s.skip(1), 10, s.len() - 1) {
            Some(v) => if v <= 0x8000_0000_0000_0000 {
                Some(-v)
            } else {
                None
            },
            None => None,
        }
    } else {
        match number_upto(s, 10, i64::MAX as int) {
            Some(v) => Some(v as int),
            None => None,
        }
    }
}

pub open spec fn int_view(v: Option<i64>) -> Option<int> {
    match v {
        Some(n) => Some(n as int),
        None => None,
    }
}

proof fn lemma_no_sign(s: Seq<char>)
    requires
        s.len() > 0,
    ensures
        s[0] == '+' ==> digits(s, 10, s.len() as int) is None,
        s[0] != '+' ==> number(s, 10) == digits(s, 10, s.len() as int),
{
    if s[0] == '+' {
        assert(digits(s, 10, 0) is Some);
        assert(digits(s, 10, 1) is None);
        lemma_digits_grow(s, 10, 1, s.len() as int);
    }
}

/// A number with an optional sign that fits 64 bits.
pub fn parse_signed(s: &[char]) -> (r: Option<i64>)
    ensures
        int_view(r) == signed_in(s@),
{
    if s.len() > 1 && s[0] == '-' {
        let d: Vec<char> = part(s, 1, s.len());
        assert(d@ =~= s@.skip(1));
        proof {
            lemma_no_sign(d@);
        }
        if d[0] == '+' {
            return None;
        }
        match parse_number(&d, 10, 0x8000_0000_0000_0000) {
            Some(v) => if v == 0x8000_0000_0000_0000 {
                Some(i64::MIN)
            } else {
                Some(-(v as i64))
            },
            None => None,
        }
    } else {
        match parse_number(s, 10, i64::MAX as u64) {
            Some(v) => Some(v as i64),
            None => None,
        }
    }
}

/// `name` in the folder `dir`; an absolute name stays as it is.
pub open spec fn path_in(dir: Seq<char>, name: Seq<char>) -> Seq<char> {
    if name.len() > 0 && name[0] == '/' {
        name
    } else if dir.len() == 0 || dir.last() == '/' {
        dir + name
    } else {
        dir.push('/') + name
    }
}

/// `name` in the folder `dir`.
pub fn join_path(dir: &str, name: &str) -> (r: String)
    ensures
        r@ == path_in(dir@, name@),
{
    let d: Vec<char> = chars_of(dir);
    let n: Vec<char> = chars_of(name);
    if n.len() > 0 && n[0] == '/' {
        return name.to_string();
    }
    let mut s: String = dir.to_string();
    if d.len() > 0 && d[d.len() - 1] != '/' {
        s.push('/');
    }
    s.append(name);
    s
}

/// The parts of `s` from `at` on that are separated by `c`.
pub open spec fn parts_at(s: Seq<char>, c: char, at: int) -> Seq<Seq<char>>
    decreases s.len() - at,
{
    let e = find(s, c, at);
    if at < 0 || at > s.len() {
        Seq::empty()
    } else if e >= s.len() {
        seq![s.skip(at)]
    } else if e >= at {
        seq![s.subrange(at, e)] + parts_at(s, c, e + 1)
    } else {
        Seq::empty()
    }
}

/// The parts of a text that are separated by `c`.
pub fn split_parts(s: &[char], c: char) -> (r: Vec<Vec<char>>)
    ensures
        texts_view(r@) == parts_at(s@, c, 0),
{
    let n: usize = s.len();
    let ghost all = parts_at(s@, c, 0);
    let mut out: Vec<Vec<char>> = Vec::new();
    let mut at: usize = 0;
    assert(texts_view(out@) + parts_at(s@, c, 0) =~= all);
    loop
        invariant
            n == s@.len(),
            at <= n,
            all == parts_at(s@, c, 0),
            texts_view(out@) + parts_at(s@, c, at as int) == all,
        decreases n - at,
    {
        let e: usize = position(s, c, at);
        let p: Vec<char> = part(s, at, e);
        let ghost was = texts_view(out@);
        proof {
            lemma_texts_push(out@, p);
        }
        out.push(p);
        if e >= n {
            assert(p@ =~= s@.skip(at as int));
            assert(was + seq![p@] =~= texts_view(out@));
            return out;
        }
        assert(was + (seq![p@] + parts_at(s@, c, e + 1)) =~= texts_view(out@) + parts_at(
            s@,
            c,
            e + 1,
        ));
        at = e + 1;
    }
}

} // verus!
