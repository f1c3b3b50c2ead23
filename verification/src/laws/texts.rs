//! Lines, words, white space and numbers.
use vstd::prelude::*;
use crate::apart::{lemma_decimal, lemma_digits_word, lemma_lines_shift, lemma_span_shift,
    lemma_word_span, lemma_words_shift};
use crate::text::decimal;
use crate::words::{digits, find, is_space, kept, lemma_find, lemma_span, lines_of, number, span,
    trimmed, words_at, words_of};

verus! {

/// The code points that Unicode calls white space.
pub open spec fn white_points() -> Seq<int> {
    seq![
        0x9,
        0xa,
        0xb,
        0xc,
        0xd,
        0x20,
        0x85,
        0xa0,
        0x1680,
        0x2000,
        0x2001,
        0x2002,
        0x2003,
        0x2004,
        0x2005,
        0x2006,
        0x2007,
        0x2008,
        0x2009,
        0x200a,
        0x2028,
        0x2029,
        0x202f,
        0x205f,
        0x3000,
    ]
}

/// A character is white space exactly when Unicode calls it so.
pub proof fn white_space_is_unicode(c: char)
    ensures
        is_space(c) == white_points().contains(c as int),
{
    let w = white_points();
    assert(w[0] == 9 && w[1] == 0xa && w[2] == 0xb && w[3] == 0xc && w[4] == 0xd && w[5] == 0x20);
    assert(w[6] == 0x85 && w[7] == 0xa0 && w[8] == 0x1680 && w[9] == 0x2000 && w[10] == 0x2001);
    assert(w[11] == 0x2002 && w[12] == 0x2003 && w[13] == 0x2004 && w[14] == 0x2005);
    assert(w[15] == 0x2006 && w[16] == 0x2007 && w[17] == 0x2008 && w[18] == 0x2009);
    assert(w[19] == 0x200a && w[20] == 0x2028 && w[21] == 0x2029 && w[22] == 0x202f);
    assert(w[23] == 0x205f && w[24] == 0x3000);
}

/// A text of white space.
pub open spec fn is_white(s: Seq<char>) -> bool {
    forall|i: int| 0 <= i < s.len() ==> white_points().contains(#[trigger] s[i] as int)
}

/// A text that neither starts nor ends with white space.
pub open spec fn is_tight(s: Seq<char>) -> bool {
    &&& s.len() > 0
    &&& !white_points().contains(s[0] as int)
    &&& !white_points().contains(s.last() as int)
}

/// A text without white space.
pub open spec fn is_solid(s: Seq<char>) -> bool {
    s.len() > 0 && forall|i: int|
        0 <= i < s.len() ==> !white_points().contains(#[trigger] s[i] as int)
}

proof fn lemma_white_span(a: Seq<char>, s: Seq<char>, i: int)
    requires
        is_white(a),
        0 <= i <= a.len(),
    ensures
        span(a + s, true, i) == span(a + s, true, a.len() as int),
    decreases a.len() - i,
{
    if i < a.len() {
        assert((a + s)[i] == a[i]);
        white_space_is_unicode(a[i]);
        lemma_white_span(a, s, i + 1);
    }
}

proof fn lemma_white_kept(s: Seq<char>, b: Seq<char>, i: int)
    requires
        is_white(b),
        0 <= i <= b.len(),
    ensures
        kept(s + b, s.len() + i) == kept(s + b, s.len() as int),
    decreases i,
{
    if i > 0 {
        assert((s + b)[s.len() + i - 1] == b[i - 1]);
        white_space_is_unicode(b[i - 1]);
        lemma_white_kept(s, b, i - 1);
    }
}

/// Trimming takes off the white space around a text, and nothing else.
pub proof fn trimming_takes_white_space_off(a: Seq<char>, s: Seq<char>, b: Seq<char>)
    requires
        is_white(a),
        is_white(b),
        s.len() == 0 || is_tight(s),
    ensures
        trimmed(a + s + b) == s,
{
    let t = a + s + b;
    if s.len() == 0 {
        assert(t =~= (a + b) + Seq::<char>::empty());
        assert forall|i: int| 0 <= i < (a + b).len() implies white_points().contains(
            #[trigger] (a + b)[i] as int,
        ) by {
            if i < a.len() {
                assert((a + b)[i] == a[i]);
            } else {
                assert((a + b)[i] == b[i - a.len()]);
            }
        }
        lemma_white_span(a + b, Seq::empty(), 0);
        assert(span(t, true, t.len() as int) == t.len());
        assert(Seq::<char>::empty() + (a + b) =~= t);
        lemma_white_kept(Seq::empty(), a + b, t.len() as int);
    } else {
        assert(t =~= a + (s + b));
        lemma_white_span(a, s + b, 0);
        assert(t[a.len() as int] == s[0]);
        white_space_is_unicode(s[0]);
        lemma_white_kept(a + s, b, b.len() as int);
        assert(t[(a + s).len() - 1] == s.last());
        white_space_is_unicode(s.last());
        assert(t.subrange(a.len() as int, (a + s).len() as int) =~= s);
    }
}

/// The words of a text: each one ends at white space, and how much of it
/// there is does not matter.
pub proof fn words_come_apart(a: Seq<char>, w: Seq<char>, b: Seq<char>, rest: Seq<char>)
    requires
        is_white(a),
        is_solid(w),
        is_white(b),
        b.len() > 0 || rest.len() == 0,
    ensures
        words_of(a + w + b + rest) == seq![w] + words_of(rest),
        words_of(a) == Seq::<Seq<char>>::empty(),
{
    assert forall|i: int| 0 <= i < w.len() implies !is_space(#[trigger] w[i]) by {
        white_space_is_unicode(w[i]);
    }
    let tail = b + rest;
    let t = a + (w + tail);
    assert(a + w + b + rest =~= t);
    lemma_white_span(a, w + tail, 0);
    assert(t[a.len() as int] == w[0]);
    assert(span(t, true, 0) == a.len());
    if b.len() > 0 {
        assert(tail[0] == b[0]);
        white_space_is_unicode(b[0]);
    } else {
        assert(tail =~= Seq::<char>::empty());
    }
    lemma_word_span(w, tail, 0);
    lemma_span_shift(a, w + tail, false, 0);
    let e = (a.len() + w.len()) as int;
    assert(span(t, false, a.len() as int) == e);
    assert(t.subrange(a.len() as int, e) =~= w);
    assert(t =~= (a + w) + tail);
    lemma_words_shift(a + w, tail, 0);
    assert(words_at(t, e) == words_at(tail, 0));
    lemma_white_span(b, rest, 0);
    lemma_words_shift(b, rest, 0);
    let m = b.len() as int;
    assert(span(tail, true, 0) == span(tail, true, m));
    lemma_span(tail, true, m);
    let s = span(tail, true, m);
    lemma_span(tail, false, s);
    assert(words_at(tail, 0) == words_at(tail, m));
    assert(words_of(rest) == words_at(tail, m));
    let none = Seq::<char>::empty();
    assert(a + none =~= a);
    lemma_white_span(a, none, 0);
    assert(words_of(a) =~= Seq::<Seq<char>>::empty());
}

/// The lines of a text: each one ends at a line feed, with or without a
/// carriage return before it, or at the end of the text.
pub proof fn lines_come_apart(line: Seq<char>, rest: Seq<char>)
    requires
        !line.contains('\n'),
        line.len() == 0 || line.last() != '\r',
    ensures
        lines_of(line.push('\n') + rest) == seq![line] + lines_of(rest),
        lines_of(line.push('\r').push('\n') + rest) == seq![line] + lines_of(rest),
        line.len() > 0 ==> lines_of(line) == seq![line],
        lines_of(Seq::empty()) == Seq::<Seq<char>>::empty(),
{
    lemma_one(line, line, rest);
    lemma_one(line, line.push('\r'), rest);
    assert(line.push('\r').drop_last() =~= line);
    if line.len() > 0 {
        lemma_find(line, '\n', 0);
        let e = find(line, '\n', 0);
        assert(e == line.len()) by {
            if e < line.len() {
                assert(line.contains(line[e]));
            }
        }
        assert(line.skip(0) =~= line);
    }
    assert(lines_of(Seq::empty()) =~= Seq::<Seq<char>>::empty());
}

proof fn lemma_one(line: Seq<char>, raw: Seq<char>, rest: Seq<char>)
    requires
        !line.contains('\n'),
        raw == line && (line.len() == 0 || line.last() != '\r') || raw == line.push('\r'),
    ensures
        lines_of(raw.push('\n') + rest) == seq![line] + lines_of(rest),
{
    let t = raw.push('\n') + rest;
    lemma_find(t, '\n', 0);
    let e = find(t, '\n', 0);
    assert(t[raw.len() as int] == '\n');
    assert(e == raw.len()) by {
        if e < raw.len() {
            assert(t[e] == raw[e]);
            if e < line.len() {
                assert(line.contains(line[e]));
            }
        }
    }
    assert(t.subrange(0, e) =~= raw);
    if raw != line {
        assert(raw.drop_last() =~= line);
    }
    lemma_lines_shift(raw.push('\n'), rest, 0);
}

/// A decimal number is read digit by digit.
pub proof fn digits_make_a_number(s: Seq<char>, c: char)
    requires
        s.len() > 0,
        '0' <= c <= '9',
        s[0] != '+',
    ensures
        number(seq![c], 10) == Some((c as int - 0x30) as nat),
        match number(s, 10) {
            Some(v) => number(s.push(c), 10) == Some((10 * v + (c as int - 0x30)) as nat),
            None => number(s.push(c), 10) is None,
        },
        number(Seq::empty(), 10) is None,
{
    let one = seq![c];
    assert(digits(one, 10, 0) == Some(0nat));
    assert(one[0] == c);
    let t = s.push(c);
    crate::apart::lemma_digits_prefix(s, t, 10, s.len() as int);
    assert(t[s.len() as int] == c);
    assert(t[0] == s[0]);
}

/// A number in decimal reads back, and has no zeros before it.
pub proof fn decimal_reads_back(n: nat)
    ensures
        number(decimal(n), 10) == Some(n),
        is_solid(decimal(n)),
        forall|i: int| 0 <= i < decimal(n).len() ==> '0' <= #[trigger] decimal(n)[i] <= '9',
        n > 0 ==> decimal(n)[0] != '0',
    decreases n,
{
    lemma_decimal(n);
    lemma_digits_word(decimal(n), 10);
    assert forall|i: int| 0 <= i < decimal(n).len() implies '0' <= #[trigger] decimal(n)[i] <= '9'
        by {
        let d = choose|d: int|
            0 <= d < 10 && decimal(n)[i] == #[trigger] crate::text::digit(d);
        assert(decimal(n)[i] == crate::text::digit(d));
    }
    assert forall|i: int| 0 <= i < decimal(n).len() implies !white_points().contains(
        #[trigger] decimal(n)[i] as int,
    ) by {
        white_space_is_unicode(decimal(n)[i]);
    }
    if n >= 10 {
        decimal_reads_back(n / 10);
    }
}

} // verus!
