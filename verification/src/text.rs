//! Text as sequences of characters: white space, trimming and lines.

use vstd::prelude::*;
use vstd::string::*;

verus! {

/// Whether `c` has the Unicode property White_Space.
pub open spec fn is_white_space(c: char) -> bool {
    let u = c as u32;
    (0x09 <= u <= 0x0D) || u == 0x20 || u == 0x85 || u == 0xA0 || u == 0x1680 || (0x2000 <= u
        <= 0x200A) || u == 0x2028 || u == 0x2029 || u == 0x202F || u == 0x205F || u == 0x3000
}

/// The number of white-space characters with which `s` begins.
pub open spec fn leading_space(s: Seq<char>) -> nat
    decreases s.len(),
{
    if s.len() > 0 && is_white_space(s[0]) {
        1 + leading_space(s.skip(1))
    } else {
        0
    }
}

/// The number of white-space characters with which `s` ends.
pub open spec fn trailing_space(s: Seq<char>) -> nat
    decreases s.len(),
{
    if s.len() > 0 && is_white_space(s.last()) {
        1 + trailing_space(s.drop_last())
    } else {
        0
    }
}

/// `s` without the white space at its beginning and at its end.
pub open spec fn trim(s: Seq<char>) -> Seq<char> {
    let rest = s.skip(leading_space(s) as int);
    rest.take(rest.len() - trailing_space(rest))
}

/// The number of characters of `s` before the first `sep`; the length of `s`
/// where there is none.
pub open spec fn first_break(s: Seq<char>, sep: char) -> nat
    decreases s.len(),
{
    if s.len() == 0 || s[0] == sep {
        0
    } else {
        1 + first_break(s.skip(1), sep)
    }
}

/// The lines of `s` that hold more than white space, each trimmed. Lines end
/// at a line feed; the last line needs none.
pub open spec fn entry_lines(s: Seq<char>) -> Seq<Seq<char>>
    decreases s.len(),
{
    let n = first_break(s, '\n');
    let line = trim(s.take(n as int));
    let first = if line.len() > 0 {
        seq![line]
    } else {
        Seq::empty()
    };
    if n >= s.len() {
        first
    } else {
        first + entry_lines(s.skip(n as int + 1))
    }
}

/// The texts of `lines`, in order.
pub open spec fn texts(lines: Seq<String>) -> Seq<Seq<char>> {
    lines.map_values(|l: String| l@)
}

/// Where no separator stands before the place `n` and one stands there, or
/// the text ends there, `n` is the first break.
pub proof fn lemma_first_break_is(s: Seq<char>, sep: char, n: int)
    requires
        0 <= n <= s.len(),
        forall|i: int| 0 <= i < n ==> s[i] != sep,
        n < s.len() ==> s[n] == sep,
    ensures
        first_break(s, sep) == n,
    decreases n,
{
    if n > 0 {
        assert(s[0] != sep);
        assert forall|i: int| 0 <= i < n - 1 implies s.skip(1)[i] != sep by {
            assert(s.skip(1)[i] == s[i + 1]);
        }
        lemma_first_break_is(s.skip(1), sep, n - 1);
    }
}

/// Whether `c` has the Unicode property White_Space.
pub fn is_whitespace(c: char) -> (yes: bool)
    ensures
        yes == is_white_space(c),
{
    let u = c as u32;
    (0x09 <= u && u <= 0x0D) || u == 0x20 || u == 0x85 || u == 0xA0 || u == 0x1680 || (0x2000
        <= u && u <= 0x200A) || u == 0x2028 || u == 0x2029 || u == 0x202F || u == 0x205F || u
        == 0x3000
}

/// The characters of `s`, in order.
pub fn chars_of(s: &str) -> (out: Vec<char>)
    ensures
        out@ == s@,
{
    let mut out: Vec<char> = Vec::new();
    for c in it: s.chars()
        invariant
            out@ == s@.take(it.index() as int),
            it.seq() == s@,
    {
        out.push(c);
    }
    out
}

/// Wraps `String::push` of std: `c` is appended to `s`.
#[verifier::external_body]
pub(crate) fn push_char(s: &mut String, c: char)
    ensures
        final(s)@ == old(s)@.push(c),
{
    s.push(c);
}

/// The string of the characters of `chars` from `from` up to `to`.
pub fn string_of(chars: &Vec<char>, from: usize, to: usize) -> (out: String)
    requires
        from <= to <= chars@.len(),
    ensures
        out@ == chars@.subrange(from as int, to as int),
{
    let mut out = String::new();
    let mut i: usize = from;
    while i < to
        invariant
            from <= i <= to <= chars@.len(),
            out@ == chars@.subrange(from as int, i as int),
        decreases to - i,
    {
        push_char(&mut out, chars[i]);
        assert(chars@.subrange(from as int, i + 1) =~= chars@.subrange(from as int, i as int).push(
            chars@[i as int],
        ));
        i += 1;
    }
    out
}

/// The bounds of the characters from `from` up to `to` without the white
/// space at their beginning and at their end.
pub fn trim_range(chars: &Vec<char>, from: usize, to: usize) -> (bounds: (usize, usize))
    requires
        from <= to <= chars@.len(),
    ensures
        from <= bounds.0 <= bounds.1 <= to,
        chars@.subrange(bounds.0 as int, bounds.1 as int) == trim(
            chars@.subrange(from as int, to as int),
        ),
{
    let ghost whole = chars@.subrange(from as int, to as int);
    let mut a: usize = from;
    while a < to && is_whitespace(chars[a])
        invariant
            from <= a <= to <= chars@.len(),
            leading_space(chars@.subrange(from as int, to as int)) == (a - from) + leading_space(
                chars@.subrange(a as int, to as int),
            ),
        decreases to - a,
    {
        assert(chars@.subrange(a as int, to as int).skip(1) =~= chars@.subrange(a + 1, to as int));
        a += 1;
    }
    let ghost rest = chars@.subrange(a as int, to as int);
    assert(leading_space(rest) == 0);
    assert(whole.skip((a - from) as int) =~= rest);
    let mut b: usize = to;
    while b > a && is_whitespace(chars[b - 1])
        invariant
            a <= b <= to <= chars@.len(),
            trailing_space(chars@.subrange(a as int, to as int)) == (to - b) + trailing_space(
                chars@.subrange(a as int, b as int),
            ),
        decreases b,
    {
        assert(chars@.subrange(a as int, b as int).drop_last() =~= chars@.subrange(
            a as int,
            b - 1,
        ));
        b -= 1;
    }
    assert(trailing_space(chars@.subrange(a as int, b as int)) == 0);
    assert(rest.take(rest.len() - (to - b)) =~= chars@.subrange(a as int, b as int));
    (a, b)
}

/// The lines among the characters from `from` up to `to` that hold more than
/// white space, each trimmed.
pub fn lines_in(chars: &Vec<char>, from: usize, to: usize) -> (out: Vec<String>)
    requires
        from <= to <= chars@.len(),
    ensures
        texts(out@) == entry_lines(chars@.subrange(from as int, to as int)),
{
    let mut out: Vec<String> = Vec::new();
    let mut start: usize = from;
    let mut i: usize = from;
    assert(texts(out@) =~= Seq::<Seq<char>>::empty());
    while i < to
        invariant
            from <= start <= i <= to <= chars@.len(),
            forall|j: int| start <= j < i ==> chars@[j] != '\n',
            entry_lines(chars@.subrange(from as int, to as int)) == texts(out@) + entry_lines(
                chars@.subrange(start as int, to as int),
            ),
        decreases to - i,
    {
        if chars[i] == '\n' {
            let ghost tail = chars@.subrange(start as int, to as int);
            let ghost before = texts(out@);
            proof {
                assert forall|j: int| 0 <= j < i - start implies tail[j] != '\n' by {
                    assert(tail[j] == chars@[start + j]);
                }
                lemma_first_break_is(tail, '\n', i - start);
                assert(tail.take(i - start) =~= chars@.subrange(start as int, i as int));
                assert(tail.skip(i - start + 1) =~= chars@.subrange(i + 1, to as int));
            }
            let (a, b) = trim_range(chars, start, i);
            if a < b {
                out.push(string_of(chars, a, b));
                assert(texts(out@) =~= before + seq![chars@.subrange(a as int, b as int)]);
            }
            start = i + 1;
        }
        i += 1;
    }
    let ghost tail = chars@.subrange(start as int, to as int);
    let ghost before = texts(out@);
    proof {
        assert forall|j: int| 0 <= j < to - start implies tail[j] != '\n' by {
            assert(tail[j] == chars@[start + j]);
        }
        lemma_first_break_is(tail, '\n', to - start);
        assert(tail.take(to - start) =~= tail);
    }
    let (a, b) = trim_range(chars, start, to);
    if a < b {
        out.push(string_of(chars, a, b));
        assert(texts(out@) =~= before + seq![chars@.subrange(a as int, b as int)]);
    }
    out
}

} // verus!
