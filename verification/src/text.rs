//! Character-level grammar shared by the parsers: white space, trimming,
//! line splitting, searching, and unsigned decimal numbers.

use vstd::prelude::*;
use vstd::std_specs::iter::IteratorSpec;

verus! {

/// The Unicode `White_Space` property, the set that `char::is_whitespace` tests.
pub open spec fn is_white_space(c: char) -> bool {
    ||| ('\u{9}' <= c && c <= '\u{d}')
    ||| c == ' '
    ||| c == '\u{85}'
    ||| c == '\u{a0}'
    ||| c == '\u{1680}'
    ||| ('\u{2000}' <= c && c <= '\u{200a}')
    ||| c == '\u{2028}'
    ||| c == '\u{2029}'
    ||| c == '\u{202f}'
    ||| c == '\u{205f}'
    ||| c == '\u{3000}'
}

/// Tests `is_white_space`.
pub fn white_space(c: char) -> (r: bool)
    ensures
        r == is_white_space(c),
{
    ('\u{9}' <= c && c <= '\u{d}') || c == ' ' || c == '\u{85}' || c == '\u{a0}' || c
        == '\u{1680}' || ('\u{2000}' <= c && c <= '\u{200a}') || c == '\u{2028}' || c
        == '\u{2029}' || c == '\u{202f}' || c == '\u{205f}' || c == '\u{3000}'
}

/// `s` without its leading white space.
pub open spec fn trim_start(s: Seq<char>) -> Seq<char>
    decreases s.len(),
{
    if s.len() > 0 && is_white_space(s[0]) {
        trim_start(s.drop_first())
    } else {
        s
    }
}

/// `s` without its trailing white space.
pub open spec fn trim_end(s: Seq<char>) -> Seq<char>
    decreases s.len(),
{
    if s.len() > 0 && is_white_space(s.last()) {
        trim_end(s.drop_last())
    } else {
        s
    }
}

/// `s` without leading and trailing white space, as `str::trim` gives it.
pub open spec fn trim(s: Seq<char>) -> Seq<char> {
    trim_end(trim_start(s))
}

/// Bounds of the part of `s[lo..hi]` that is left once leading white space is removed.
pub fn trim_start_range(s: &Vec<char>, lo: usize, hi: usize) -> (a: usize)
    requires
        lo <= hi <= s@.len(),
    ensures
        lo <= a <= hi,
        s@.subrange(a as int, hi as int) == trim_start(s@.subrange(lo as int, hi as int)),
{
    let mut a = lo;
    while a < hi && white_space(s[a])
        invariant
            lo <= a <= hi <= s@.len(),
            trim_start(s@.subrange(lo as int, hi as int)) == trim_start(
                s@.subrange(a as int, hi as int),
            ),
        decreases hi - a,
    {
        assert(s@.subrange(a as int, hi as int).drop_first() =~= s@.subrange(
            a + 1,
            hi as int,
        ));
        a = a + 1;
    }
    a
}

/// Bounds of the part of `s[lo..hi]` that is left once trailing white space is removed.
pub fn trim_end_range(s: &Vec<char>, lo: usize, hi: usize) -> (b: usize)
    requires
        lo <= hi <= s@.len(),
    ensures
        lo <= b <= hi,
        s@.subrange(lo as int, b as int) == trim_end(s@.subrange(lo as int, hi as int)),
{
    let mut b = hi;
    while b > lo && white_space(s[b - 1])
        invariant
            lo <= b <= hi <= s@.len(),
            trim_end(s@.subrange(lo as int, hi as int)) == trim_end(
                s@.subrange(lo as int, b as int),
            ),
        decreases b - lo,
    {
        assert(s@.subrange(lo as int, b as int).drop_last() =~= s@.subrange(
            lo as int,
            b - 1,
        ));
        b = b - 1;
    }
    b
}

/// Bounds of `trim(s[lo..hi])` within `s`.
pub fn trim_range(s: &Vec<char>, lo: usize, hi: usize) -> (r: (usize, usize))
    requires
        lo <= hi <= s@.len(),
    ensures
        lo <= r.0 <= r.1 <= hi,
        s@.subrange(r.0 as int, r.1 as int) == trim(s@.subrange(lo as int, hi as int)),
{
    let a = trim_start_range(s, lo, hi);
    let b = trim_end_range(s, a, hi);
    (a, b)
}

/// Index of the first `c` in `s` at or after `i`, or `s.len()` when there is none.
pub open spec fn find_char(s: Seq<char>, c: char, i: int) -> int
    decreases s.len() - i,
{
    if i >= s.len() {
        s.len() as int
    } else if s[i] == c {
        i
    } else {
        find_char(s, c, i + 1)
    }
}

/// `find_char` lands between its start and the end of the sequence, on `c` unless at the end,
/// and nothing before it (from the start on) is `c`.
pub proof fn lemma_find_char(s: Seq<char>, c: char, i: int)
    requires
        0 <= i <= s.len(),
    ensures
        i <= find_char(s, c, i) <= s.len(),
        find_char(s, c, i) < s.len() ==> s[find_char(s, c, i)] == c,
        forall|k: int| i <= k < find_char(s, c, i) ==> s[k] != c,
    decreases s.len() - i,
{
    if i < s.len() && s[i] != c {
        lemma_find_char(s, c, i + 1);
    }
}

/// Position of the first `c` in `s[lo..hi]`, counted in `s`; `hi` when there is none.
pub fn find_in(s: &Vec<char>, c: char, lo: usize, hi: usize) -> (r: usize)
    requires
        lo <= hi <= s@.len(),
    ensures
        lo <= r <= hi,
        r - lo == find_char(s@.subrange(lo as int, hi as int), c, 0),
{
    let ghost t = s@.subrange(lo as int, hi as int);
    let mut i = lo;
    while i < hi && s[i] != c
        invariant
            lo <= i <= hi <= s@.len(),
            t == s@.subrange(lo as int, hi as int),
            find_char(t, c, 0) == find_char(t, c, i - lo),
        decreases hi - i,
    {
        i = i + 1;
    }
    i
}

/// A line as `str::lines` yields it from a segment that ended in a line feed:
/// one carriage return before the line feed is dropped too.
pub open spec fn strip_cr(l: Seq<char>) -> Seq<char> {
    if l.len() > 0 && l.last() == '\r' {
        l.drop_last()
    } else {
        l
    }
}

/// The lines of `s`, as `str::lines` yields them: split at each `'\n'`, a `'\r'`
/// just before a `'\n'` removed, and no empty line after a final line feed.
pub open spec fn lines(s: Seq<char>) -> Seq<Seq<char>>
    decreases s.len(),
{
    if s.len() == 0 {
        seq![]
    } else {
        let j = find_char(s, '\n', 0);
        if j < s.len() {
            proof {
                lemma_find_char(s, '\n', 0);
            }
            seq![strip_cr(s.take(j))] + lines(s.skip(j + 1))
        } else {
            seq![s]
        }
    }
}

/// Line `s[lo..hi]` as `lines` yields it, when it ends at the line feed `s[hi]` or at the end.
pub open spec fn line_at(s: Seq<char>, lo: int, hi: int) -> Seq<char> {
    if hi < s.len() {
        strip_cr(s.subrange(lo, hi))
    } else {
        s.subrange(lo, hi)
    }
}

/// Unfolds `lines` once on the part of `s` that starts at `pos`.
pub proof fn lemma_lines_step(s: Seq<char>, pos: int, j: int)
    requires
        0 <= pos < s.len(),
        j - pos == find_char(s.subrange(pos, s.len() as int), '\n', 0),
    ensures
        pos <= j <= s.len(),
        j < s.len() ==> lines(s.subrange(pos, s.len() as int)) == seq![line_at(s, pos, j)]
            + lines(s.subrange(j + 1, s.len() as int)),
        j == s.len() ==> lines(s.subrange(pos, s.len() as int)) == seq![line_at(s, pos, j)],
{
    let t = s.subrange(pos, s.len() as int);
    lemma_find_char(t, '\n', 0);
    assert(t.take(j - pos) =~= s.subrange(pos, j));
    if j < s.len() {
        assert(t.skip(j - pos + 1) =~= s.subrange(j + 1, s.len() as int));
    } else {
        assert(t =~= s.subrange(pos, j));
    }
}

/// `c` is an ASCII decimal digit.
pub open spec fn is_digit(c: char) -> bool {
    '0' <= c && c <= '9'
}

/// The value of the digit `c`.
pub open spec fn digit_value(c: char) -> int {
    c as int - '0' as int
}

/// Every character of `s` is a decimal digit.
pub open spec fn all_digits(s: Seq<char>) -> bool {
    forall|i: int| 0 <= i < s.len() ==> is_digit(#[trigger] s[i])
}

/// The number that the digits `s` write in base ten.
pub open spec fn decimal_value(s: Seq<char>) -> int
    decreases s.len(),
{
    if s.len() == 0 {
        0
    } else {
        decimal_value(s.drop_last()) * 10 + digit_value(s.last())
    }
}

/// `s` without one leading `'+'`.
pub open spec fn unsigned_digits(s: Seq<char>) -> Seq<char> {
    if s.len() > 0 && s[0] == '+' {
        s.drop_first()
    } else {
        s
    }
}

/// What `from_str` of an unsigned integer type whose largest value is `max` gives for `s`:
/// an optional `'+'`, then one or more decimal digits whose value is at most `max`.
pub open spec fn parse_unsigned(s: Seq<char>, max: int) -> Option<int> {
    let d = unsigned_digits(s);
    if d.len() > 0 && all_digits(d) && decimal_value(d) <= max {
        Some(decimal_value(d))
    } else {
        None
    }
}

/// A prefix of a run of digits has no greater value than the run.
pub proof fn lemma_decimal_prefix(s: Seq<char>, k: int)
    requires
        all_digits(s),
        0 <= k <= s.len(),
    ensures
        0 <= decimal_value(s.take(k)) <= decimal_value(s),
    decreases s.len(),
{
    if s.len() > 0 {
        assert(all_digits(s.drop_last()));
        if k < s.len() {
            lemma_decimal_prefix(s.drop_last(), k);
            assert(s.drop_last().take(k) =~= s.take(k));
        } else {
            assert(s.take(k) =~= s);
        }
        lemma_decimal_prefix(s.drop_last(), 0);
        assert(is_digit(s.last()));
    } else {
        assert(s.take(k) =~= s);
    }
}

/// Parses `s[lo..hi]` as an unsigned decimal number no greater than `max`.
pub fn parse_unsigned_range(s: &Vec<char>, lo: usize, hi: usize, max: u64) -> (r: Option<u64>)
    requires
        lo <= hi <= s@.len(),
    ensures
        match parse_unsigned(s@.subrange(lo as int, hi as int), max as int) {
            Some(v) => r matches Some(x) && x as int == v && x <= max,
            None => r is None,
        },
{
    let ghost t = s@.subrange(lo as int, hi as int);
    let mut start = lo;
    if lo < hi && s[lo] == '+' {
        start = lo + 1;
    }
    let ghost d = s@.subrange(start as int, hi as int);
    assert(d =~= unsigned_digits(t));
    if start == hi {
        return None;
    }
    let mut acc: u64 = 0;
    let mut i = start;
    while i < hi
        invariant
            start <= i <= hi <= s@.len(),
            d == s@.subrange(start as int, hi as int),
            d == unsigned_digits(t),
            t == s@.subrange(lo as int, hi as int),
            d.len() > 0,
            all_digits(d.take(i - start)),
            acc as int == decimal_value(d.take(i - start)),
            acc <= max,
        decreases hi - i,
    {
        let c = s[i];
        if !('0' <= c && c <= '9') {
            assert(!is_digit(d[i - start]));
            assert(!all_digits(d));
            assert(parse_unsigned(t, max as int) is None);
            return None;
        }
        let digit = (c as u32 - '0' as u32) as u64;
        let next: u128 = (acc as u128) * 10 + (digit as u128);
        assert(d.take(i - start + 1).drop_last() =~= d.take(i - start));
        assert(all_digits(d.take(i - start + 1)));
        if next > max as u128 {
            proof {
                if all_digits(d) {
                    lemma_decimal_prefix(d, i - start + 1);
                    assert(decimal_value(d) > max);
                }
                assert(parse_unsigned(t, max as int) is None);
            }
            return None;
        }
        acc = next as u64;
        i = i + 1;
    }
    assert(d.take(i - start) =~= d);
    Some(acc)
}

/// What `trim_start` leaves is a suffix of `s` that does not start with white space.
pub proof fn lemma_trim_start(s: Seq<char>)
    ensures
        trim_start(s).len() <= s.len(),
        trim_start(s).len() > 0 ==> !is_white_space(trim_start(s)[0]),
        trim_start(s) == s.skip(s.len() - trim_start(s).len()),
    decreases s.len(),
{
    if s.len() > 0 && is_white_space(s[0]) {
        lemma_trim_start(s.drop_first());
        assert(s.drop_first().skip(s.drop_first().len() - trim_start(s.drop_first()).len())
            =~= s.skip(s.len() - trim_start(s).len()));
    } else {
        assert(s.skip(0) =~= s);
    }
}

/// Index of the first white space in `s` at or after `i`, or `s.len()` when there is none.
pub open spec fn word_end(s: Seq<char>, i: int) -> int
    decreases s.len() - i,
{
    if i >= s.len() {
        s.len() as int
    } else if is_white_space(s[i]) {
        i
    } else {
        word_end(s, i + 1)
    }
}

/// `word_end` lands between its start and the end of the sequence.
pub proof fn lemma_word_end(s: Seq<char>, i: int)
    requires
        0 <= i <= s.len(),
    ensures
        i <= word_end(s, i) <= s.len(),
    decreases s.len() - i,
{
    if i < s.len() && !is_white_space(s[i]) {
        lemma_word_end(s, i + 1);
    }
}

/// The words of `s`, as `str::split_whitespace` yields them: the maximal runs of
/// characters that are not white space.
pub open spec fn words(s: Seq<char>) -> Seq<Seq<char>>
    decreases s.len(),
{
    let t = trim_start(s);
    if t.len() == 0 {
        seq![]
    } else {
        let e = word_end(t, 0);
        proof {
            lemma_trim_start(s);
            lemma_word_end(t, 1);
        }
        seq![t.take(e)] + words(t.skip(e))
    }
}

/// End of the run of characters other than white space that starts at `lo`, within `s[lo..hi]`.
pub fn word_end_in(s: &Vec<char>, lo: usize, hi: usize) -> (r: usize)
    requires
        lo <= hi <= s@.len(),
    ensures
        lo <= r <= hi,
        r - lo == word_end(s@.subrange(lo as int, hi as int), 0),
{
    let ghost t = s@.subrange(lo as int, hi as int);
    let mut i = lo;
    while i < hi && !white_space(s[i])
        invariant
            lo <= i <= hi <= s@.len(),
            t == s@.subrange(lo as int, hi as int),
            word_end(t, 0) == word_end(t, i - lo),
        decreases hi - i,
    {
        i = i + 1;
    }
    i
}

/// Word `n` (counting from zero) of `s[lo..hi]`, by its bounds in `s`; `None` where there
/// are no more than `n` words.
pub fn nth_word(s: &Vec<char>, lo: usize, hi: usize, n: usize) -> (r: Option<(usize, usize)>)
    requires
        lo <= hi <= s@.len(),
    ensures
        n < words(s@.subrange(lo as int, hi as int)).len() ==> (r matches Some((a, b)) && lo <= a
            <= b <= hi && s@.subrange(a as int, b as int) == words(
            s@.subrange(lo as int, hi as int),
        )[n as int]),
        n >= words(s@.subrange(lo as int, hi as int)).len() ==> r is None,
{
    let ghost all = words(s@.subrange(lo as int, hi as int));
    let mut pos = lo;
    let mut count: usize = 0;
    assert(all.skip(0) =~= all);
    loop
        invariant
            lo <= pos <= hi <= s@.len(),
            count <= n,
            count <= all.len(),
            all == words(s@.subrange(lo as int, hi as int)),
            all.skip(count as int) == words(s@.subrange(pos as int, hi as int)),
        decreases hi - pos,
    {
        let a = trim_start_range(s, pos, hi);
        if a == hi {
            assert(trim_start(s@.subrange(pos as int, hi as int)).len() == 0);
            assert(all.skip(count as int).len() == 0);
            return None;
        }
        let e = word_end_in(s, a, hi);
        proof {
            let t = s@.subrange(a as int, hi as int);
            assert(!is_white_space(t[0])) by {
                lemma_trim_start(s@.subrange(pos as int, hi as int));
            }
            lemma_word_end(t, 1);
            assert(t.take(e - a) =~= s@.subrange(a as int, e as int));
            assert(t.skip(e - a) =~= s@.subrange(e as int, hi as int));
            assert(words(s@.subrange(pos as int, hi as int)) == seq![
                s@.subrange(a as int, e as int),
            ] + words(s@.subrange(e as int, hi as int)));
            assert(all.skip(count as int)[0] == all[count as int]);
            assert(all.skip(count as int).drop_first() =~= all.skip(count + 1));
        }
        if count == n {
            return Some((a, e));
        }
        count = count + 1;
        pos = e;
    }
}

/// `p` is a prefix of `s`.
pub open spec fn has_prefix(s: Seq<char>, p: Seq<char>) -> bool {
    p.len() <= s.len() && s.take(p.len() as int) == p
}

/// Whether `s[lo..hi]` starts with `p`.
pub fn range_starts_with(s: &Vec<char>, lo: usize, hi: usize, p: &Vec<char>) -> (r: bool)
    requires
        lo <= hi <= s@.len(),
    ensures
        r == has_prefix(s@.subrange(lo as int, hi as int), p@),
{
    let ghost t = s@.subrange(lo as int, hi as int);
    if p.len() > hi - lo {
        return false;
    }
    let mut i: usize = 0;
    while i < p.len()
        invariant
            lo <= hi <= s@.len(),
            p@.len() <= hi - lo,
            t == s@.subrange(lo as int, hi as int),
            i <= p@.len(),
            forall|k: int| 0 <= k < i ==> t[k] == p@[k],
        decreases p@.len() - i,
    {
        if s[lo + i] != p[i] {
            assert(t.take(p@.len() as int)[i as int] != p@[i as int]);
            return false;
        }
        i = i + 1;
    }
    assert(t.take(p@.len() as int) =~= p@);
    true
}

/// Whether `s[lo..hi]` is `p`.
pub fn range_equals(s: &Vec<char>, lo: usize, hi: usize, p: &Vec<char>) -> (r: bool)
    requires
        lo <= hi <= s@.len(),
    ensures
        r == (s@.subrange(lo as int, hi as int) == p@),
{
    if p.len() != hi - lo {
        return false;
    }
    let b = range_starts_with(s, lo, hi, p);
    assert(s@.subrange(lo as int, hi as int).take(p@.len() as int) =~= s@.subrange(
        lo as int,
        hi as int,
    ));
    b
}

/// The characters of `text`, in order.
pub fn chars_of(text: &str) -> (r: Vec<char>)
    ensures
        r@ == text@,
{
    let mut v: Vec<char> = Vec::new();
    for c in it: text.chars()
        invariant
            it.seq() == text@,
            v@ == it.seq().take(it.index() as int),
    {
        v.push(c);
    }
    v
}

/// The character of the decimal digit `d`.
pub open spec fn digit_char(d: int) -> char {
    ('0' as int + d) as char
}

/// `n` written in base ten, without leading zeros.
pub open spec fn decimal_text(n: nat) -> Seq<char>
    decreases n,
{
    if n < 10 {
        seq![digit_char(n as int)]
    } else {
        decimal_text(n / 10).push(digit_char((n % 10) as int))
    }
}

/// `decimal_text(n)` is a non-empty run of digits whose value is `n`.
pub proof fn lemma_decimal_text(n: nat)
    ensures
        decimal_text(n).len() > 0,
        all_digits(decimal_text(n)),
        decimal_value(decimal_text(n)) == n,
    decreases n,
{
    let s = decimal_text(n);
    let d = (n % 10) as int;
    assert(digit_value(digit_char(d)) == d);
    if n < 10 {
        assert(s.drop_last() =~= Seq::<char>::empty());
        assert(s.last() == digit_char(d));
        assert(decimal_value(s) == decimal_value(s.drop_last()) * 10 + digit_value(s.last()));
    } else {
        lemma_decimal_text(n / 10);
        assert(s.drop_last() =~= decimal_text(n / 10));
        assert(s.last() == digit_char(d));
        assert(decimal_value(s) == decimal_value(s.drop_last()) * 10 + digit_value(s.last()));
        assert((n / 10) * 10 + n % 10 == n);
        assert forall|i: int| 0 <= i < s.len() implies is_digit(#[trigger] s[i]) by {
            if i < s.len() - 1 {
                assert(s[i] == decimal_text(n / 10)[i]);
            }
        }
    }
}

/// `find_char` finds the first `c` at or after `i`: at `j` when `s[j]` is `c` and nothing
/// from `i` to `j` is, at the end when nothing from `i` on is.
pub proof fn lemma_find_char_at(s: Seq<char>, c: char, i: int, j: int)
    requires
        0 <= i <= j <= s.len(),
        j < s.len() ==> s[j] == c,
        forall|k: int| i <= k < j ==> s[k] != c,
    ensures
        find_char(s, c, i) == j,
    decreases j - i,
{
    if i < j {
        lemma_find_char_at(s, c, i + 1, j);
    }
}

/// The lines joined by line feeds, with no line feed after the last.
pub open spec fn join_lines(ls: Seq<Seq<char>>) -> Seq<char>
    decreases ls.len(),
{
    if ls.len() == 0 {
        seq![]
    } else if ls.len() == 1 {
        ls[0]
    } else {
        ls[0] + seq!['\n'] + join_lines(ls.drop_first())
    }
}

/// A line that `lines` gives back whole: not empty, with no line feed, and not ending
/// in a carriage return.
pub open spec fn plain_line(l: Seq<char>) -> bool {
    &&& l.len() > 0
    &&& forall|k: int| 0 <= k < l.len() ==> l[k] != '\n'
    &&& l.last() != '\r'
}

/// Splitting joined lines gives the lines back.
pub proof fn lemma_lines_of_join(ls: Seq<Seq<char>>)
    requires
        forall|i: int| 0 <= i < ls.len() ==> plain_line(#[trigger] ls[i]),
    ensures
        lines(join_lines(ls)) == ls,
    decreases ls.len(),
{
    if ls.len() == 0 {
        assert(lines(join_lines(ls)) =~= ls);
    } else if ls.len() == 1 {
        let s = ls[0];
        assert(plain_line(ls[0]));
        lemma_find_char_at(s, '\n', 0, s.len() as int);
        assert(lines(s) =~= ls);
    } else {
        let a = ls[0];
        let rest = join_lines(ls.drop_first());
        let s = a + seq!['\n'] + rest;
        assert(plain_line(ls[0]));
        assert forall|i: int| 0 <= i < ls.drop_first().len() implies plain_line(
            #[trigger] ls.drop_first()[i],
        ) by {
            assert(plain_line(ls[i + 1]));
        }
        lemma_lines_of_join(ls.drop_first());
        lemma_find_char_at(s, '\n', 0, a.len() as int);
        assert(s.take(a.len() as int) =~= a);
        assert(s.skip(a.len() as int + 1) =~= rest);
        assert(lines(s) =~= seq![a] + ls.drop_first());
        assert(lines(join_lines(ls)) =~= ls);
    }
}

/// `trim_end` leaves nothing that ends in white space.
pub proof fn lemma_trim_end(s: Seq<char>)
    ensures
        trim_end(s).len() > 0 ==> !is_white_space(trim_end(s).last()),
    decreases s.len(),
{
    if s.len() > 0 && is_white_space(s.last()) {
        lemma_trim_end(s.drop_last());
    }
}

/// A sequence that neither starts nor ends with white space is its own trim.
pub proof fn lemma_trim_fixed(s: Seq<char>)
    requires
        s.len() > 0,
        !is_white_space(s[0]),
        !is_white_space(s.last()),
    ensures
        trim(s) == s,
{
}

/// What `trim` keeps of `s` is the part between its leading and its trailing white space:
/// a run `s[a..b]` with only white space before `a` and after `b`, that neither starts
/// nor ends with white space.
pub proof fn lemma_trim_is_inner_run(s: Seq<char>)
    ensures
        exists|a: int, b: int|
            0 <= a <= b <= s.len() && trim(s) == s.subrange(a, b) && (forall|k: int|
                0 <= k < a ==> is_white_space(#[trigger] s[k])) && (forall|k: int|
                b <= k < s.len() ==> is_white_space(#[trigger] s[k])),
        trim(s).len() > 0 ==> !is_white_space(trim(s)[0]) && !is_white_space(trim(s).last()),
{
    let a = lemma_trim_start_run(s);
    let t = trim_start(s);
    let e = lemma_trim_end_run(t);
    assert(trim(s) =~= s.subrange(a, a + e));
    assert forall|k: int| a + e <= k < s.len() implies is_white_space(#[trigger] s[k]) by {
        assert(s[k] == t[k - a]);
    }
    lemma_trim_start(s);
    lemma_trim_end(t);
    if trim(s).len() > 0 {
        assert(trim(s)[0] == t[0]);
    }
}

/// `trim_start` drops exactly a run of leading white space; the result says how long.
proof fn lemma_trim_start_run(s: Seq<char>) -> (a: int)
    ensures
        0 <= a <= s.len(),
        trim_start(s) == s.subrange(a, s.len() as int),
        forall|k: int| 0 <= k < a ==> is_white_space(#[trigger] s[k]),
    decreases s.len(),
{
    if s.len() > 0 && is_white_space(s[0]) {
        let a = lemma_trim_start_run(s.drop_first());
        assert(s.drop_first().subrange(a, s.len() - 1) =~= s.subrange(a + 1, s.len() as int));
        assert forall|k: int| 0 <= k < a + 1 implies is_white_space(#[trigger] s[k]) by {
            if k > 0 {
                assert(s[k] == s.drop_first()[k - 1]);
            }
        }
        a + 1
    } else {
        assert(s.subrange(0, s.len() as int) =~= s);
        0
    }
}

/// `trim_end` drops exactly a run of trailing white space; the result is the length kept.
proof fn lemma_trim_end_run(s: Seq<char>) -> (b: int)
    ensures
        0 <= b <= s.len(),
        trim_end(s) == s.subrange(0, b),
        forall|k: int| b <= k < s.len() ==> is_white_space(#[trigger] s[k]),
    decreases s.len(),
{
    if s.len() > 0 && is_white_space(s.last()) {
        let b = lemma_trim_end_run(s.drop_last());
        assert(s.drop_last().subrange(0, b) =~= s.subrange(0, b));
        assert forall|k: int| b <= k < s.len() implies is_white_space(#[trigger] s[k]) by {
            if k < s.len() - 1 {
                assert(s[k] == s.drop_last()[k]);
            }
        }
        b
    } else {
        assert(s.subrange(0, s.len() as int) =~= s);
        s.len() as int
    }
}

/// An unsigned number written in base ten, with or without a leading `+`, parses back
/// to itself when it is within the bound, and to nothing when it is above it.
pub proof fn lemma_parse_unsigned_decimal(n: nat, max: int)
    ensures
        parse_unsigned(decimal_text(n), max) == (if n <= max {
            Some(n as int)
        } else {
            None
        }),
        parse_unsigned(seq!['+'] + decimal_text(n), max) == (if n <= max {
            Some(n as int)
        } else {
            None
        }),
        parse_unsigned(seq!['0'] + decimal_text(n), max) == (if n <= max {
            Some(n as int)
        } else {
            None
        }),
{
    lemma_decimal_text(n);
    let d = decimal_text(n);
    assert(is_digit(d[0]));
    assert(unsigned_digits(d) == d);
    assert((seq!['+'] + d).drop_first() =~= d);
    let z = seq!['0'] + d;
    assert(unsigned_digits(z) == z);
    assert(all_digits(z)) by {
        assert forall|i: int| 0 <= i < z.len() implies is_digit(#[trigger] z[i]) by {
            if i > 0 {
                assert(z[i] == d[i - 1]);
            }
        }
    }
    lemma_decimal_leading_zero(d);
}

/// A leading zero does not change the value of a run of digits.
proof fn lemma_decimal_leading_zero(d: Seq<char>)
    ensures
        decimal_value(seq!['0'] + d) == decimal_value(d),
    decreases d.len(),
{
    let x = seq!['0'] + d;
    assert(x.len() > 0);
    assert(decimal_value(x) == decimal_value(x.drop_last()) * 10 + digit_value(x.last()));
    if d.len() == 0 {
        assert((seq!['0'] + d).drop_last() =~= Seq::<char>::empty());
        assert((seq!['0'] + d).last() == '0');
        assert(decimal_value(Seq::<char>::empty()) == 0);
        assert(digit_value('0') == 0);
    } else {
        lemma_decimal_leading_zero(d.drop_last());
        assert((seq!['0'] + d).drop_last() =~= seq!['0'] + d.drop_last());
        assert((seq!['0'] + d).last() == d.last());
        assert(decimal_value(d) == decimal_value(d.drop_last()) * 10 + digit_value(d.last()));
    }
}

} // verus!
