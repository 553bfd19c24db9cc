//! Characters and strings: decimal digits and white space.

use vstd::prelude::*;
use vstd::std_specs::iter::IteratorSpec;
use vstd::string::StringExecFns;

verus! {

/// `c` is one of the ten decimal digits `0` to `9`.
pub open spec fn is_digit_char(c: char) -> bool {
    '0' as u32 <= c as u32 <= '9' as u32
}

/// The number that the decimal digit `c` stands for.
pub open spec fn digit_value(c: char) -> u8 {
    (c as u32 - '0' as u32) as u8
}

/// The decimal digit that stands for `d`, which is at most `9`.
pub open spec fn digit_char(d: u8) -> char {
    if d == 0 {
        '0'
    } else if d == 1 {
        '1'
    } else if d == 2 {
        '2'
    } else if d == 3 {
        '3'
    } else if d == 4 {
        '4'
    } else if d == 5 {
        '5'
    } else if d == 6 {
        '6'
    } else if d == 7 {
        '7'
    } else if d == 8 {
        '8'
    } else {
        '9'
    }
}

/// `c` is white space as Unicode defines it.
pub open spec fn is_space_char(c: char) -> bool {
    let u = c as u32;
    ||| 0x09 <= u <= 0x0D
    ||| u == 0x20
    ||| u == 0x85
    ||| u == 0xA0
    ||| u == 0x1680
    ||| 0x2000 <= u <= 0x200A
    ||| u == 0x2028
    ||| u == 0x2029
    ||| u == 0x202F
    ||| u == 0x205F
    ||| u == 0x3000
}

/// Every character of the text is white space.
pub open spec fn is_blank_text(s: Seq<char>) -> bool {
    forall|i: int| 0 <= i < s.len() ==> is_space_char(#[trigger] s[i])
}

/// A digit and its character stand for each other.
pub proof fn lemma_digit_char_value(d: u8)
    requires
        d <= 9,
    ensures
        is_digit_char(digit_char(d)),
        digit_value(digit_char(d)) == d,
{
}

/// A digit's character stands for the digit it came from.
pub proof fn lemma_digit_value_char(c: char)
    requires
        is_digit_char(c),
    ensures
        digit_value(c) <= 9,
        digit_char(digit_value(c)) == c,
{
    let u = c as u32;
    assert(u == 48 || u == 49 || u == 50 || u == 51 || u == 52 || u == 53 || u == 54 || u == 55
        || u == 56 || u == 57);
}

/// Whether `c` is a decimal digit.
pub fn is_digit(c: char) -> (yes: bool)
    ensures
        yes == is_digit_char(c),
{
    let u = c as u32;
    '0' as u32 <= u && u <= '9' as u32
}

/// The number that the decimal digit `c` stands for.
pub fn digit_of(c: char) -> (d: u8)
    requires
        is_digit_char(c),
    ensures
        d == digit_value(c),
        d <= 9,
{
    (c as u32 - '0' as u32) as u8
}

/// Whether `c` is white space.
pub fn is_space(c: char) -> (yes: bool)
    ensures
        yes == is_space_char(c),
{
    let u = c as u32;
    (0x09 <= u && u <= 0x0D) || u == 0x20 || u == 0x85 || u == 0xA0 || u == 0x1680 || (0x2000
        <= u && u <= 0x200A) || u == 0x2028 || u == 0x2029 || u == 0x202F || u == 0x205F || u
        == 0x3000
}

/// The characters of a string, in order.
pub fn chars_of(s: &str) -> (chars: Vec<char>)
    ensures
        chars@ == s@,
{
    let mut chars: Vec<char> = Vec::new();
    for c in it: s.chars()
        invariant
            chars@ == it.seq().take(it.index() as int),
            it.seq() == s@,
    {
        chars.push(c);
    }
    chars
}

/// Whether the text is empty or white space only.
pub fn is_blank(s: &str) -> (yes: bool)
    ensures
        yes == is_blank_text(s@),
{
    for c in it: s.chars()
        invariant
            it.seq() == s@,
            forall|i: int| 0 <= i < it.index() ==> is_space_char(#[trigger] s@[i]),
    {
        if !is_space(c) {
            assert(!is_space_char(s@[it.index() as int]));
            return false;
        }
    }
    true
}

/// The one-character text of a digit.
pub fn digit_text(d: u8) -> (s: &'static str)
    requires
        d <= 9,
    ensures
        s@ == seq![digit_char(d)],
{
    proof {
        reveal_strlit("0");
        reveal_strlit("1");
        reveal_strlit("2");
        reveal_strlit("3");
        reveal_strlit("4");
        reveal_strlit("5");
        reveal_strlit("6");
        reveal_strlit("7");
        reveal_strlit("8");
        reveal_strlit("9");
    }
    let s = match d {
        0 => "0",
        1 => "1",
        2 => "2",
        3 => "3",
        4 => "4",
        5 => "5",
        6 => "6",
        7 => "7",
        8 => "8",
        _ => "9",
    };
    assert(s@ =~= seq![digit_char(d)]);
    s
}

/// The texts that a vector of character vectors stands for.
pub open spec fn texts_of(parts: Seq<Vec<char>>) -> Seq<Seq<char>> {
    Seq::new(parts.len(), |i: int| parts[i]@)
}

/// The pieces of `s` between the occurrences of `sep`: one more piece than
/// there are separators, so at least one, and none holds a separator.
pub open spec fn split_on(s: Seq<char>, sep: char) -> Seq<Seq<char>>
    decreases s.len(),
{
    if s.len() == 0 {
        seq![Seq::empty()]
    } else {
        let parts = split_on(s.drop_last(), sep);
        if s.last() == sep {
            parts.push(Seq::empty())
        } else {
            parts.drop_last().push(parts.last().push(s.last()))
        }
    }
}

/// The pieces joined again, with `sep` between each two.
pub open spec fn join_with(parts: Seq<Seq<char>>, sep: char) -> Seq<char>
    decreases parts.len(),
{
    if parts.len() == 0 {
        Seq::empty()
    } else if parts.len() == 1 {
        parts[0]
    } else {
        join_with(parts.drop_last(), sep).push(sep) + parts.last()
    }
}

/// The lines of a text: its pieces between line feeds, without the empty
/// piece after a final line feed. The empty text has no line.
pub open spec fn lines_of(s: Seq<char>) -> Seq<Seq<char>> {
    let parts = split_on(s, '\n');
    if parts.last().len() == 0 {
        parts.drop_last()
    } else {
        parts
    }
}

/// The text without the white space at its start.
pub open spec fn trim_start(s: Seq<char>) -> Seq<char>
    decreases s.len(),
{
    if s.len() > 0 && is_space_char(s[0]) {
        trim_start(s.drop_first())
    } else {
        s
    }
}

/// The text without the white space at its end.
pub open spec fn trim_end(s: Seq<char>) -> Seq<char>
    decreases s.len(),
{
    if s.len() > 0 && is_space_char(s.last()) {
        trim_end(s.drop_last())
    } else {
        s
    }
}

/// The text without the white space at its start and at its end.
pub open spec fn trimmed(s: Seq<char>) -> Seq<char> {
    trim_end(trim_start(s))
}

/// The number that a row of decimal digits stands for.
pub open spec fn decimal_value(digits: Seq<char>) -> nat
    decreases digits.len(),
{
    if digits.len() == 0 {
        0
    } else {
        decimal_value(digits.drop_last()) * 10 + digit_value(digits.last()) as nat
    }
}

/// Every character of the text is a decimal digit.
pub open spec fn all_digits(s: Seq<char>) -> bool {
    forall|i: int| 0 <= i < s.len() ==> is_digit_char(#[trigger] s[i])
}

/// The text without a plus sign at its start.
pub open spec fn unsigned_part(s: Seq<char>) -> Seq<char> {
    if s.len() > 0 && s[0] == '+' {
        s.drop_first()
    } else {
        s
    }
}

/// The byte that the text stands for: one or more decimal digits, after at
/// most one plus sign, with a value of at most 255.
pub open spec fn parsed_u8(s: Seq<char>) -> Option<u8> {
    let digits = unsigned_part(s);
    if digits.len() > 0 && all_digits(digits) && decimal_value(digits) <= 255 {
        Some(decimal_value(digits) as u8)
    } else {
        None
    }
}

/// Splitting has at least one piece, no piece holds the separator, and the
/// pieces joined again are the text.
pub proof fn lemma_split_on(s: Seq<char>, sep: char)
    ensures
        split_on(s, sep).len() >= 1,
        forall|i: int, j: int|
            0 <= i < split_on(s, sep).len() && 0 <= j < split_on(s, sep)[i].len()
                ==> #[trigger] split_on(s, sep)[i][j] != sep,
        join_with(split_on(s, sep), sep) == s,
    decreases s.len(),
{
    if s.len() > 0 {
        let shorter = s.drop_last();
        lemma_split_on(shorter, sep);
        let parts = split_on(shorter, sep);
        let whole = split_on(s, sep);
        if s.last() == sep {
            assert(whole.drop_last() =~= parts);
            assert(join_with(whole, sep) =~= s);
        } else {
            let grown = parts.last().push(s.last());
            assert(whole.last() == grown);
            if parts.len() == 1 {
                assert(join_with(whole, sep) =~= s);
            } else {
                assert(whole.drop_last() =~= parts.drop_last());
                assert(join_with(whole, sep) =~= join_with(parts, sep).push(s.last()));
                assert(join_with(whole, sep) =~= s);
            }
        }
    } else {
        assert(join_with(split_on(s, sep), sep) =~= s);
    }
}

/// A number does not get smaller when a digit is written after it.
pub proof fn lemma_decimal_value_grows(digits: Seq<char>, n: int)
    requires
        0 <= n <= digits.len(),
    ensures
        decimal_value(digits.take(n)) <= decimal_value(digits),
    decreases digits.len(),
{
    if n < digits.len() {
        lemma_decimal_value_grows(digits.drop_last(), n);
        assert(digits.drop_last().take(n) =~= digits.take(n));
    } else {
        assert(digits.take(n) =~= digits);
    }
}

/// The pieces of the text between the occurrences of `sep`.
pub fn split(s: &Vec<char>, sep: char) -> (parts: Vec<Vec<char>>)
    ensures
        texts_of(parts@) == split_on(s@, sep),
{
    let mut parts: Vec<Vec<char>> = Vec::new();
    let mut current: Vec<char> = Vec::new();
    assert(texts_of(parts@).push(current@) =~= split_on(s@.take(0), sep));
    for i in 0..s.len()
        invariant
            texts_of(parts@).push(current@) == split_on(s@.take(i as int), sep),
    {
        let ghost done = texts_of(parts@);
        let ghost piece = current@;
        assert(s@.take(i + 1).drop_last() =~= s@.take(i as int));
        let c = s[i];
        if c == sep {
            parts.push(current);
            current = Vec::new();
            assert(texts_of(parts@) =~= done.push(piece));
        } else {
            current.push(c);
            assert(done.push(piece).drop_last() =~= done);
        }
    }
    assert(s@.take(s.len() as int) =~= s@);
    let ghost done = texts_of(parts@);
    parts.push(current);
    assert(texts_of(parts@) =~= done.push(current@));
    parts
}

/// The lines of the text.
pub fn lines(s: &Vec<char>) -> (parts: Vec<Vec<char>>)
    ensures
        texts_of(parts@) == lines_of(s@),
{
    let mut parts = split(s, '\n');
    proof {
        lemma_split_on(s@, '\n');
    }
    let ghost all = texts_of(parts@);
    if parts[parts.len() - 1].len() == 0 {
        parts.pop();
        assert(texts_of(parts@) =~= all.drop_last());
    }
    parts
}

/// The text without the white space at its start and at its end.
pub fn trim(s: &Vec<char>) -> (inner: Vec<char>)
    ensures
        inner@ == trimmed(s@),
{
    let mut lo: usize = 0;
    assert(s@.skip(0) =~= s@);
    while lo < s.len() && is_space(s[lo])
        invariant
            lo <= s.len(),
            trim_start(s@) == trim_start(s@.skip(lo as int)),
        decreases s.len() - lo,
    {
        assert(s@.skip(lo as int).drop_first() =~= s@.skip(lo + 1));
        lo += 1;
    }
    let ghost rest = s@.skip(lo as int);
    assert(trim_start(s@) == rest);
    let mut hi: usize = s.len();
    assert(s@.subrange(lo as int, hi as int) =~= rest);
    while hi > lo && is_space(s[hi - 1])
        invariant
            lo <= hi <= s.len(),
            trim_end(rest) == trim_end(s@.subrange(lo as int, hi as int)),
        decreases hi,
    {
        assert(s@.subrange(lo as int, hi as int).drop_last() =~= s@.subrange(
            lo as int,
            hi - 1,
        ));
        hi -= 1;
    }
    assert(trim_end(rest) == s@.subrange(lo as int, hi as int));
    let mut inner: Vec<char> = Vec::new();
    for i in lo..hi
        invariant
            lo <= hi <= s.len(),
            inner@ == s@.subrange(lo as int, i as int),
    {
        inner.push(s[i]);
        assert(inner@ =~= s@.subrange(lo as int, i + 1));
    }
    inner
}

/// The byte that the text stands for, if it stands for one.
pub fn parse_u8(s: &Vec<char>) -> (value: Option<u8>)
    ensures
        value == parsed_u8(s@),
{
    let start: usize = if s.len() > 0 && s[0] == '+' {
        1
    } else {
        0
    };
    let ghost digits = unsigned_part(s@);
    assert(digits =~= s@.skip(start as int));
    if start == s.len() {
        return None;
    }
    let mut acc: u32 = 0;
    for i in start..s.len()
        invariant
            start <= s.len(),
            digits == unsigned_part(s@),
            digits == s@.skip(start as int),
            acc == decimal_value(digits.take(i - start)),
            acc <= 255,
            forall|j: int| 0 <= j < i - start ==> is_digit_char(#[trigger] digits[j]),
    {
        let c = s[i];
        assert(digits[i - start] == c);
        if !is_digit(c) {
            assert(!all_digits(digits));
            return None;
        }
        assert(digits.take(i - start + 1).drop_last() =~= digits.take(i - start));
        acc = acc * 10 + digit_of(c) as u32;
        if acc > 255 {
            proof {
                lemma_decimal_value_grows(digits, i - start + 1);
            }
            return None;
        }
    }
    assert(digits.take(digits.len() as int) =~= digits);
    Some(acc as u8)
}

/// The decimal digits of a number, without leading zeros.
pub open spec fn decimal_text(n: nat) -> Seq<char>
    decreases n,
{
    if n < 10 {
        seq![digit_char(n as u8)]
    } else {
        decimal_text(n / 10).push(digit_char((n % 10) as u8))
    }
}

/// The decimal digits of a number, without leading zeros.
pub fn decimal_string(n: usize) -> (s: String)
    ensures
        s@ == decimal_text(n as nat),
{
    let mut low: Vec<u8> = Vec::new();
    let mut rest: usize = n;
    while rest >= 10
        invariant
            forall|k: int| 0 <= k < low@.len() ==> #[trigger] low@[k] <= 9,
            decimal_text(n as nat) == decimal_text(rest as nat) + Seq::new(
                low@.len(),
                |k: int| digit_char(low@[low@.len() - 1 - k]),
            ),
        decreases rest,
    {
        let ghost before = Seq::new(low@.len(), |k: int| digit_char(low@[low@.len() - 1 - k]));
        let d = (rest % 10) as u8;
        low.push(d);
        let ghost after = Seq::new(low@.len(), |k: int| digit_char(low@[low@.len() - 1 - k]));
        assert(after =~= seq![digit_char(d)] + before);
        assert(decimal_text(rest as nat) == decimal_text((rest / 10) as nat).push(digit_char(d)));
        assert(decimal_text((rest / 10) as nat).push(digit_char(d)) + before =~= decimal_text(
            (rest / 10) as nat,
        ) + after);
        rest = rest / 10;
    }
    let mut s = String::from_str(digit_text(rest as u8));
    let ghost tail = Seq::new(low@.len(), |k: int| digit_char(low@[low@.len() - 1 - k]));
    let mut i: usize = low.len();
    assert(s@ + tail.skip(tail.len() as int) =~= decimal_text(rest as nat));
    while i > 0
        invariant
            i <= low@.len(),
            forall|k: int| 0 <= k < low@.len() ==> #[trigger] low@[k] <= 9,
            tail == Seq::new(low@.len(), |k: int| digit_char(low@[low@.len() - 1 - k])),
            s@ == decimal_text(rest as nat) + tail.take(low@.len() - i),
        decreases i,
    {
        i -= 1;
        let ghost shown = s@;
        s.append(digit_text(low[i]));
        assert(tail[low@.len() - 1 - i] == digit_char(low@[i as int]));
        assert(shown + seq![digit_char(low@[i as int])] =~= decimal_text(rest as nat) + tail.take(
            low@.len() - i,
        ));
    }
    assert(tail.take(low@.len() as int) =~= tail);
    s
}

} // verus!
