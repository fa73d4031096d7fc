//! The pieces that the text of a puzzle is made of: blanks, numbers, and
//! fields between commas.

use crate::puzzle::ParseError;
use vstd::prelude::*;

verus! {

/// Whether `c` is white space.
pub open spec fn is_space(c: char) -> bool {
    let n = c as u32;
    ||| 0x9 <= n <= 0xd
    ||| n == 0x20
    ||| n == 0x85
    ||| n == 0xa0
    ||| n == 0x1680
    ||| 0x2000 <= n <= 0x200a
    ||| n == 0x2028
    ||| n == 0x2029
    ||| n == 0x202f
    ||| n == 0x205f
    ||| n == 0x3000
}

/// `text` without the white space that it begins with.
pub open spec fn trim_start(text: Seq<char>) -> Seq<char>
    decreases text.len(),
{
    if text.len() > 0 && is_space(text[0]) {
        trim_start(text.drop_first())
    } else {
        text
    }
}

/// `text` without the white space that it ends with.
pub open spec fn trim_end(text: Seq<char>) -> Seq<char>
    decreases text.len(),
{
    if text.len() > 0 && is_space(text.last()) {
        trim_end(text.drop_last())
    } else {
        text
    }
}

/// `text` without the white space around it.
pub open spec fn trimmed(text: Seq<char>) -> Seq<char> {
    trim_end(trim_start(text))
}

/// Whether `c` is one of the digits `0` to `9`.
pub open spec fn is_digit(c: char) -> bool {
    0x30 <= c as u32 <= 0x39
}

/// The number that the digits `text` stand for, read from the left. The
/// first character that is no digit, or with which the number no longer fits
/// in 32 bits, decides the error.
pub open spec fn digits_value(text: Seq<char>) -> Result<u32, ParseError>
    decreases text.len(),
{
    if text.len() == 0 {
        Ok(0u32)
    } else {
        match digits_value(text.drop_last()) {
            Err(e) => Err(e),
            Ok(before) => if !is_digit(text.last()) {
                Err(ParseError::InvalidDigit)
            } else if before * 10 + (text.last() as u32 - 0x30) > u32::MAX {
                Err(ParseError::NumberTooLarge)
            } else {
                Ok((before * 10 + (text.last() as u32 - 0x30)) as u32)
            },
        }
    }
}

/// The number that `text` stands for: digits, with or without a `+` before
/// them.
pub open spec fn number_of(text: Seq<char>) -> Result<u32, ParseError> {
    if text.len() == 0 {
        Err(ParseError::EmptyNumber)
    } else if text[0] == '+' {
        if text.len() == 1 {
            Err(ParseError::InvalidDigit)
        } else {
            digits_value(text.drop_first())
        }
    } else {
        digits_value(text)
    }
}

/// The first place at or after `from` where `text` holds `c`; the length of
/// `text` where there is none.
pub open spec fn find_char(text: Seq<char>, c: char, from: int) -> int
    decreases text.len() - from,
{
    if from < 0 || from >= text.len() {
        text.len() as int
    } else if text[from] == c {
        from
    } else {
        find_char(text, c, from + 1)
    }
}

/// The parts of `text` between its commas. A text without a comma is one
/// field; a comma at either end leaves an empty field there.
pub open spec fn fields_of(text: Seq<char>) -> Seq<Seq<char>>
    decreases text.len(),
{
    if text.len() == 0 {
        seq![Seq::empty()]
    } else {
        let before = fields_of(text.drop_last());
        if text.last() == ',' {
            before.push(Seq::empty())
        } else {
            before.drop_last().push(before.last().push(text.last()))
        }
    }
}

/// The numbers that the fields stand for, each without the white space
/// around it. The first field that is no number decides the error.
pub open spec fn numbers_of(fields: Seq<Seq<char>>) -> Result<Seq<u32>, ParseError>
    decreases fields.len(),
{
    if fields.len() == 0 {
        Ok(Seq::empty())
    } else {
        match numbers_of(fields.drop_last()) {
            Err(e) => Err(e),
            Ok(before) => match number_of(trimmed(fields.last())) {
                Err(e) => Err(e),
                Ok(n) => Ok(before.push(n)),
            },
        }
    }
}

/// The parts of `text` that `ranges` mark, each from its first bound up to
/// its second.
pub open spec fn cut(text: Seq<char>, ranges: Seq<(usize, usize)>) -> Seq<Seq<char>> {
    Seq::new(ranges.len(), |k: int| text.subrange(ranges[k].0 as int, ranges[k].1 as int))
}

/// Whether every range of `ranges` lies in a text of `len` characters.
pub open spec fn in_bounds(ranges: Seq<(usize, usize)>, len: nat) -> bool {
    forall|k: int| 0 <= k < ranges.len() ==> (#[trigger] ranges[k]).0 <= ranges[k].1 <= len
}

/// Once the digits read so far are no number, no more digits make them one.
pub proof fn lemma_digits_error_sticks(text: Seq<char>, k: int)
    requires
        0 <= k <= text.len(),
        digits_value(text.take(k)) is Err,
    ensures
        digits_value(text) == digits_value(text.take(k)),
    decreases text.len() - k,
{
    if k < text.len() {
        assert(text.drop_last().take(k) =~= text.take(k));
        lemma_digits_error_sticks(text.drop_last(), k);
    } else {
        assert(text.take(k) =~= text);
    }
}

/// Once a field is no number, no more fields make the list one of numbers.
pub proof fn lemma_numbers_error_sticks(fields: Seq<Seq<char>>, k: int)
    requires
        0 <= k <= fields.len(),
        numbers_of(fields.take(k)) is Err,
    ensures
        numbers_of(fields) == numbers_of(fields.take(k)),
    decreases fields.len() - k,
{
    if k < fields.len() {
        assert(fields.drop_last().take(k) =~= fields.take(k));
        lemma_numbers_error_sticks(fields.drop_last(), k);
    } else {
        assert(fields.take(k) =~= fields);
    }
}

/// Tells white space from other characters.
pub fn space(c: char) -> (yes: bool)
    ensures
        yes == is_space(c),
{
    let n: u32 = c as u32;
    (0x9 <= n && n <= 0xd) || n == 0x20 || n == 0x85 || n == 0xa0 || n == 0x1680 || (0x2000 <= n
        && n <= 0x200a) || n == 0x2028 || n == 0x2029 || n == 0x202f || n == 0x205f || n
        == 0x3000
}

/// The characters of `s`.
pub fn chars_of(s: &str) -> (chars: Vec<char>)
    ensures
        chars@ == s@,
{
    let n: usize = s.unicode_len();
    let mut chars: Vec<char> = Vec::new();
    let mut k: usize = 0;
    while k < n
        invariant
            n == s@.len(),
            k <= n,
            chars@ == s@.take(k as int),
        decreases n - k,
    {
        chars.push(s.get_char(k));
        assert(chars@ =~= s@.take(k + 1));
        k += 1;
    }
    assert(s@.take(n as int) =~= s@);
    chars
}

/// Finds the first `c` in `chars`; the length of `chars` where it holds none.
pub fn find_first(chars: &Vec<char>, c: char) -> (at: usize)
    ensures
        at == find_char(chars@, c, 0),
        at <= chars@.len(),
{
    let mut k: usize = 0;
    while k < chars.len()
        invariant
            k <= chars.len(),
            find_char(chars@, c, 0) == find_char(chars@, c, k as int),
        decreases chars.len() - k,
    {
        if chars[k] == c {
            return k;
        }
        k += 1;
    }
    k
}

/// Marks the part of `chars[lo..hi]` that is left without the white space
/// around it.
pub fn trim_range(chars: &Vec<char>, lo: usize, hi: usize) -> (kept: (usize, usize))
    requires
        lo <= hi <= chars@.len(),
    ensures
        lo <= kept.0 <= kept.1 <= hi,
        chars@.subrange(kept.0 as int, kept.1 as int) == trimmed(
            chars@.subrange(lo as int, hi as int),
        ),
{
    let mut a: usize = lo;
    while a < hi && space(chars[a])
        invariant
            lo <= a <= hi <= chars@.len(),
            trim_start(chars@.subrange(lo as int, hi as int)) == trim_start(
                chars@.subrange(a as int, hi as int),
            ),
        decreases hi - a,
    {
        assert(chars@.subrange(a as int, hi as int).drop_first() =~= chars@.subrange(
            a + 1,
            hi as int,
        ));
        a += 1;
    }
    let mut b: usize = hi;
    while b > a && space(chars[b - 1])
        invariant
            a <= b <= hi <= chars@.len(),
            trim_end(chars@.subrange(a as int, hi as int)) == trim_end(
                chars@.subrange(a as int, b as int),
            ),
        decreases b - a,
    {
        assert(chars@.subrange(a as int, b as int).drop_last() =~= chars@.subrange(
            a as int,
            b - 1,
        ));
        b -= 1;
    }
    (a, b)
}

/// Reads `chars[lo..hi]` as a number.
pub fn parse_number(chars: &Vec<char>, lo: usize, hi: usize) -> (number: Result<u32, ParseError>)
    requires
        lo <= hi <= chars@.len(),
    ensures
        number == number_of(chars@.subrange(lo as int, hi as int)),
{
    let ghost text = chars@.subrange(lo as int, hi as int);
    if lo == hi {
        return Err(ParseError::EmptyNumber);
    }
    let mut start: usize = lo;
    if chars[lo] == '+' {
        if hi - lo == 1 {
            return Err(ParseError::InvalidDigit);
        }
        start = lo + 1;
        assert(text.drop_first() =~= chars@.subrange(start as int, hi as int));
    }
    let ghost digits = chars@.subrange(start as int, hi as int);
    assert(number_of(text) == digits_value(digits));
    let mut value: u32 = 0;
    let mut k: usize = start;
    assert(digits.take(0) =~= Seq::<char>::empty());
    while k < hi
        invariant
            start <= k <= hi <= chars@.len(),
            digits == chars@.subrange(start as int, hi as int),
            number_of(chars@.subrange(lo as int, hi as int)) == digits_value(digits),
            digits_value(digits.take(k - start)) == Ok::<u32, ParseError>(value),
        decreases hi - k,
    {
        let c: char = chars[k];
        let code: u32 = c as u32;
        let ghost seen = digits.take(k + 1 - start);
        assert(seen.drop_last() =~= digits.take(k - start));
        assert(seen.last() == c);
        if code < 0x30 || code > 0x39 {
            proof {
                lemma_digits_error_sticks(digits, k + 1 - start);
            }
            return Err(ParseError::InvalidDigit);
        }
        let next: Option<u32> = match value.checked_mul(10) {
            Some(tens) => tens.checked_add(code - 0x30),
            None => None,
        };
        match next {
            Some(v) => {
                value = v;
            },
            None => {
                proof {
                    lemma_digits_error_sticks(digits, k + 1 - start);
                }
                return Err(ParseError::NumberTooLarge);
            },
        }
        k += 1;
    }
    assert(digits.take(hi - start) =~= digits);
    Ok(value)
}

/// Marks the fields of `chars[lo..hi]`: the parts between its commas.
pub fn split_fields(chars: &Vec<char>, lo: usize, hi: usize) -> (ranges: Vec<(usize, usize)>)
    requires
        lo <= hi <= chars@.len(),
    ensures
        in_bounds(ranges@, chars@.len()),
        cut(chars@, ranges@) == fields_of(chars@.subrange(lo as int, hi as int)),
{
    let mut ranges: Vec<(usize, usize)> = Vec::new();
    let mut start: usize = lo;
    let mut k: usize = lo;
    assert(chars@.subrange(lo as int, lo as int) =~= Seq::<char>::empty());
    assert(cut(chars@, ranges@).push(chars@.subrange(start as int, k as int)) =~= seq![
        Seq::<char>::empty(),
    ]);
    while k < hi
        invariant
            lo <= start <= k <= hi <= chars@.len(),
            in_bounds(ranges@, chars@.len()),
            fields_of(chars@.subrange(lo as int, k as int)) == cut(chars@, ranges@).push(
                chars@.subrange(start as int, k as int),
            ),
        decreases hi - k,
    {
        let ghost seen = chars@.subrange(lo as int, k + 1);
        let ghost done = cut(chars@, ranges@);
        let ghost open = chars@.subrange(start as int, k as int);
        assert(seen.drop_last() =~= chars@.subrange(lo as int, k as int));
        assert(seen.last() == chars@[k as int]);
        assert(done.push(open).drop_last() =~= done);
        if chars[k] == ',' {
            ranges.push((start, k));
            start = k + 1;
            assert(cut(chars@, ranges@) =~= done.push(open));
            assert(chars@.subrange(start as int, k + 1) =~= Seq::<char>::empty());
        } else {
            assert(chars@.subrange(start as int, k + 1) =~= open.push(chars@[k as int]));
        }
        k += 1;
    }
    let ghost done = cut(chars@, ranges@);
    ranges.push((start, hi));
    assert(cut(chars@, ranges@) =~= done.push(chars@.subrange(start as int, hi as int)));
    ranges
}

/// Reads each of the marked fields of `chars` as a number, without the white
/// space around it.
pub fn parse_fields(chars: &Vec<char>, ranges: &Vec<(usize, usize)>) -> (numbers: Result<
    Vec<u32>,
    ParseError,
>)
    requires
        in_bounds(ranges@, chars@.len()),
    ensures
        numbers matches Ok(v) ==> numbers_of(cut(chars@, ranges@)) == Ok::<Seq<u32>, ParseError>(
            v@,
        ),
        numbers matches Err(e) ==> numbers_of(cut(chars@, ranges@)) == Err::<
            Seq<u32>,
            ParseError,
        >(e),
{
    let ghost fields = cut(chars@, ranges@);
    let mut values: Vec<u32> = Vec::new();
    let mut k: usize = 0;
    assert(fields.take(0) =~= Seq::<Seq<char>>::empty());
    while k < ranges.len()
        invariant
            k <= ranges.len(),
            in_bounds(ranges@, chars@.len()),
            fields == cut(chars@, ranges@),
            numbers_of(fields.take(k as int)) == Ok::<Seq<u32>, ParseError>(values@),
        decreases ranges.len() - k,
    {
        let lo: usize = ranges[k].0;
        let hi: usize = ranges[k].1;
        let kept: (usize, usize) = trim_range(chars, lo, hi);
        let ghost seen = fields.take(k + 1);
        assert(seen.drop_last() =~= fields.take(k as int));
        assert(seen.last() == chars@.subrange(lo as int, hi as int));
        match parse_number(chars, kept.0, kept.1) {
            Ok(n) => {
                values.push(n);
            },
            Err(e) => {
                proof {
                    lemma_numbers_error_sticks(fields, k + 1);
                }
                return Err(e);
            },
        }
        k += 1;
    }
    assert(fields.take(ranges@.len() as int) =~= fields);
    Ok(values)
}

} // verus!
