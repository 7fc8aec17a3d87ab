//! Text: whole numbers written out and read in decimal, and the splitting and
//! trimming of delimited text.

use vstd::prelude::*;

verus! {

/// The character of a decimal digit.
pub open spec fn digit_char(d: nat) -> char {
    if d == 0 {
        '0'
    } else if d == 1 {
        '1'
    } else if d == 2 {
        '2'
    } else if d == 3 {
        '3'
    } else if d == 4 {
        '4'
    } else if d == 5 {
        '5'
    } else if d == 6 {
        '6'
    } else if d == 7 {
        '7'
    } else if d == 8 {
        '8'
    } else {
        '9'
    }
}

/// A natural number in decimal, without leading zeros.
pub open spec fn decimal(n: nat) -> Seq<char>
    decreases n,
{
    if n < 10 {
        seq![digit_char(n)]
    } else {
        decimal(n / 10).push(digit_char(n % 10))
    }
}

/// A whole number in decimal, with a minus sign where it is negative.
pub open spec fn signed_decimal(n: int) -> Seq<char> {
    if n < 0 {
        seq!['-'] + decimal((-n) as nat)
    } else {
        decimal(n as nat)
    }
}

/// One decimal digit as text.
fn digit_text(d: u8) -> (text: &'static str)
    requires
        d < 10,
    ensures
        text@ == seq![digit_char(d as nat)],
{
    proof {
        reveal_strlit("0");
        reveal_strlit("1");
        reveal_strlit("2");
        reveal_strlit("3");
        reveal_strlit("4");
        reveal_strlit("5");
        reveal_strlit("6");
        reveal_strlit("7");
        reveal_strlit("8");
        reveal_strlit("9");
    }
    let text = match d {
        0 => "0",
        1 => "1",
        2 => "2",
        3 => "3",
        4 => "4",
        5 => "5",
        6 => "6",
        7 => "7",
        8 => "8",
        _ => "9",
    };
    assert(text@ =~= seq![digit_char(d as nat)]);
    text
}

/// Appends a natural number in decimal.
pub fn push_decimal(text: &mut String, n: u128)
    ensures
        final(text)@ == old(text)@ + decimal(n as nat),
    decreases n,
{
    if n >= 10 {
        push_decimal(text, n / 10);
    }
    let ghost before = text@;
    text.append(digit_text((n % 10) as u8));
    proof {
        if n >= 10 {
            assert(before.push(digit_char((n % 10) as nat)) =~= old(text)@ + decimal(
                (n / 10) as nat,
            ).push(digit_char((n % 10) as nat)));
        }
        assert(text@ =~= before.push(digit_char((n % 10) as nat)));
    }
}

/// Appends a whole number in decimal.
pub fn push_signed_decimal(text: &mut String, n: i64)
    ensures
        final(text)@ == old(text)@ + signed_decimal(n as int),
{
    if n < 0 {
        proof {
            reveal_strlit("-");
        }
        text.append("-");
        let ghost signed = text@;
        assert(signed =~= old(text)@ + seq!['-']);
        let magnitude: u128 = (-(n as i128)) as u128;
        push_decimal(text, magnitude);
        assert(text@ =~= old(text)@ + (seq!['-'] + decimal((-n) as nat)));
    } else {
        push_decimal(text, n as u128);
    }
}

/// A natural number in decimal.
pub fn decimal_text(n: u128) -> (text: String)
    ensures
        text@ == decimal(n as nat),
{
    let mut text = String::new();
    push_decimal(&mut text, n);
    assert(Seq::<char>::empty() + decimal(n as nat) =~= decimal(n as nat));
    text
}

/// The values of a sequence of texts.
pub open spec fn text_views(texts: Seq<String>) -> Seq<Seq<char>> {
    texts.map_values(|t: String| t@)
}

/// The value of a text that may be absent.
pub open spec fn optional_text(text: Option<String>) -> Option<Seq<char>> {
    match text {
        Some(t) => Some(t@),
        None => None,
    }
}

/// The value of a string slice that may be absent.
pub open spec fn optional_slice(text: Option<&str>) -> Option<Seq<char>> {
    match text {
        Some(t) => Some(t@),
        None => None,
    }
}

/// The characters of a text.
pub fn chars_of(text: &str) -> (chars: Vec<char>)
    ensures
        chars@ == text@,
{
    let mut chars: Vec<char> = Vec::new();
    for c in it: text.chars()
        invariant
            it.seq() == text@,
            chars@ == text@.take(it.index() as int),
    {
        chars.push(c);
    }
    chars
}

/// The pieces of a text between the occurrences of a separator. A text
/// without the separator is one piece, and so is the empty text.
pub open spec fn split(text: Seq<char>, separator: char) -> Seq<Seq<char>>
    decreases text.len(),
{
    if text.len() == 0 {
        seq![Seq::empty()]
    } else {
        let before = split(text.drop_last(), separator);
        if text.last() == separator {
            before.push(Seq::empty())
        } else {
            before.drop_last().push(before.last().push(text.last()))
        }
    }
}

/// Executable form of [`split`].
pub fn split_text(text: &str, separator: char) -> (pieces: Vec<String>)
    ensures
        text_views(pieces@) == split(text@, separator),
        pieces.len() >= 1,
{
    let chars = chars_of(text);
    let mut pieces: Vec<String> = Vec::new();
    let mut start: usize = 0;
    let mut i: usize = 0;
    assert(text_views(pieces@).push(text@.subrange(0, 0)) =~~= split(text@.take(0), separator));
    while i < chars.len()
        invariant
            chars@ == text@,
            start <= i <= chars.len(),
            split(text@.take(i as int), separator) == text_views(pieces@).push(
                text@.subrange(start as int, i as int),
            ),
        decreases chars.len() - i,
    {
        let ghost done = text_views(pieces@);
        proof {
            assert(text@.take(i + 1).drop_last() =~= text@.take(i as int));
            assert(text@.take(i + 1).last() == text@[i as int]);
            assert(done.push(text@.subrange(start as int, i as int)).drop_last() =~= done);
        }
        if chars[i] == separator {
            let piece = String::from_str(text.substring_char(start, i));
            pieces.push(piece);
            proof {
                assert(text_views(pieces@) =~= done.push(text@.subrange(start as int, i as int)));
                assert(text@.subrange(i + 1, i + 1) =~= Seq::<char>::empty());
            }
            start = i + 1;
        } else {
            proof {
                assert(text@.subrange(start as int, i as int).push(text@[i as int])
                    =~= text@.subrange(start as int, i + 1));
            }
        }
        i += 1;
    }
    let ghost done = text_views(pieces@);
    let piece = String::from_str(text.substring_char(start, i));
    pieces.push(piece);
    proof {
        assert(text@.take(i as int) =~= text@);
        assert(text_views(pieces@) =~= done.push(text@.subrange(start as int, i as int)));
    }
    pieces
}

/// Whether a character is white space, as Unicode defines it.
pub open spec fn is_white_space(c: char) -> bool {
    let code = c as u32;
    ||| 0x09 <= code <= 0x0D
    ||| code == 0x20
    ||| code == 0x85
    ||| code == 0xA0
    ||| code == 0x1680
    ||| 0x2000 <= code <= 0x200A
    ||| code == 0x2028
    ||| code == 0x2029
    ||| code == 0x202F
    ||| code == 0x205F
    ||| code == 0x3000
}

/// Executable form of [`is_white_space`].
pub fn white_space(c: char) -> (yes: bool)
    ensures
        yes == is_white_space(c),
{
    let code = c as u32;
    (0x09 <= code && code <= 0x0D) || code == 0x20 || code == 0x85 || code == 0xA0 || code
        == 0x1680 || (0x2000 <= code && code <= 0x200A) || code == 0x2028 || code == 0x2029
        || code == 0x202F || code == 0x205F || code == 0x3000
}

/// A text without the white space it begins with.
pub open spec fn trimmed_start(text: Seq<char>) -> Seq<char>
    decreases text.len(),
{
    if text.len() > 0 && is_white_space(text[0]) {
        trimmed_start(text.skip(1))
    } else {
        text
    }
}

/// A text without the white space it ends with.
pub open spec fn trimmed_end(text: Seq<char>) -> Seq<char>
    decreases text.len(),
{
    if text.len() > 0 && is_white_space(text.last()) {
        trimmed_end(text.drop_last())
    } else {
        text
    }
}

/// A text without the white space it begins and ends with.
pub open spec fn trimmed(text: Seq<char>) -> Seq<char> {
    trimmed_end(trimmed_start(text))
}

/// Executable form of [`trimmed`].
pub fn trim_text(text: &str) -> (kept: &str)
    ensures
        kept@ == trimmed(text@),
{
    let chars = chars_of(text);
    let mut from: usize = 0;
    assert(text@.skip(0) =~= text@);
    while from < chars.len() && white_space(chars[from])
        invariant
            chars@ == text@,
            from <= chars.len(),
            trimmed_start(text@) == trimmed_start(text@.skip(from as int)),
        decreases chars.len() - from,
    {
        assert(text@.skip(from as int).skip(1) =~= text@.skip(from + 1));
        from += 1;
    }
    let ghost rest = text@.skip(from as int);
    assert(trimmed_start(text@) == rest);
    let mut to: usize = chars.len();
    assert(rest.take(to - from) =~= rest);
    while to > from && white_space(chars[to - 1])
        invariant
            chars@ == text@,
            from <= to <= chars.len(),
            rest == text@.skip(from as int),
            trimmed_end(rest) == trimmed_end(rest.take(to - from)),
        decreases to,
    {
        assert(rest.take(to - from).drop_last() =~= rest.take(to - from - 1));
        assert(rest.take(to - from).last() == text@[to - 1]);
        to -= 1;
    }
    assert(rest.take(to - from) =~= text@.subrange(from as int, to as int));
    assert(trimmed_end(rest.take(to - from)) == rest.take(to - from)) by {
        if to > from {
            assert(rest.take(to - from).last() == text@[to - 1]);
        }
    }
    text.substring_char(from, to)
}

/// The value of a decimal digit.
pub open spec fn digit_value(c: char) -> Option<nat> {
    if '0' <= c <= '9' {
        Some((c as u32 - '0' as u32) as nat)
    } else {
        None
    }
}

/// The value of a run of decimal digits, as far as it is one; the empty run
/// is worth nothing.
pub open spec fn digits_value(text: Seq<char>) -> Option<nat>
    decreases text.len(),
{
    if text.len() == 0 {
        Some(0)
    } else {
        match (digits_value(text.drop_last()), digit_value(text.last())) {
            (Some(high), Some(low)) => Some(high * 10 + low),
            _ => None,
        }
    }
}

/// A text read as a 32-bit natural number in decimal: digits only, after an
/// optional plus sign, one digit at least, and a value within range.
pub open spec fn parsed_u32(text: Seq<char>) -> Option<u32> {
    let digits = if text.len() > 0 && text[0] == '+' {
        text.skip(1)
    } else {
        text
    };
    if digits.len() == 0 {
        None
    } else {
        match digits_value(digits) {
            Some(value) => if value <= u32::MAX {
                Some(value as u32)
            } else {
                None
            },
            None => None,
        }
    }
}

/// A run of digits is worth no less than any run it begins with.
proof fn lemma_digits_value_grows(text: Seq<char>, n: int)
    requires
        0 <= n <= text.len(),
        digits_value(text) is Some,
    ensures
        digits_value(text.take(n)) is Some,
        digits_value(text.take(n))->0 <= digits_value(text)->0,
    decreases text.len(),
{
    if n == text.len() {
        assert(text.take(n) =~= text);
    } else {
        assert(text.drop_last().take(n) =~= text.take(n));
        lemma_digits_value_grows(text.drop_last(), n);
    }
}

/// A run that begins with something other than digits is not worth
/// anything.
proof fn lemma_digits_value_fails(text: Seq<char>, n: int)
    requires
        0 <= n <= text.len(),
        digits_value(text.take(n)) is None,
    ensures
        digits_value(text) is None,
{
    if digits_value(text) is Some {
        lemma_digits_value_grows(text, n);
    }
}

/// Executable form of [`parsed_u32`].
pub fn parse_u32(text: &str) -> (parsed: Option<u32>)
    ensures
        parsed == parsed_u32(text@),
{
    let chars = chars_of(text);
    let first: usize = if chars.len() > 0 && chars[0] == '+' {
        1
    } else {
        0
    };
    if first == chars.len() {
        return None;
    }
    let ghost digits = text@.skip(first as int);
    assert(text@.skip(0) =~= text@);
    let mut value: u64 = 0;
    let mut i: usize = first;
    assert(digits.take(0) =~= Seq::<char>::empty());
    while i < chars.len()
        invariant
            chars@ == text@,
            first <= i <= chars.len(),
            digits == text@.skip(first as int),
            digits.len() > 0,
            digits == if text@.len() > 0 && text@[0] == '+' {
                text@.skip(1)
            } else {
                text@
            },
            digits_value(digits.take(i - first)) == Some(value as nat),
            value <= u32::MAX,
        decreases chars.len() - i,
    {
        let c = chars[i];
        proof {
            assert(digits.take(i - first + 1).drop_last() =~= digits.take(i - first));
            assert(digits.take(i - first + 1).last() == c);
        }
        if c < '0' || c > '9' {
            proof {
                lemma_digits_value_fails(digits, i - first + 1);
            }
            return None;
        }
        let low = (c as u32 - '0' as u32) as u64;
        value = value * 10 + low;
        if value > u32::MAX as u64 {
            proof {
                if digits_value(digits) is Some {
                    lemma_digits_value_grows(digits, i - first + 1);
                }
            }
            return None;
        }
        i += 1;
    }
    assert(digits.take(i - first) =~= digits);
    Some(value as u32)
}

} // verus!
