//! Lines, tokens and numbers of Wavefront OBJ text.
//!
//! The text is read as bytes. A line ends at a line feed; within a line,
//! tokens are the longest runs of bytes free of white space, where white
//! space is every character with the Unicode property `White_Space`, in its
//! UTF-8 encoding.

use vstd::prelude::*;

verus! {

/// Length in bytes of the white-space character that starts at index `i`
/// of `s`, or 0 where none starts there.
pub open spec fn space_len(s: Seq<u8>, i: int) -> int {
    if !(0 <= i < s.len()) {
        0
    } else if s[i] == 0x20 || (0x09 <= s[i] <= 0x0D) {
        1
    } else if s[i] == 0xC2 && i + 1 < s.len() && (s[i + 1] == 0x85 || s[i + 1] == 0xA0) {
        2
    } else if i + 2 < s.len() && {
        ||| s[i] == 0xE1 && s[i + 1] == 0x9A && s[i + 2] == 0x80
        ||| s[i] == 0xE2 && s[i + 1] == 0x80 && (0x80 <= s[i + 2] <= 0x8A || s[i + 2] == 0xA8
            || s[i + 2] == 0xA9 || s[i + 2] == 0xAF)
        ||| s[i] == 0xE2 && s[i + 1] == 0x81 && s[i + 2] == 0x9F
        ||| s[i] == 0xE3 && s[i + 1] == 0x80 && s[i + 2] == 0x80
    } {
        3
    } else {
        0
    }
}

/// Index of the first line feed at or after `from`, or the length of `s`.
pub open spec fn line_end(s: Seq<u8>, from: int) -> int
    decreases s.len() - from,
{
    if from >= s.len() {
        s.len() as int
    } else if s[from] == 0x0A {
        from
    } else {
        line_end(s, from + 1)
    }
}

/// First index at or after `i`, and not past `end`, where no white-space
/// character starts.
pub open spec fn skip_space(s: Seq<u8>, i: int, end: int) -> int
    decreases end - i,
{
    if 0 <= i < end <= s.len() {
        let n = space_len(s.subrange(0, end), i);
        if 0 < n && i + n <= end {
            skip_space(s, i + n, end)
        } else {
            i
        }
    } else {
        i
    }
}

/// First index at or after `i` where the token that holds `i` ends: `end`,
/// or the start of a white-space character.
pub open spec fn token_end(s: Seq<u8>, i: int, end: int) -> int
    decreases end - i,
{
    if 0 <= i < end <= s.len() && space_len(s.subrange(0, end), i) == 0 {
        token_end(s, i + 1, end)
    } else {
        i
    }
}

/// The tokens of `s` between `i` and `end`, as pairs of where each starts
/// and ends.
pub open spec fn token_spans(s: Seq<u8>, i: int, end: int) -> Seq<(int, int)>
    decreases end - i,
{
    let start = skip_space(s, i, end);
    if 0 <= i <= start < end <= s.len() {
        let stop = token_end(s, start + 1, end);
        if start < stop <= end {
            seq![(start, stop)] + token_spans(s, stop, end)
        } else {
            Seq::empty()
        }
    } else {
        Seq::empty()
    }
}

/// The tokens of the line of `s` that runs from `start` to `end`.
pub open spec fn tokens_of(s: Seq<u8>, start: int, end: int) -> Seq<Seq<u8>> {
    token_spans(s, start, end).map_values(|span: (int, int)| s.subrange(span.0, span.1))
}

pub open spec fn is_digit(b: u8) -> bool {
    0x30 <= b <= 0x39
}

pub open spec fn all_digits(s: Seq<u8>) -> bool {
    forall|i: int| 0 <= i < s.len() ==> is_digit(#[trigger] s[i])
}

/// The number that a string of decimal digits writes.
pub open spec fn decimal_value(digits: Seq<u8>) -> nat
    decreases digits.len(),
{
    if digits.len() == 0 {
        0
    } else {
        10 * decimal_value(digits.drop_last()) + (digits.last() - 0x30) as nat
    }
}

/// A token without a leading plus sign.
pub open spec fn unsigned_part(token: Seq<u8>) -> Seq<u8> {
    if token.len() > 0 && token[0] == 0x2B {
        token.subrange(1, token.len() as int)
    } else {
        token
    }
}

/// The index a token writes: an optional plus sign and one or more decimal
/// digits, of a value that fits the machine word. `None` for anything else.
pub open spec fn index_of(token: Seq<u8>) -> Option<usize> {
    let digits = unsigned_part(token);
    if digits.len() > 0 && all_digits(digits) && decimal_value(digits) <= usize::MAX {
        Some(decimal_value(digits) as usize)
    } else {
        None
    }
}

/// An ASCII letter in lower case, any other byte as it is.
pub open spec fn lower(b: u8) -> u8 {
    if 0x41 <= b <= 0x5A {
        (b + 0x20) as u8
    } else {
        b
    }
}

/// True where `token`, lowercased, is `word`.
pub open spec fn is_word(token: Seq<u8>, word: Seq<u8>) -> bool {
    token.len() == word.len() && forall|i: int|
        0 <= i < token.len() ==> lower(#[trigger] token[i]) == word[i]
}

/// First index at or after `i` of `s` that holds no digit.
pub open spec fn digits_end(s: Seq<u8>, i: int) -> int
    decreases s.len() - i,
{
    if 0 <= i < s.len() && is_digit(s[i]) {
        digits_end(s, i + 1)
    } else {
        i
    }
}

pub open spec fn is_sign(b: u8) -> bool {
    b == 0x2B || b == 0x2D
}

/// True where `s` is a decimal number without sign: digits with at most
/// one point among them, at least one digit in all, and then possibly an
/// exponent, which is an `e`, an optional sign and one or more digits.
pub open spec fn is_decimal(s: Seq<u8>) -> bool {
    let whole_end = digits_end(s, 0);
    let has_point = whole_end < s.len() && s[whole_end] == 0x2E;
    let fraction_start = if has_point {
        whole_end + 1
    } else {
        whole_end
    };
    let fraction_end = digits_end(s, fraction_start);
    let digit_count = whole_end + (fraction_end - fraction_start);
    digit_count > 0 && (fraction_end == s.len() || (fraction_end < s.len() && lower(s[fraction_end])
        == 0x65 && {
        let exponent_start = if fraction_end + 1 < s.len() && is_sign(s[fraction_end + 1]) {
            fraction_end + 2
        } else {
            fraction_end + 1
        };
        exponent_start < s.len() && digits_end(s, exponent_start) == s.len()
    }))
}

/// A token without a leading sign.
pub open spec fn sign_free(token: Seq<u8>) -> Seq<u8> {
    if token.len() > 0 && is_sign(token[0]) {
        token.subrange(1, token.len() as int)
    } else {
        token
    }
}

/// True where `token` writes a number: an optional sign, then `inf`,
/// `infinity` or `nan` in any case of letters, or a decimal number.
pub open spec fn is_number(token: Seq<u8>) -> bool {
    let body = sign_free(token);
    ||| is_word(body, seq![0x69u8, 0x6Eu8, 0x66u8])
    ||| is_word(body, seq![0x69u8, 0x6Eu8, 0x66u8, 0x69u8, 0x6Eu8, 0x69u8, 0x74u8, 0x79u8])
    ||| is_word(body, seq![0x6Eu8, 0x61u8, 0x6Eu8])
    ||| is_decimal(body)
}

/// Finds the end of the line that starts at `from`.
pub fn find_line_end(bytes: &[u8], from: usize) -> (end: usize)
    requires
        from <= bytes@.len(),
    ensures
        end == line_end(bytes@, from as int),
        from <= end <= bytes@.len(),
        end < bytes@.len() ==> bytes@[end as int] == 0x0A,
{
    let mut i: usize = from;
    while i < bytes.len() && bytes[i] != 0x0A
        invariant
            from <= i <= bytes@.len(),
            line_end(bytes@, from as int) == line_end(bytes@, i as int),
        decreases bytes@.len() - i,
    {
        i += 1;
    }
    i
}

/// Length of the white-space character at `i` of the line that ends at
/// `end`, or 0.
pub fn space_at(bytes: &[u8], i: usize, end: usize) -> (n: usize)
    requires
        i <= end <= bytes@.len(),
    ensures
        n == space_len(bytes@.subrange(0, end as int), i as int),
        n <= 3,
        i + n <= end,
{
    let ghost line = bytes@.subrange(0, end as int);
    if i >= end {
        return 0;
    }
    let b: u8 = bytes[i];
    assert(line[i as int] == b);
    if b == 0x20 || (0x09 <= b && b <= 0x0D) {
        return 1;
    }
    if end - i >= 2 {
        let c: u8 = bytes[i + 1];
        assert(line[i + 1] == c);
        if b == 0xC2 && (c == 0x85 || c == 0xA0) {
            return 2;
        }
        if end - i >= 3 {
            let d: u8 = bytes[i + 2];
            assert(line[i + 2] == d);
            if (b == 0xE1 && c == 0x9A && d == 0x80) || (b == 0xE2 && c == 0x80 && ((0x80 <= d && d
                <= 0x8A) || d == 0xA8 || d == 0xA9 || d == 0xAF)) || (b == 0xE2 && c == 0x81 && d
                == 0x9F) || (b == 0xE3 && c == 0x80 && d == 0x80) {
                return 3;
            }
        }
    }
    0
}

/// Splits the line from `start` to `end` into its tokens.
pub fn split_tokens(bytes: &[u8], start: usize, end: usize) -> (spans: Vec<(usize, usize)>)
    requires
        start <= end <= bytes@.len(),
    ensures
        spans@.len() == token_spans(bytes@, start as int, end as int).len(),
        forall|k: int|
            0 <= k < spans@.len() ==> {
                &&& (#[trigger] spans@[k]).0 == token_spans(bytes@, start as int, end as int)[k].0
                &&& spans@[k].1 == token_spans(bytes@, start as int, end as int)[k].1
                &&& start <= spans@[k].0 < spans@[k].1 <= end
            },
{
    let mut spans: Vec<(usize, usize)> = Vec::new();
    let mut i: usize = start;
    let ghost all = token_spans(bytes@, start as int, end as int);
    loop
        invariant
            start <= i <= end <= bytes@.len(),
            all == token_spans(bytes@, start as int, end as int),
            spans@.len() <= all.len(),
            all =~= all.subrange(0, spans@.len() as int) + token_spans(bytes@, i as int, end as int),
            forall|k: int|
                0 <= k < spans@.len() ==> {
                    &&& (#[trigger] spans@[k]).0 == all[k].0
                    &&& spans@[k].1 == all[k].1
                    &&& start <= spans@[k].0 < spans@[k].1 <= end
                },
        ensures
            spans@.len() == all.len(),
            forall|k: int|
                0 <= k < spans@.len() ==> {
                    &&& (#[trigger] spans@[k]).0 == all[k].0
                    &&& spans@[k].1 == all[k].1
                    &&& start <= spans@[k].0 < spans@[k].1 <= end
                },
        decreases end - i,
    {
        let ghost from = i;
        // Skip the white space before the next token.
        loop
            invariant
                from <= i <= end <= bytes@.len(),
                skip_space(bytes@, from as int, end as int) == skip_space(
                    bytes@,
                    i as int,
                    end as int,
                ),
            ensures
                from <= i <= end,
                i == skip_space(bytes@, from as int, end as int),
            decreases end - i,
        {
            let n = space_at(bytes, i, end);
            if n == 0 {
                break;
            }
            i += n;
        }
        if i >= end {
            assert(token_spans(bytes@, from as int, end as int) =~= Seq::<(int, int)>::empty());
            break;
        }
        let token_start: usize = i;
        i += 1;
        loop
            invariant
                token_start < i <= end <= bytes@.len(),
                token_end(bytes@, token_start + 1, end as int) == token_end(
                    bytes@,
                    i as int,
                    end as int,
                ),
            ensures
                token_start < i <= end,
                i == token_end(bytes@, token_start + 1, end as int),
            decreases end - i,
        {
            if i >= end {
                break;
            }
            let n = space_at(bytes, i, end);
            if n != 0 {
                break;
            }
            i += 1;
        }
        proof {
            let rest = token_spans(bytes@, i as int, end as int);
            assert(token_spans(bytes@, from as int, end as int) =~= seq![
                (token_start as int, i as int),
            ] + rest);
            let done = spans@.len() as int;
            assert(all.subrange(0, done + 1) =~= all.subrange(0, done).push(
                (token_start as int, i as int),
            ));
            assert(all =~= all.subrange(0, done + 1) + rest);
        }
        spans.push((token_start, i));
    }
    spans
}

/// A longer string of digits writes no smaller a number than any of its
/// beginnings.
pub proof fn lemma_decimal_value_grows(digits: Seq<u8>, k: int)
    requires
        0 <= k <= digits.len(),
    ensures
        decimal_value(digits.subrange(0, k)) <= decimal_value(digits),
    decreases digits.len() - k,
{
    if k < digits.len() {
        lemma_decimal_value_grows(digits, k + 1);
        assert(digits.subrange(0, k + 1).drop_last() =~= digits.subrange(0, k));
    } else {
        assert(digits.subrange(0, k) =~= digits);
    }
}

/// Reads the token from `start` to `end` as an index.
pub fn parse_index(bytes: &[u8], start: usize, end: usize) -> (r: Option<usize>)
    requires
        start <= end <= bytes@.len(),
    ensures
        r == index_of(bytes@.subrange(start as int, end as int)),
{
    let ghost token = bytes@.subrange(start as int, end as int);
    let first: usize = if start < end && bytes[start] == 0x2B {
        start + 1
    } else {
        start
    };
    let ghost digits = unsigned_part(token);
    assert(digits =~= bytes@.subrange(first as int, end as int));
    if first == end {
        return None;
    }
    let mut value: usize = 0;
    let mut i: usize = first;
    while i < end
        invariant
            start <= first <= i <= end <= bytes@.len(),
            digits == bytes@.subrange(first as int, end as int),
            digits == unsigned_part(bytes@.subrange(start as int, end as int)),
            all_digits(digits.subrange(0, i - first)),
            value == decimal_value(digits.subrange(0, i - first)),
        decreases end - i,
    {
        let b: u8 = bytes[i];
        assert(digits[i - first] == b);
        if !(0x30 <= b && b <= 0x39) {
            assert(!is_digit(digits[i - first]));
            return None;
        }
        proof {
            let longer = digits.subrange(0, i - first + 1);
            assert(longer.drop_last() =~= digits.subrange(0, i - first));
            assert(longer.last() == b);
            assert(decimal_value(longer) == 10 * value + (b - 0x30));
            lemma_decimal_value_grows(digits, i - first + 1);
            assert forall|k: int| 0 <= k < longer.len() implies is_digit(#[trigger] longer[k]) by {
                if k < i - first {
                    assert(digits.subrange(0, i - first)[k] == longer[k]);
                }
            }
        }
        let scaled: usize = match value.checked_mul(10) {
            Some(scaled) => scaled,
            None => {
                return None;
            },
        };
        value = match scaled.checked_add((b - 0x30) as usize) {
            Some(next) => next,
            None => {
                return None;
            },
        };
        i += 1;
    }
    assert(digits.subrange(0, end - first) =~= digits);
    Some(value)
}

fn lower_byte(b: u8) -> (r: u8)
    ensures
        r == lower(b),
{
    if 0x41 <= b && b <= 0x5A {
        b + 0x20
    } else {
        b
    }
}

/// Finds where the digits that start at `i` end.
fn scan_digits(bytes: &[u8], base: usize, i: usize, end: usize) -> (j: usize)
    requires
        base <= i <= end <= bytes@.len(),
    ensures
        i <= j <= end,
        j - base == digits_end(bytes@.subrange(base as int, end as int), i - base),
{
    let ghost body = bytes@.subrange(base as int, end as int);
    let mut j: usize = i;
    while j < end && 0x30 <= bytes[j] && bytes[j] <= 0x39
        invariant
            i <= j <= end <= bytes@.len(),
            base <= i,
            body == bytes@.subrange(base as int, end as int),
            digits_end(body, i - base) == digits_end(body, j - base),
        decreases end - j,
    {
        assert(body[j - base] == bytes@[j as int]);
        j += 1;
    }
    assert(j < end ==> body[j - base] == bytes@[j as int]);
    j
}

/// Decides whether the bytes from `base` to `end`, lowercased, are the
/// first `n` bytes of `word`.
fn matches_word(bytes: &[u8], base: usize, end: usize, word: &[u8; 8], n: usize) -> (r: bool)
    requires
        base <= end <= bytes@.len(),
        n <= 8,
    ensures
        r == is_word(bytes@.subrange(base as int, end as int), word@.subrange(0, n as int)),
{
    let ghost body = bytes@.subrange(base as int, end as int);
    let ghost wanted = word@.subrange(0, n as int);
    if end - base != n {
        return false;
    }
    let mut k: usize = 0;
    while k < n
        invariant
            k <= n <= 8,
            base + n == end,
            end <= bytes@.len(),
            body == bytes@.subrange(base as int, end as int),
            wanted == word@.subrange(0, n as int),
            forall|m: int| 0 <= m < k ==> lower(#[trigger] body[m]) == wanted[m],
        decreases n - k,
    {
        let b = lower_byte(bytes[base + k]);
        assert(body[k as int] == bytes@[base + k]);
        assert(wanted[k as int] == word@[k as int]);
        if b != word[k] {
            return false;
        }
        k += 1;
    }
    true
}

/// Decides whether the bytes from `base` to `end` are a decimal number
/// without sign.
fn is_decimal_token(bytes: &[u8], base: usize, end: usize) -> (r: bool)
    requires
        base <= end <= bytes@.len(),
    ensures
        r == is_decimal(bytes@.subrange(base as int, end as int)),
{
    let ghost body = bytes@.subrange(base as int, end as int);
    assert(forall|k: int| 0 <= k < body.len() ==> body[k] == bytes@[base + k]);
    let whole_end = scan_digits(bytes, base, base, end);
    let has_point: bool = whole_end < end && bytes[whole_end] == 0x2E;
    let fraction_start: usize = if has_point {
        whole_end + 1
    } else {
        whole_end
    };
    let fraction_end = scan_digits(bytes, base, fraction_start, end);
    let digit_count: usize = (whole_end - base) + (fraction_end - fraction_start);
    if digit_count == 0 {
        return false;
    }
    if fraction_end == end {
        return true;
    }
    if lower_byte(bytes[fraction_end]) != 0x65 {
        return false;
    }
    let exponent_start: usize = if end - fraction_end >= 2 && (bytes[fraction_end + 1] == 0x2B
        || bytes[fraction_end + 1] == 0x2D) {
        fraction_end + 2
    } else {
        fraction_end + 1
    };
    if exponent_start >= end {
        return false;
    }
    let exponent_end = scan_digits(bytes, base, exponent_start, end);
    exponent_end == end
}

/// Decides whether the token from `start` to `end` writes a number.
pub fn is_number_token(bytes: &[u8], start: usize, end: usize) -> (r: bool)
    requires
        start <= end <= bytes@.len(),
    ensures
        r == is_number(bytes@.subrange(start as int, end as int)),
{
    let ghost token = bytes@.subrange(start as int, end as int);
    let base: usize = if start < end && (bytes[start] == 0x2B || bytes[start] == 0x2D) {
        start + 1
    } else {
        start
    };
    assert(sign_free(token) =~= bytes@.subrange(base as int, end as int));
    let infinity: [u8; 8] = [0x69, 0x6E, 0x66, 0x69, 0x6E, 0x69, 0x74, 0x79];
    let nan: [u8; 8] = [0x6E, 0x61, 0x6E, 0, 0, 0, 0, 0];
    proof {
        assert(infinity@.subrange(0, 3) =~= seq![0x69u8, 0x6Eu8, 0x66u8]);
        assert(infinity@.subrange(0, 8) =~= seq![
            0x69u8,
            0x6Eu8,
            0x66u8,
            0x69u8,
            0x6Eu8,
            0x69u8,
            0x74u8,
            0x79u8,
        ]);
        assert(nan@.subrange(0, 3) =~= seq![0x6Eu8, 0x61u8, 0x6Eu8]);
    }
    matches_word(bytes, base, end, &infinity, 3) || matches_word(bytes, base, end, &infinity, 8)
        || matches_word(bytes, base, end, &nan, 3) || is_decimal_token(bytes, base, end)
}

} // verus!