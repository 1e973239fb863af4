//! Character-level building blocks of the tokenizer: white space, searching,
//! trimming, splitting, and decimal numbers in both directions.

use vstd::prelude::*;

verus! {

/// `String::push` appends the character to the end of the string: the
/// string then holds what it held, followed by `c`. Taken from the
/// standard library's documentation, not proved.
pub assume_specification[ String::push ](text: &mut String, c: char)
    ensures
        final(text)@ == old(text)@.push(c),
;

/// The lowercase form of a text under Unicode's case mapping, as
/// `str::to_lowercase` computes it. Unicode's tables decide what it is, so
/// it has a name here and no definition.
pub uninterp spec fn lowercase_of(text: Seq<char>) -> Seq<char>;

/// `str::to_lowercase` returns the lowercase equivalent of the string
/// slice as a new `String`. The result depends on the characters of the
/// slice and on nothing else; that much is taken from the standard
/// library's documentation, not proved.
pub assume_specification[ str::to_lowercase ](text: &str) -> (lowered: String)
    ensures
        lowered@ == lowercase_of(text@),
;

/// The characters with Unicode's `White_Space` property.
pub open spec fn is_whitespace(c: char) -> bool {
    let code = c as u32;
    ||| 0x09 <= code <= 0x0D
    ||| code == 0x20
    ||| code == 0x85
    ||| code == 0xA0
    ||| code == 0x1680
    ||| 0x2000 <= code <= 0x200A
    ||| code == 0x2028
    ||| code == 0x2029
    ||| code == 0x202F
    ||| code == 0x205F
    ||| code == 0x3000
}

/// Position of the first `c` in `s`, or the length of `s` if it has none.
pub open spec fn index_of(s: Seq<char>, c: char) -> nat
    decreases s.len(),
{
    if s.len() == 0 || s[0] == c {
        0
    } else {
        1 + index_of(s.drop_first(), c)
    }
}

/// Position of the first white space in `s`, or the length of `s`.
pub open spec fn first_whitespace(s: Seq<char>) -> nat
    decreases s.len(),
{
    if s.len() == 0 || is_whitespace(s[0]) {
        0
    } else {
        1 + first_whitespace(s.drop_first())
    }
}

/// `s` without its leading white space.
pub open spec fn trim_start(s: Seq<char>) -> Seq<char>
    decreases s.len(),
{
    if s.len() > 0 && is_whitespace(s[0]) {
        trim_start(s.drop_first())
    } else {
        s
    }
}

/// `s` without its trailing white space.
pub open spec fn trim_end(s: Seq<char>) -> Seq<char>
    decreases s.len(),
{
    if s.len() > 0 && is_whitespace(s.last()) {
        trim_end(s.drop_last())
    } else {
        s
    }
}

/// `s` without leading and trailing white space.
pub open spec fn trimmed(s: Seq<char>) -> Seq<char> {
    trim_end(trim_start(s))
}

/// The pieces of `s` between occurrences of `sep`: one more than there are
/// separators, empty pieces included.
pub open spec fn split(s: Seq<char>, sep: char) -> Seq<Seq<char>>
    decreases s.len(),
{
    let k = index_of(s, sep);
    if k < s.len() {
        seq![s.take(k as int)] + split(s.skip((k + 1) as int), sep)
    } else {
        seq![s]
    }
}

/// The lines of a text: what stands between its line feeds.
pub open spec fn lines(text: Seq<char>) -> Seq<Seq<char>> {
    split(text, '\n')
}

/// The decimal digits.
pub open spec fn is_digit(c: char) -> bool {
    '0' <= c <= '9'
}

/// The number a decimal digit stands for.
pub open spec fn digit_value(c: char) -> nat {
    (c as u32 - '0' as u32) as nat
}

/// The digit that stands for a number below ten.
pub open spec fn digit(d: nat) -> char {
    seq!['0', '1', '2', '3', '4', '5', '6', '7', '8', '9'][d as int]
}

/// The number that a run of decimal digits spells.
pub open spec fn decimal_value(digits: Seq<char>) -> nat
    decreases digits.len(),
{
    if digits.len() == 0 {
        0
    } else {
        10 * decimal_value(digits.drop_last()) + digit_value(digits.last())
    }
}

/// How many decimal digits `s` starts with.
pub open spec fn leading_digits(s: Seq<char>) -> nat
    decreases s.len(),
{
    if s.len() == 0 || !is_digit(s[0]) {
        0
    } else {
        1 + leading_digits(s.drop_first())
    }
}

/// The decimal spelling of a number, without leading zeros.
pub open spec fn decimal(n: nat) -> Seq<char>
    decreases n,
{
    if n < 10 {
        seq![digit(n)]
    } else {
        decimal(n / 10).push(digit(n % 10))
    }
}

/// Why a text is not the spelling of a number that fits in eight bits.
#[derive(Debug, Clone, Copy, PartialEq, Eq)]
pub enum IntErrorKind {
    /// The text is empty.
    Empty,
    /// A character is no decimal digit, or a sign stands alone.
    InvalidDigit,
    /// The digits spell a number above 255.
    PosOverflow,
}

/// The number that `text` spells: an optional `+`, then decimal digits and
/// nothing else. Reading from the left, the first offence decides the error,
/// and a digit that takes the number past 255 is one.
pub open spec fn parsed_u8(text: Seq<char>) -> Result<u8, IntErrorKind> {
    let digits = if text.len() > 0 && text[0] == '+' {
        text.skip(1)
    } else {
        text
    };
    let run = digits.take(leading_digits(digits) as int);
    if text.len() == 0 {
        Err(IntErrorKind::Empty)
    } else if digits.len() == 0 {
        Err(IntErrorKind::InvalidDigit)
    } else if decimal_value(run) > 255 {
        Err(IntErrorKind::PosOverflow)
    } else if run.len() < digits.len() {
        Err(IntErrorKind::InvalidDigit)
    } else {
        Ok(decimal_value(run) as u8)
    }
}

/// `index_of` finds the first position at which `c` stands.
pub proof fn lemma_index_of(s: Seq<char>, c: char, k: int)
    requires
        0 <= k <= s.len(),
        forall|j: int| 0 <= j < k ==> s[j] != c,
        k < s.len() ==> s[k] == c,
    ensures
        index_of(s, c) == k,
    decreases s.len(),
{
    if k > 0 {
        lemma_index_of(s.drop_first(), c, k - 1);
    }
}

/// What `index_of` returns is within `s`, no `c` stands before it, and `c`
/// stands at it unless `s` has none.
pub proof fn lemma_index_of_is_first(s: Seq<char>, c: char)
    ensures
        index_of(s, c) <= s.len(),
        forall|j: int| 0 <= j < index_of(s, c) ==> s[j] != c,
        index_of(s, c) < s.len() ==> s[index_of(s, c) as int] == c,
    decreases s.len(),
{
    if !(s.len() == 0 || s[0] == c) {
        lemma_index_of_is_first(s.drop_first(), c);
        assert forall|j: int| 0 <= j < index_of(s, c) implies s[j] != c by {
            if j > 0 {
                assert(s[j] == s.drop_first()[j - 1]);
            }
        }
    }
}

/// `first_whitespace` finds the first position at which white space stands.
pub proof fn lemma_first_whitespace(s: Seq<char>, k: int)
    requires
        0 <= k <= s.len(),
        forall|j: int| 0 <= j < k ==> !is_whitespace(s[j]),
        k < s.len() ==> is_whitespace(s[k]),
    ensures
        first_whitespace(s) == k,
    decreases s.len(),
{
    if k > 0 {
        lemma_first_whitespace(s.drop_first(), k - 1);
    }
}

/// `leading_digits` is the length of the longest run of digits `s` starts with.
pub proof fn lemma_leading_digits(s: Seq<char>, k: int)
    requires
        0 <= k <= s.len(),
        forall|j: int| 0 <= j < k ==> is_digit(s[j]),
        k < s.len() ==> !is_digit(s[k]),
    ensures
        leading_digits(s) == k,
    decreases s.len(),
{
    if k > 0 {
        lemma_leading_digits(s.drop_first(), k - 1);
    }
}

/// The digits that `s` starts with are within `s`, and are digits.
pub proof fn lemma_leading_digits_are_digits(s: Seq<char>)
    ensures
        leading_digits(s) <= s.len(),
        forall|j: int| 0 <= j < leading_digits(s) ==> is_digit(s[j]),
    decreases s.len(),
{
    if !(s.len() == 0 || !is_digit(s[0])) {
        lemma_leading_digits_are_digits(s.drop_first());
        assert forall|j: int| 0 <= j < leading_digits(s) implies is_digit(s[j]) by {
            if j > 0 {
                assert(s[j] == s.drop_first()[j - 1]);
            }
        }
    }
}

/// A longer run of digits spells no smaller a number.
pub proof fn lemma_decimal_value_grows(digits: Seq<char>, shorter: int)
    requires
        0 <= shorter <= digits.len(),
    ensures
        decimal_value(digits.take(shorter)) <= decimal_value(digits),
    decreases digits.len(),
{
    if shorter < digits.len() {
        lemma_decimal_value_grows(digits.drop_last(), shorter);
        assert(digits.drop_last().take(shorter) =~= digits.take(shorter));
    } else {
        assert(digits.take(shorter) =~= digits);
    }
}

/// Tells whether `c` is white space.
pub fn whitespace(c: char) -> (yes: bool)
    ensures
        yes == is_whitespace(c),
{
    let code = c as u32;
    (0x09 <= code && code <= 0x0D) || code == 0x20 || code == 0x85 || code == 0xA0 || code
        == 0x1680 || (0x2000 <= code && code <= 0x200A) || code == 0x2028 || code == 0x2029
        || code == 0x202F || code == 0x205F || code == 0x3000
}

/// Finds the first `c` in `chars[from..to]`; returns `to` if there is none.
pub(crate) fn find_char(chars: &Vec<char>, from: usize, to: usize, c: char) -> (at: usize)
    requires
        from <= to <= chars.len(),
    ensures
        from <= at <= to,
        at - from == index_of(chars@.subrange(from as int, to as int), c),
{
    let mut at = from;
    while at < to && chars[at] != c
        invariant
            from <= at <= to <= chars.len(),
            forall|j: int| from <= j < at ==> chars@[j] != c,
        decreases to - at,
    {
        at += 1;
    }
    proof {
        lemma_index_of(chars@.subrange(from as int, to as int), c, at - from);
    }
    at
}

/// Finds the first white space in `chars[from..to]`; returns `to` if there
/// is none.
pub(crate) fn find_whitespace(chars: &Vec<char>, from: usize, to: usize) -> (at: usize)
    requires
        from <= to <= chars.len(),
    ensures
        from <= at <= to,
        at - from == first_whitespace(chars@.subrange(from as int, to as int)),
{
    let mut at = from;
    while at < to && !whitespace(chars[at])
        invariant
            from <= at <= to <= chars.len(),
            forall|j: int| from <= j < at ==> !is_whitespace(chars@[j]),
        decreases to - at,
    {
        at += 1;
    }
    proof {
        lemma_first_whitespace(chars@.subrange(from as int, to as int), at - from);
    }
    at
}

/// Narrows `chars[from..to]` to what is left once the white space at both
/// ends is gone.
pub(crate) fn trim(chars: &Vec<char>, from: usize, to: usize) -> (bounds: (usize, usize))
    requires
        from <= to <= chars.len(),
    ensures
        from <= bounds.0 <= bounds.1 <= to,
        chars@.subrange(bounds.0 as int, bounds.1 as int) == trimmed(
            chars@.subrange(from as int, to as int),
        ),
{
    let mut start = from;
    while start < to && whitespace(chars[start])
        invariant
            from <= start <= to <= chars.len(),
            trim_start(chars@.subrange(from as int, to as int)) == trim_start(
                chars@.subrange(start as int, to as int),
            ),
        decreases to - start,
    {
        assert(chars@.subrange(start as int, to as int).drop_first() =~= chars@.subrange(
            start + 1,
            to as int,
        ));
        start += 1;
    }
    let mut end = to;
    while start < end && whitespace(chars[end - 1])
        invariant
            start <= end <= to <= chars.len(),
            trim_end(chars@.subrange(start as int, to as int)) == trim_end(
                chars@.subrange(start as int, end as int),
            ),
        decreases end - start,
    {
        assert(chars@.subrange(start as int, end as int).drop_last() =~= chars@.subrange(
            start as int,
            end - 1,
        ));
        end -= 1;
    }
    (start, end)
}

/// Copies `chars[from..to]` into a string.
pub(crate) fn text_of(chars: &Vec<char>, from: usize, to: usize) -> (text: String)
    requires
        from <= to <= chars.len(),
    ensures
        text@ == chars@.subrange(from as int, to as int),
{
    let mut text = String::new();
    let mut at = from;
    while at < to
        invariant
            from <= at <= to <= chars.len(),
            text@ == chars@.subrange(from as int, at as int),
        decreases to - at,
    {
        text.push(chars[at]);
        at += 1;
    }
    text
}

/// The characters of a string slice, in order.
pub(crate) fn chars_of(text: &str) -> (chars: Vec<char>)
    ensures
        chars@ == text@,
{
    let mut chars: Vec<char> = Vec::new();
    for c in it: text.chars()
        invariant
            chars@ == it.seq().take(it.index()),
            it.seq() == text@,
    {
        chars.push(c);
    }
    chars
}

/// Reads an eight-bit number from its decimal spelling.
#[verifier::loop_isolation(false)]
pub fn parse_u8(text: &str) -> (number: Result<u8, IntErrorKind>)
    ensures
        number == parsed_u8(text@),
{
    let chars = chars_of(text);
    if chars.len() == 0 {
        return Err(IntErrorKind::Empty);
    }
    let first: usize = if chars[0] == '+' {
        1
    } else {
        0
    };
    if first == chars.len() {
        return Err(IntErrorKind::InvalidDigit);
    }
    let ghost digits = if text@[0] == '+' {
        text@.skip(1)
    } else {
        text@
    };
    let ghost run = digits.take(leading_digits(digits) as int);
    proof {
        lemma_leading_digits_are_digits(digits);
        lemma_leading_digits_stops(digits);
    }
    let mut value: u16 = 0;
    let mut at = first;
    while at < chars.len()
        invariant
            first <= at <= chars.len(),
            chars@ == text@,
            digits.len() == chars.len() - first,
            forall|j: int| 0 <= j < digits.len() ==> digits[j] == chars@[j + first],
            forall|j: int| 0 <= j < at - first ==> is_digit(digits[j]),
            value == decimal_value(digits.take(at - first)),
            value <= 255,
        decreases chars.len() - at,
    {
        let c = chars[at];
        if !('0' <= c && c <= '9') {
            proof {
                lemma_leading_digits(digits, at - first);
            }
            return Err(IntErrorKind::InvalidDigit);
        }
        let ghost longer = digits.take(at - first + 1);
        assert(longer.drop_last() =~= digits.take(at - first));
        value = value * 10 + (c as u32 - '0' as u32) as u16;
        if value > 255 {
            proof {
                assert(run.take(at - first + 1) =~= longer);
                lemma_decimal_value_grows(run, at - first + 1);
            }
            return Err(IntErrorKind::PosOverflow);
        }
        at += 1;
    }
    proof {
        lemma_leading_digits(digits, digits.len() as int);
    }
    Ok(value as u8)
}

/// A character stands right behind the digits that `s` starts with only if
/// it is no digit.
pub proof fn lemma_leading_digits_stops(s: Seq<char>)
    ensures
        leading_digits(s) < s.len() ==> !is_digit(s[leading_digits(s) as int]),
    decreases s.len(),
{
    if !(s.len() == 0 || !is_digit(s[0])) {
        lemma_leading_digits_stops(s.drop_first());
    }
}

/// The digit for a number below ten.
pub(crate) fn digit_char(d: u8) -> (c: char)
    requires
        d < 10,
    ensures
        c == digit(d as nat),
{
    if d == 0 {
        '0'
    } else if d == 1 {
        '1'
    } else if d == 2 {
        '2'
    } else if d == 3 {
        '3'
    } else if d == 4 {
        '4'
    } else if d == 5 {
        '5'
    } else if d == 6 {
        '6'
    } else if d == 7 {
        '7'
    } else if d == 8 {
        '8'
    } else {
        '9'
    }
}

/// Appends the decimal spelling of `n` to `text`.
pub(crate) fn push_decimal(text: &mut String, n: usize)
    ensures
        final(text)@ == old(text)@ + decimal(n as nat),
    decreases n,
{
    if n >= 10 {
        push_decimal(text, n / 10);
    }
    text.push(digit_char((n % 10) as u8));
}

/// A text of nothing but white space trims to nothing.
pub proof fn lemma_trim_of_whitespace(s: Seq<char>)
    requires
        forall|j: int| 0 <= j < s.len() ==> is_whitespace(s[j]),
    ensures
        trimmed(s).len() == 0,
    decreases s.len(),
{
    if s.len() > 0 {
        lemma_trim_of_whitespace(s.drop_first());
    }
}

/// The pieces of two texts joined by a separator are the pieces of the
/// first, then those of the second.
pub proof fn lemma_split_of_joined(before: Seq<char>, after: Seq<char>, sep: char)
    ensures
        split(before + seq![sep] + after, sep) == split(before, sep) + split(after, sep),
    decreases before.len(),
{
    let joined = before + seq![sep] + after;
    let k = index_of(before, sep);
    lemma_index_of_is_first(before, sep);
    lemma_index_of(joined, sep, k as int);
    if k < before.len() {
        let rest = before.skip((k + 1) as int);
        assert(joined.take(k as int) =~= before.take(k as int));
        assert(joined.skip((k + 1) as int) =~= rest + seq![sep] + after);
        lemma_split_of_joined(rest, after, sep);
    } else {
        assert(joined.take(k as int) =~= before);
        assert(joined.skip((k + 1) as int) =~= after);
    }
}

} // verus!
