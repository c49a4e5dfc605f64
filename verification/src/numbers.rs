//! Page numbers as a user writes them: numbers separated by commas, as in
//! `1, 3`. What is no number is passed over.

use vstd::prelude::*;
use vstd::string::StrSliceExecFns;

verus! {

/// Whether `c` is white space, as Unicode defines it.
pub open spec fn is_space(c: char) -> bool {
    let code = c as u32;
    ||| 0x09 <= code <= 0x0d
    ||| code == 0x20
    ||| code == 0x85
    ||| code == 0xa0
    ||| code == 0x1680
    ||| 0x2000 <= code <= 0x200a
    ||| code == 0x2028
    ||| code == 0x2029
    ||| code == 0x202f
    ||| code == 0x205f
    ||| code == 0x3000
}

/// Whether `c` is a decimal digit.
pub open spec fn is_digit(c: char) -> bool {
    '0' <= c <= '9'
}

/// The number that a string of decimal digits stands for.
pub open spec fn digits_value(digits: Seq<char>) -> int
    decreases digits.len(),
{
    if digits.len() == 0 {
        0
    } else {
        digits_value(digits.drop_last()) * 10 + (digits.last() as u32 - '0' as u32)
    }
}

/// The text without the white space in front of it.
pub open spec fn trimmed_start(text: Seq<char>) -> Seq<char>
    decreases text.len(),
{
    if text.len() > 0 && is_space(text[0]) {
        trimmed_start(text.skip(1))
    } else {
        text
    }
}

/// The text without the white space behind it.
pub open spec fn trimmed_end(text: Seq<char>) -> Seq<char>
    decreases text.len(),
{
    if text.len() > 0 && is_space(text.last()) {
        trimmed_end(text.drop_last())
    } else {
        text
    }
}

/// The number that unsigned digits stand for: there is at least one digit,
/// there is nothing but digits, and the number fits.
pub open spec fn unsigned_number(digits: Seq<char>) -> Option<u32> {
    if digits.len() > 0 && (forall|i: int| 0 <= i < digits.len() ==> is_digit(#[trigger] digits[i]))
        && digits_value(digits) <= u32::MAX {
        Some(digits_value(digits) as u32)
    } else {
        None
    }
}

/// The number that a text stands for, if it stands for one: a plus sign
/// may stand in front of the digits.
pub open spec fn plain_number(text: Seq<char>) -> Option<u32> {
    if text.len() > 0 && text[0] == '+' {
        unsigned_number(text.skip(1))
    } else {
        unsigned_number(text)
    }
}

/// The number that a field stands for, if it stands for one: white space
/// around it does not count.
pub open spec fn field_number(field: Seq<char>) -> Option<u32> {
    plain_number(trimmed_end(trimmed_start(field)))
}

/// The page after which to insert, as a user has written it: 0, which is
/// in front of all pages, where the text is no number.
pub open spec fn position(text: Seq<char>) -> u32 {
    match plain_number(text) {
        Some(number) => number,
        None => 0,
    }
}

/// The index of the first comma, or the length of the text if it holds
/// none.
pub open spec fn first_comma(text: Seq<char>) -> int
    decreases text.len(),
{
    if text.len() == 0 || text[0] == ',' {
        0
    } else {
        1 + first_comma(text.skip(1))
    }
}

/// The numbers that the fields of the text stand for, in order. The fields
/// are what stands between the commas.
pub open spec fn page_numbers(text: Seq<char>) -> Seq<u32>
    decreases text.len(),
{
    let end = first_comma(text);
    let first = match field_number(text.take(end)) {
        Some(number) => seq![number],
        None => Seq::empty(),
    };
    if 0 <= end < text.len() {
        first + page_numbers(text.skip(end + 1))
    } else {
        first
    }
}

/// The first comma stands where no comma stands before.
pub proof fn lemma_first_comma(text: Seq<char>, end: int)
    requires
        0 <= end <= text.len(),
        forall|i: int| 0 <= i < end ==> text[i] != ',',
        end < text.len() ==> text[end] == ',',
    ensures
        first_comma(text) == end,
    decreases text.len(),
{
    if end > 0 {
        lemma_first_comma(text.skip(1), end - 1);
    }
}

/// Leading white space ends at the first character that is none.
pub proof fn lemma_trimmed_start(text: Seq<char>, start: int)
    requires
        0 <= start <= text.len(),
        forall|i: int| 0 <= i < start ==> is_space(#[trigger] text[i]),
        start < text.len() ==> !is_space(text[start]),
    ensures
        trimmed_start(text) == text.skip(start),
    decreases text.len(),
{
    if start > 0 {
        lemma_trimmed_start(text.skip(1), start - 1);
        assert(text.skip(1).skip(start - 1) =~= text.skip(start));
    } else {
        assert(text.skip(0) =~= text);
    }
}

/// Trailing white space starts behind the last character that is none.
pub proof fn lemma_trimmed_end(text: Seq<char>, end: int)
    requires
        0 <= end <= text.len(),
        forall|i: int| end <= i < text.len() ==> is_space(#[trigger] text[i]),
        end > 0 ==> !is_space(text[end - 1]),
    ensures
        trimmed_end(text) == text.take(end),
    decreases text.len(),
{
    if end < text.len() {
        lemma_trimmed_end(text.drop_last(), end);
        assert(text.drop_last().take(end) =~= text.take(end));
    } else {
        assert(text.take(end) =~= text);
    }
}

/// More digits do not make a smaller number.
pub proof fn lemma_digits_grow(digits: Seq<char>, n: int)
    requires
        0 <= n <= digits.len(),
        forall|i: int| 0 <= i < digits.len() ==> is_digit(#[trigger] digits[i]),
    ensures
        0 <= digits_value(digits.take(n)) <= digits_value(digits),
    decreases digits.len() - n,
{
    if n == digits.len() {
        assert(digits.take(n) =~= digits);
        lemma_digits_not_negative(digits);
    } else {
        lemma_digits_grow(digits, n + 1);
        assert(digits.take(n + 1).drop_last() =~= digits.take(n));
        assert(is_digit(digits[n]));
    }
}

/// Digits stand for a number that is not negative.
pub proof fn lemma_digits_not_negative(digits: Seq<char>)
    requires
        forall|i: int| 0 <= i < digits.len() ==> is_digit(#[trigger] digits[i]),
    ensures
        0 <= digits_value(digits),
    decreases digits.len(),
{
    if digits.len() > 0 {
        lemma_digits_not_negative(digits.drop_last());
        assert(is_digit(digits[digits.len() - 1]));
    }
}

/// Whether `c` is white space.
pub fn space(c: char) -> (yes: bool)
    ensures
        yes == is_space(c),
{
    let code: u32 = c as u32;
    (0x09 <= code && code <= 0x0d) || code == 0x20 || code == 0x85 || code == 0xa0 || code
        == 0x1680 || (0x2000 <= code && code <= 0x200a) || code == 0x2028 || code == 0x2029
        || code == 0x202f || code == 0x205f || code == 0x3000
}

/// Reads the digits that stand in `text` from `start` up to `end`.
pub fn read_unsigned(text: &Vec<char>, start: usize, end: usize) -> (number: Option<u32>)
    requires
        start <= end <= text.len(),
    ensures
        number == unsigned_number(text@.subrange(start as int, end as int)),
{
    let ghost digits = text@.subrange(start as int, end as int);
    if start == end {
        return None;
    }
    let mut value: u64 = 0;
    let mut i: usize = start;
    while i < end
        invariant
            start <= i <= end <= text.len(),
            digits == text@.subrange(start as int, end as int),
            forall|k: int| 0 <= k < i - start ==> is_digit(#[trigger] digits[k]),
            value == digits_value(digits.take(i - start)),
            value <= u32::MAX,
        decreases end - i,
    {
        let c = text[i];
        assert(c == digits[i - start]);
        if !('0' <= c && c <= '9') {
            return None;
        }
        assert(digits.take(i - start + 1).drop_last() =~= digits.take(i - start));
        value = value * 10 + (c as u32 - '0' as u32) as u64;
        i = i + 1;
        if value > 0xffff_ffff {
            proof {
                if forall|k: int| 0 <= k < digits.len() ==> is_digit(#[trigger] digits[k]) {
                    lemma_digits_grow(digits, i - start);
                }
            }
            return None;
        }
    }
    assert(digits.take(i - start) =~= digits);
    Some(value as u32)
}

/// Reads the number that stands in `text` from `start` up to `end`, with
/// or without a plus sign.
pub fn read_number(text: &Vec<char>, start: usize, end: usize) -> (number: Option<u32>)
    requires
        start <= end <= text.len(),
    ensures
        number == plain_number(text@.subrange(start as int, end as int)),
{
    if start < end && text[start] == '+' {
        assert(text@.subrange(start as int, end as int).skip(1) =~= text@.subrange(
            start + 1,
            end as int,
        ));
        read_unsigned(text, start + 1, end)
    } else {
        read_unsigned(text, start, end)
    }
}

/// Reads the number that the field from `start` up to `end` stands for.
pub fn read_field(text: &Vec<char>, start: usize, end: usize) -> (number: Option<u32>)
    requires
        start <= end <= text.len(),
    ensures
        number == field_number(text@.subrange(start as int, end as int)),
{
    let ghost field = text@.subrange(start as int, end as int);
    let mut first: usize = start;
    while first < end && space(text[first])
        invariant
            start <= first <= end <= text.len(),
            forall|k: int| start <= k < first ==> is_space(#[trigger] text@[k]),
        decreases end - first,
    {
        first = first + 1;
    }
    let mut last: usize = end;
    while last > first && space(text[last - 1])
        invariant
            first <= last <= end <= text.len(),
            forall|k: int| last <= k < end ==> is_space(#[trigger] text@[k]),
        decreases last,
    {
        last = last - 1;
    }
    proof {
        assert forall|i: int| 0 <= i < first - start implies is_space(#[trigger] field[i]) by {
            assert(is_space(text@[start + i]));
        }
        lemma_trimmed_start(field, first - start);
        let rest = field.skip(first - start);
        assert(rest =~= text@.subrange(first as int, end as int));
        assert forall|i: int| last - first <= i < rest.len() implies is_space(#[trigger] rest[i]) by {
            assert(is_space(text@[first + i]));
        }
        lemma_trimmed_end(rest, last - first);
        assert(rest.take(last - first) =~= text@.subrange(first as int, last as int));
    }
    read_number(text, first, last)
}

/// Reads the page numbers that the characters of `text` hold.
pub fn read_page_numbers(text: &Vec<char>) -> (numbers: Vec<u32>)
    ensures
        numbers@ == page_numbers(text@),
{
    let mut numbers: Vec<u32> = Vec::new();
    let mut start: usize = 0;
    assert(text@.skip(0) =~= text@);
    loop
        invariant
            start <= text.len(),
            page_numbers(text@) == numbers@ + page_numbers(text@.skip(start as int)),
        decreases text.len() - start,
    {
        let mut end: usize = start;
        while end < text.len() && text[end] != ','
            invariant
                start <= end <= text.len(),
                forall|k: int| start <= k < end ==> text@[k] != ',',
            decreases text.len() - end,
        {
            end = end + 1;
        }
        let ghost rest = text@.skip(start as int);
        proof {
            lemma_first_comma(rest, end - start);
            assert(rest.take(end - start) =~= text@.subrange(start as int, end as int));
            if end < text.len() {
                assert(rest.skip(end - start + 1) =~= text@.skip(end + 1));
            }
        }
        let ghost before = numbers@;
        match read_field(text, start, end) {
            Some(number) => {
                numbers.push(number);
                assert(numbers@ =~= before + seq![number]);
            },
            None => {
                assert(numbers@ =~= before + Seq::<u32>::empty());
            },
        }
        if end == text.len() {
            assert(numbers@ + Seq::<u32>::empty() =~= numbers@);
            return numbers;
        }
        proof {
            let first = match field_number(rest.take(end - start)) {
                Some(number) => seq![number],
                None => Seq::<u32>::empty(),
            };
            assert(before + (first + page_numbers(text@.skip(end + 1))) =~= (before + first)
                + page_numbers(text@.skip(end + 1)));
        }
        start = end + 1;
    }
}

/// The characters of a text.
pub fn characters(text: &str) -> (list: Vec<char>)
    ensures
        list@ == text@,
{
    let length: usize = text.unicode_len();
    let mut list: Vec<char> = Vec::new();
    let mut i: usize = 0;
    while i < length
        invariant
            i <= length,
            length == text@.len(),
            list@ == text@.take(i as int),
        decreases length - i,
    {
        list.push(text.get_char(i));
        i = i + 1;
        assert(list@ =~= text@.take(i as int));
    }
    assert(text@.take(i as int) =~= text@);
    list
}

/// Reads the page numbers that a user has written, separated by commas:
/// `"1, 3"` gives 1 and 3. A field that is no number, or a number that is
/// too large, is passed over.
pub fn parse_page_numbers(text: &str) -> (numbers: Vec<u32>)
    ensures
        numbers@ == page_numbers(text@),
{
    let list = characters(text);
    read_page_numbers(&list)
}

/// Reads the page after which to insert, as a user has written it; 0 where
/// the text is no number.
pub fn parse_position(text: &str) -> (after_page: u32)
    ensures
        after_page == position(text@),
{
    let list = characters(text);
    assert(list@.subrange(0, list@.len() as int) =~= list@);
    match read_number(&list, 0, list.len()) {
        Some(number) => number,
        None => 0,
    }
}

} // verus!
