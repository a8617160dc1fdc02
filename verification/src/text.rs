//! Text as sequences of characters and of UTF-16 units.

use vstd::prelude::*;

verus! {

/// `String::push` appends one character.
pub assume_specification[ String::push ](text: &mut String, character: char)
    ensures
        final(text)@ == old(text)@.push(character),
;

/// The UTF-16 units of one character: itself, or a pair of surrogates.
pub open spec fn utf16_units(character: char) -> Seq<u16> {
    let code = character as int;
    if code < 0x1_0000 {
        seq![code as u16]
    } else {
        seq![
            (0xd800 + (code - 0x1_0000) / 0x400) as u16,
            (0xdc00 + (code - 0x1_0000) % 0x400) as u16,
        ]
    }
}

/// The UTF-16 units of a text.
pub open spec fn utf16(text: Seq<char>) -> Seq<u16>
    decreases text.len(),
{
    if text.len() == 0 {
        seq![]
    } else {
        utf16(text.drop_last()) + utf16_units(text.last())
    }
}

/// No two texts have the same UTF-16 units.
pub proof fn lemma_utf16_is_unique(left: Seq<char>, right: Seq<char>)
    requires
        utf16(left) == utf16(right),
    ensures
        left == right,
    decreases left.len(),
{
    if left.len() == 0 || right.len() == 0 {
        lemma_utf16_length(left);
        lemma_utf16_length(right);
        assert(left =~= right);
    } else {
        let left_units = utf16_units(left.last());
        let right_units = utf16_units(right.last());
        let left_rest = utf16(left.drop_last());
        let right_rest = utf16(right.drop_last());
        assert(utf16(left).last() == left_units.last());
        assert(utf16(right).last() == right_units.last());
        lemma_units_are_unique(left.last(), right.last());
        assert(left_rest =~= utf16(left).take(left_rest.len() as int));
        assert(right_rest =~= utf16(right).take(right_rest.len() as int));
        assert(left_units =~= utf16(left).skip(left_rest.len() as int));
        assert(right_units =~= utf16(right).skip(right_rest.len() as int));
        lemma_utf16_is_unique(left.drop_last(), right.drop_last());
        assert(left =~= left.drop_last().push(left.last()));
        assert(right =~= right.drop_last().push(right.last()));
    }
}

proof fn lemma_units_are_unique(left: char, right: char)
    ensures
        utf16_units(left).last() == utf16_units(right).last() ==> utf16_units(left).len()
            == utf16_units(right).len(),
        utf16_units(left) == utf16_units(right) ==> left == right,
{
    let a = left as u32;
    let b = right as u32;
    assert(a <= 0x10_ffff && !(0xd800 <= a <= 0xdfff));
    assert(b <= 0x10_ffff && !(0xd800 <= b <= 0xdfff));
    if utf16_units(left) == utf16_units(right) {
        assert(utf16_units(left)[0] == utf16_units(right)[0]);
        assert(utf16_units(left).last() == utf16_units(right).last());
        assert(a == b);
    }
}

proof fn lemma_utf16_length(text: Seq<char>)
    ensures
        utf16(text).len() >= text.len(),
    decreases text.len(),
{
    if text.len() > 0 {
        lemma_utf16_length(text.drop_last());
    }
}

/// A UTF-16 unit with the capital letters A to Z made small.
pub open spec fn lower_unit(unit: u16) -> u16 {
    if 65 <= unit <= 90 {
        (unit + 32) as u16
    } else {
        unit
    }
}

/// Two texts in UTF-16 are equal when the case of A to Z is ignored.
pub open spec fn same_ignoring_case(left: Seq<u16>, right: Seq<u16>) -> bool {
    &&& left.len() == right.len()
    &&& forall|i: int|
        0 <= i < left.len() ==> lower_unit(#[trigger] left[i]) == lower_unit(right[i])
}

/// A character with the capital letters A to Z made small.
pub open spec fn lower_char(character: char) -> char {
    if 'A' <= character <= 'Z' {
        (character as int + 32) as char
    } else {
        character
    }
}

/// Two texts are equal when the case of A to Z is ignored.
pub open spec fn same_text_ignoring_case(left: Seq<char>, right: Seq<char>) -> bool {
    &&& left.len() == right.len()
    &&& forall|i: int|
        0 <= i < left.len() ==> lower_char(#[trigger] left[i]) == lower_char(right[i])
}

/// `part` stands at `start` of `text` when the case of A to Z is ignored.
pub open spec fn part_at(text: Seq<u16>, part: Seq<u16>, start: int) -> bool {
    &&& 0 <= start
    &&& start + part.len() <= text.len()
    &&& same_ignoring_case(text.subrange(start, start + part.len()), part)
}

/// `part` occurs in `text` when the case of A to Z is ignored.
pub open spec fn has_part(text: Seq<u16>, part: Seq<u16>) -> bool {
    exists|start: int| part_at(text, part, start)
}

/// The units before the first NUL, or all of them if there is none.
pub open spec fn until_nul(units: Seq<u16>) -> Seq<u16>
    decreases units.len(),
{
    if units.len() == 0 || units[0] == 0 {
        seq![]
    } else {
        seq![units[0]] + until_nul(units.skip(1))
    }
}

/// The position of the first `character` in a text, or the length of the text if there is none.
pub open spec fn first_position(text: Seq<char>, character: char) -> int
    decreases text.len(),
{
    if text.len() == 0 || text[0] == character {
        0
    } else {
        1 + first_position(text.skip(1), character)
    }
}

/// The character of a decimal digit.
pub open spec fn digit_char(digit: int) -> char {
    (48 + digit) as char
}

/// A number in decimal, without leading zeros.
pub open spec fn decimal(value: nat) -> Seq<char>
    decreases value,
{
    if value < 10 {
        seq![digit_char(value as int)]
    } else {
        decimal(value / 10).push(digit_char((value % 10) as int))
    }
}

/// All characters are decimal digits.
pub open spec fn all_digits(text: Seq<char>) -> bool {
    forall|i: int| 0 <= i < text.len() ==> '0' <= #[trigger] text[i] <= '9'
}

/// The number that a row of decimal digits stands for.
pub open spec fn digits_value(text: Seq<char>) -> int
    decreases text.len(),
{
    if text.len() == 0 {
        0
    } else {
        10 * digits_value(text.drop_last()) + (text.last() as int - 48)
    }
}

/// What is left of a number's text after an optional plus sign.
pub open spec fn unsigned_digits(text: Seq<char>) -> Seq<char> {
    if text.len() > 1 && text[0] == '+' {
        text.skip(1)
    } else {
        text
    }
}

/// The 32-bit number that a text stands for: at least one decimal digit, a plus sign allowed.
pub open spec fn parsed_u32(text: Seq<char>) -> Option<u32> {
    let digits = unsigned_digits(text);
    if digits.len() > 0 && all_digits(digits) && digits_value(digits) <= u32::MAX {
        Some(digits_value(digits) as u32)
    } else {
        None
    }
}

/// The hexadecimal character of a number below sixteen, in lower case.
pub open spec fn hex_char(value: int) -> char {
    if value < 10 {
        (48 + value) as char
    } else {
        (87 + value) as char
    }
}

/// Two hexadecimal characters for each byte.
pub open spec fn hex(bytes: Seq<u8>) -> Seq<char>
    decreases bytes.len(),
{
    if bytes.len() == 0 {
        seq![]
    } else {
        hex(bytes.drop_last()).push(hex_char(bytes.last() as int / 16)).push(
            hex_char(bytes.last() as int % 16),
        )
    }
}

/// The characters of a text.
pub fn chars_of(text: &str) -> (chars: Vec<char>)
    ensures
        chars@ == text@,
{
    let mut chars: Vec<char> = Vec::new();
    for character in iter: text.chars()
        invariant
            iter.seq() == text@,
            chars@ == text@.take(iter.index() as int),
    {
        chars.push(character);
        proof {
            assert(text@.take(iter.index() + 1) =~= text@.take(iter.index() as int).push(character));
        }
    }
    proof {
        assert(text@.take(text@.len() as int) =~= text@);
    }
    chars
}

/// The text made of `chars` from `start` to its end.
pub fn string_from(chars: &Vec<char>, start: usize) -> (text: String)
    requires
        start <= chars@.len(),
    ensures
        text@ == chars@.skip(start as int),
{
    let mut text = String::new();
    let mut i: usize = start;
    proof {
        assert(text@ =~= chars@.subrange(start as int, i as int));
    }
    while i < chars.len()
        invariant
            start <= i <= chars@.len(),
            text@ == chars@.subrange(start as int, i as int),
        decreases chars@.len() - i,
    {
        text.push(chars[i]);
        i = i + 1;
        proof {
            assert(chars@.subrange(start as int, i as int) =~= chars@.subrange(
                start as int,
                i - 1,
            ).push(chars@[i - 1]));
        }
    }
    proof {
        assert(chars@.subrange(start as int, i as int) =~= chars@.skip(start as int));
    }
    text
}

/// Finds the first `character` of a text.
pub fn find_char(text: &Vec<char>, character: char) -> (position: usize)
    ensures
        position == first_position(text@, character),
        position <= text@.len(),
        position < text@.len() ==> text@[position as int] == character,
{
    let mut position: usize = 0;
    while position < text.len() && text[position] != character
        invariant
            position <= text@.len(),
            forall|i: int| 0 <= i < position ==> #[trigger] text@[i] != character,
        decreases text@.len() - position,
    {
        position = position + 1;
    }
    proof {
        lemma_first_position(text@, character, position as int);
    }
    position
}

/// A position with no `character` before it, and either one at it or the end, is the first one.
pub proof fn lemma_first_position(text: Seq<char>, character: char, position: int)
    requires
        0 <= position <= text.len(),
        forall|i: int| 0 <= i < position ==> #[trigger] text[i] != character,
        position < text.len() ==> text[position] == character,
    ensures
        first_position(text, character) == position,
    decreases position,
{
    if position > 0 {
        assert(text[0] != character);
        let rest = text.skip(1);
        assert forall|i: int| 0 <= i < position - 1 implies #[trigger] rest[i] != character by {
            assert(rest[i] == text[i + 1]);
        }
        lemma_first_position(rest, character, position - 1);
    }
}

/// Tells whether a text begins with `prefix`.
pub fn begins_with(text: &Vec<char>, start: usize, prefix: &str) -> (begins: bool)
    requires
        start <= text@.len(),
    ensures
        begins == prefix@.is_prefix_of(text@.skip(start as int)),
{
    let expected = chars_of(prefix);
    if text.len() - start < expected.len() {
        return false;
    }
    let mut i: usize = 0;
    while i < expected.len()
        invariant
            i <= expected@.len(),
            start + expected@.len() <= text.len(),
            expected@ == prefix@,
            forall|j: int| 0 <= j < i ==> #[trigger] text@[start + j] == expected@[j],
        decreases expected@.len() - i,
    {
        if text[start + i] != expected[i] {
            proof {
                assert(text@.skip(start as int)[i as int] == text@[start + i]);
                if prefix@.is_prefix_of(text@.skip(start as int)) {
                    assert(text@.skip(start as int).subrange(0, prefix@.len() as int)[i as int]
                        == prefix@[i as int]);
                }
            }
            return false;
        }
        i = i + 1;
    }
    proof {
        assert(text@.skip(start as int).subrange(0, prefix@.len() as int) =~= prefix@) by {
            assert forall|j: int| 0 <= j < prefix@.len() implies text@.skip(start as int)[j]
                == prefix@[j] by {
                assert(text@[start + j] == expected@[j]);
            }
        }
    }
    true
}

/// A unit with the capital letters A to Z made small.
pub fn to_lower_unit(unit: u16) -> (lower: u16)
    ensures
        lower == lower_unit(unit),
{
    if 65 <= unit && unit <= 90 {
        unit + 32
    } else {
        unit
    }
}

/// Appends the UTF-16 units of one character.
fn push_units(units: &mut Vec<u16>, character: char)
    ensures
        final(units)@ == old(units)@ + utf16_units(character),
{
    let ghost before = units@;
    let code: u32 = character as u32;
    if code < 0x1_0000 {
        units.push(code as u16);
    } else {
        let rest: u32 = code - 0x1_0000;
        units.push((0xd800 + rest / 0x400) as u16);
        units.push((0xdc00 + rest % 0x400) as u16);
    }
    proof {
        assert(units@ =~= before + utf16_units(character));
    }
}

/// The UTF-16 units of a text.
pub fn encode_utf16(text: &str) -> (units: Vec<u16>)
    ensures
        units@ == utf16(text@),
{
    let chars = chars_of(text);
    let mut units: Vec<u16> = Vec::new();
    let mut i: usize = 0;
    proof {
        assert(chars@.take(0) =~= Seq::<char>::empty());
    }
    while i < chars.len()
        invariant
            i <= chars@.len(),
            units@ == utf16(chars@.take(i as int)),
        decreases chars@.len() - i,
    {
        push_units(&mut units, chars[i]);
        i = i + 1;
        proof {
            assert(chars@.take(i as int).drop_last() =~= chars@.take(i - 1));
        }
    }
    proof {
        assert(chars@.take(i as int) =~= chars@);
    }
    units
}

/// Compares two texts in UTF-16, ignoring the case of A to Z.
pub fn eq_ignoring_case(left: &[u16], right: &[u16]) -> (same: bool)
    ensures
        same == same_ignoring_case(left@, right@),
{
    if left.len() != right.len() {
        return false;
    }
    let mut i: usize = 0;
    while i < left.len()
        invariant
            i <= left@.len(),
            left@.len() == right@.len(),
            forall|j: int| 0 <= j < i ==> lower_unit(#[trigger] left@[j]) == lower_unit(right@[j]),
        decreases left@.len() - i,
    {
        if to_lower_unit(left[i]) != to_lower_unit(right[i]) {
            return false;
        }
        i = i + 1;
    }
    true
}

fn to_lower_char(character: char) -> (lower: char)
    ensures
        lower == lower_char(character),
{
    if 'A' <= character && character <= 'Z' {
        (character as u8 + 32) as char
    } else {
        character
    }
}

/// Compares two texts, ignoring the case of A to Z.
pub fn eq_text_ignoring_case(left: &str, right: &str) -> (same: bool)
    ensures
        same == same_text_ignoring_case(left@, right@),
{
    let left_chars = chars_of(left);
    let right_chars = chars_of(right);
    if left_chars.len() != right_chars.len() {
        return false;
    }
    let mut i: usize = 0;
    while i < left_chars.len()
        invariant
            i <= left_chars@.len(),
            left_chars@ == left@,
            right_chars@ == right@,
            left_chars@.len() == right_chars@.len(),
            forall|j: int|
                0 <= j < i ==> lower_char(#[trigger] left_chars@[j]) == lower_char(right_chars@[j]),
        decreases left_chars@.len() - i,
    {
        if to_lower_char(left_chars[i]) != to_lower_char(right_chars[i]) {
            return false;
        }
        i = i + 1;
    }
    true
}

/// Compares two texts.
pub fn eq_text(left: &str, right: &str) -> (same: bool)
    ensures
        same == (left@ == right@),
{
    let left_chars = chars_of(left);
    let right_chars = chars_of(right);
    if left_chars.len() != right_chars.len() {
        return false;
    }
    let mut i: usize = 0;
    while i < left_chars.len()
        invariant
            i <= left_chars@.len(),
            left_chars@ == left@,
            right_chars@ == right@,
            left_chars@.len() == right_chars@.len(),
            forall|j: int| 0 <= j < i ==> left_chars@[j] == right_chars@[j],
        decreases left_chars@.len() - i,
    {
        if left_chars[i] != right_chars[i] {
            return false;
        }
        i = i + 1;
    }
    proof {
        assert(left@ =~= right@);
    }
    true
}

/// Tells whether `part` occurs in `text`, ignoring the case of A to Z.
pub fn contains_ignoring_case(text: &[u16], part: &[u16]) -> (found: bool)
    ensures
        found == has_part(text@, part@),
{
    if part.len() > text.len() {
        return false;
    }
    let size: usize = part.len();
    let last: usize = text.len() - size;
    let mut start: usize = 0;
    loop
        invariant
            part@.len() <= text@.len(),
            size == part@.len(),
            last == text.len() - size,
            start <= last,
            forall|earlier: int| 0 <= earlier < start ==> !part_at(text@, part@, earlier),
        decreases last - start,
    {
        let window: &[u16] = vstd::slice::slice_subrange(text, start, start + size);
        if eq_ignoring_case(window, part) {
            proof {
                assert(part_at(text@, part@, start as int));
            }
            return true;
        }
        proof {
            assert(!part_at(text@, part@, start as int));
        }
        if start == last {
            return false;
        }
        start = start + 1;
    }
}

/// The number of units before the first NUL.
pub fn nul_position(units: &[u16]) -> (position: usize)
    ensures
        position <= units@.len(),
        until_nul(units@) == units@.take(position as int),
        forall|i: int| 0 <= i < position ==> #[trigger] units@[i] != 0,
        position < units@.len() ==> units@[position as int] == 0,
{
    let mut position: usize = 0;
    while position < units.len() && units[position] != 0
        invariant
            position <= units@.len(),
            forall|i: int| 0 <= i < position ==> #[trigger] units@[i] != 0,
        decreases units@.len() - position,
    {
        position = position + 1;
    }
    proof {
        lemma_until_nul(units@, position as int);
    }
    position
}

proof fn lemma_until_nul(units: Seq<u16>, position: int)
    requires
        0 <= position <= units.len(),
        forall|i: int| 0 <= i < position ==> #[trigger] units[i] != 0,
        position < units.len() ==> units[position] == 0,
    ensures
        until_nul(units) == units.take(position),
    decreases position,
{
    if position == 0 {
        assert(units.take(0) =~= Seq::<u16>::empty());
    } else {
        let rest = units.skip(1);
        assert forall|i: int| 0 <= i < position - 1 implies #[trigger] rest[i] != 0 by {
            assert(rest[i] == units[i + 1]);
        }
        lemma_until_nul(rest, position - 1);
        assert(units.take(position) =~= seq![units[0]] + rest.take(position - 1));
    }
}

/// A text without NULs is what stands before the NUL behind it.
pub proof fn lemma_until_nul_of_terminated(text: Seq<u16>)
    requires
        forall|i: int| 0 <= i < text.len() ==> #[trigger] text[i] != 0,
    ensures
        until_nul(text.push(0)) == text,
{
    lemma_until_nul(text.push(0), text.len() as int);
    assert(text.push(0).take(text.len() as int) =~= text);
}

/// Appends a number in decimal.
pub fn push_decimal(text: &mut String, value: u64)
    ensures
        final(text)@ == old(text)@ + decimal(value as nat),
    decreases value,
{
    let ghost before = text@;
    if value >= 10 {
        push_decimal(text, value / 10);
    }
    let ghost middle = text@;
    text.push((48 + (value % 10) as u8) as char);
    proof {
        if value >= 10 {
            assert(text@ =~= before + decimal((value / 10) as nat).push(digit_char((value % 10) as int)));
        } else {
            assert(text@ =~= before + decimal(value as nat));
        }
    }
}

/// Reads a 32-bit number.
pub fn parse_u32(text: &Vec<char>) -> (value: Option<u32>)
    ensures
        value == parsed_u32(text@),
{
    let start: usize = if text.len() > 1 && text[0] == '+' {
        1
    } else {
        0
    };
    let ghost digits = unsigned_digits(text@);
    proof {
        assert(digits =~= text@.skip(start as int));
    }
    if start == text.len() {
        return None;
    }
    let mut value: u64 = 0;
    let mut i: usize = start;
    proof {
        assert(digits.take(0) =~= Seq::<char>::empty());
    }
    while i < text.len()
        invariant
            start <= i <= text@.len(),
            digits == text@.skip(start as int),
            digits == unsigned_digits(text@),
            value <= u32::MAX,
            value == digits_value(digits.take(i - start)),
            all_digits(digits.take(i - start)),
        decreases text@.len() - i,
    {
        let character: char = text[i];
        let ghost seen = digits.take(i - start);
        let ghost more = digits.take(i - start + 1);
        proof {
            assert(more.drop_last() =~= seen);
            assert(more.last() == character);
        }
        if character < '0' || character > '9' {
            proof {
                assert(digits[i - start] == character);
            }
            return None;
        }
        value = value * 10 + (character as u32 - 48) as u64;
        proof {
            assert forall|j: int| 0 <= j < more.len() implies '0' <= #[trigger] more[j] <= '9' by {
                if j < seen.len() {
                    assert(more[j] == seen[j]);
                }
            }
        }
        if value > u32::MAX as u64 {
            proof {
                if all_digits(digits) {
                    lemma_digits_value_grows(digits, i - start + 1);
                }
            }
            return None;
        }
        i = i + 1;
    }
    proof {
        assert(digits.take(i - start) =~= digits);
    }
    Some(value as u32)
}

/// A row of digits stands for no less than its beginning does.
proof fn lemma_digits_value_grows(digits: Seq<char>, length: int)
    requires
        all_digits(digits),
        0 <= length <= digits.len(),
    ensures
        0 <= digits_value(digits.take(length)) <= digits_value(digits),
    decreases digits.len(),
{
    if digits.len() == 0 {
        assert(digits.take(length) =~= digits);
    } else {
        let shorter = digits.drop_last();
        assert forall|j: int| 0 <= j < shorter.len() implies '0' <= #[trigger] shorter[j] <= '9' by {
            assert(shorter[j] == digits[j]);
        }
        assert('0' <= digits[digits.len() - 1] <= '9');
        if length == digits.len() {
            assert(digits.take(length) =~= digits);
            lemma_digits_value_grows(shorter, shorter.len() as int);
            assert(shorter.take(shorter.len() as int) =~= shorter);
        } else {
            assert(digits.take(length) =~= shorter.take(length));
            lemma_digits_value_grows(shorter, length);
        }
    }
}

/// A number written in decimal is made of digits that stand for it.
pub proof fn lemma_decimal_digits(value: nat)
    ensures
        decimal(value).len() > 0,
        all_digits(decimal(value)),
        digits_value(decimal(value)) == value,
    decreases value,
{
    reveal_with_fuel(digits_value, 2);
    if value >= 10 {
        lemma_decimal_digits(value / 10);
        let head = decimal(value / 10);
        let last = digit_char((value % 10) as int);
        assert(decimal(value) == head.push(last));
        assert(head.push(last).drop_last() =~= head);
        assert forall|i: int| 0 <= i < decimal(value).len() implies '0' <= #[trigger] decimal(
            value,
        )[i] <= '9' by {
            if i < head.len() {
                assert(decimal(value)[i] == head[i]);
            }
        }
    } else {
        assert(decimal(value).drop_last() =~= Seq::<char>::empty());
    }
}

/// Reading a 32-bit number back from its decimal form gives the same number.
pub proof fn lemma_parse_undoes_decimal(value: u32)
    ensures
        parsed_u32(decimal(value as nat)) == Some(value),
{
    lemma_decimal_digits(value as nat);
    assert('0' <= decimal(value as nat)[0]);
    assert(unsigned_digits(decimal(value as nat)) == decimal(value as nat));
}

/// Appends two hexadecimal characters for each byte.
pub fn push_hex(text: &mut String, bytes: &[u8])
    ensures
        final(text)@ == old(text)@ + hex(bytes@),
{
    let ghost before = text@;
    let mut i: usize = 0;
    proof {
        assert(bytes@.take(0) =~= Seq::<u8>::empty());
        assert(text@ =~= before + hex(bytes@.take(0)));
    }
    while i < bytes.len()
        invariant
            i <= bytes@.len(),
            text@ == before + hex(bytes@.take(i as int)),
        decreases bytes@.len() - i,
    {
        let ghost seen = bytes@.take(i as int);
        let ghost more = bytes@.take(i + 1);
        text.push(to_hex_char(bytes[i] / 16));
        text.push(to_hex_char(bytes[i] % 16));
        proof {
            assert(more.drop_last() =~= seen);
            assert(text@ =~= before + hex(more));
        }
        i = i + 1;
    }
    proof {
        assert(bytes@.take(i as int) =~= bytes@);
    }
}

fn to_hex_char(value: u8) -> (character: char)
    requires
        value < 16,
    ensures
        character == hex_char(value as int),
{
    if value < 10 {
        (48 + value) as char
    } else {
        (87 + value) as char
    }
}

/// What stands before the first NUL, or before the end if there is none.
pub proof fn lemma_text_before_nul(units: Seq<u16>, text: Seq<u16>)
    requires
        text.is_prefix_of(units),
        forall|i: int| 0 <= i < text.len() ==> #[trigger] text[i] != 0,
        text.len() < units.len() ==> units[text.len() as int] == 0,
    ensures
        until_nul(units) == text,
{
    assert forall|i: int| 0 <= i < text.len() implies #[trigger] units[i] != 0 by {
        assert(text[i] != 0);
        assert(units.subrange(0, text.len() as int)[i] == units[i]);
    }
    lemma_until_nul(units, text.len() as int);
    assert(units.take(text.len() as int) =~= text);
}

/// A text in UTF-16 with one more character has one more unit, which is the number of the character, or two
/// more, which are ten bits each of what exceeds 65,536.
pub proof fn lemma_character_is_encoded(
    text: &str,
    more: &str,
    character: char,
    units: Vec<u16>,
    more_units: Vec<u16>,
)
    requires
        more@ == text@.push(character),
        call_ensures(encode_utf16, (text,), units),
        call_ensures(encode_utf16, (more,), more_units),
    ensures
        text@.len() == 0 ==> units@.len() == 0,
        units@.is_prefix_of(more_units@),
        (character as int) < 0x1_0000 ==> more_units@.len() == units@.len() + 1 && more_units@.last()
            == character as int,
        (character as int) >= 0x1_0000 ==> {
            let high = more_units@[units@.len() as int];
            let low = more_units@.last();
            &&& more_units@.len() == units@.len() + 2
            &&& 0xd800 <= high < 0xdc00
            &&& 0xdc00 <= low < 0xe000
            &&& character as int == 0x1_0000 + 0x400 * (high - 0xd800) + (low - 0xdc00)
        },
{
    assert(text@.push(character).drop_last() =~= text@);
    assert(units@ =~= more_units@.subrange(0, units@.len() as int));
    assert(character as u32 <= 0x10_ffff);
}

/// Two units are the same letter, or the same otherwise: equal, or a capital letter A to Z and its small
/// one.
pub open spec fn is_same_letter(left: int, right: int) -> bool {
    left == right || (65 <= left <= 90 && right == left + 32) || (65 <= right <= 90 && left == right
        + 32)
}

/// Texts are equal when case is ignored exactly if they are as long as each other and have the same letter
/// everywhere.
pub proof fn lemma_case_is_ignored(left: &[u16], right: &[u16], same: bool)
    requires
        call_ensures(eq_ignoring_case, (left, right), same),
    ensures
        same <==> left@.len() == right@.len() && forall|i: int|
            0 <= i < left@.len() ==> is_same_letter(#[trigger] left@[i] as int, right@[i] as int),
{
    lemma_same_letters(left@, right@);
}

/// Texts that are equal when case is ignored have the same letter everywhere.
pub proof fn lemma_same_letters(left: Seq<u16>, right: Seq<u16>)
    ensures
        same_ignoring_case(left, right) <==> left.len() == right.len() && forall|i: int|
            0 <= i < left.len() ==> is_same_letter(#[trigger] left[i] as int, right[i] as int),
{
    if left.len() == right.len() {
        assert forall|i: int| 0 <= i < left.len() implies (lower_unit(#[trigger] left[i])
            == lower_unit(right[i])) == is_same_letter(left[i] as int, right[i] as int) by {}
        if same_ignoring_case(left, right) {
            assert forall|i: int| 0 <= i < left.len() implies is_same_letter(
                #[trigger] left[i] as int,
                right[i] as int,
            ) by {
                assert(lower_unit(left[i]) == lower_unit(right[i]));
            }
        }
    }
}

/// The same of texts that are made of characters.
pub proof fn lemma_case_of_characters_is_ignored(left: &str, right: &str, same: bool, equal: bool)
    requires
        call_ensures(eq_text_ignoring_case, (left, right), same),
        call_ensures(eq_text, (left, right), equal),
    ensures
        same <==> left@.len() == right@.len() && forall|i: int|
            0 <= i < left@.len() ==> is_same_letter(#[trigger] left@[i] as int, right@[i] as int),
        equal <==> left@.len() == right@.len() && forall|i: int|
            0 <= i < left@.len() ==> #[trigger] left@[i] == right@[i],
{
    let a = left@;
    let b = right@;
    if equal {
        assert(a == b);
    } else if a.len() == b.len() && forall|i: int| 0 <= i < a.len() ==> #[trigger] a[i] == b[i] {
        assert(a =~= b);
    }
    if a.len() == b.len() {
        assert forall|i: int| 0 <= i < a.len() implies (lower_char(#[trigger] a[i]) == lower_char(b[i]))
            == is_same_letter(a[i] as int, b[i] as int) by {
            lemma_lower_chars(a[i], b[i]);
        }
        if same {
            assert forall|i: int| 0 <= i < a.len() implies is_same_letter(
                #[trigger] a[i] as int,
                b[i] as int,
            ) by {
                assert(lower_char(a[i]) == lower_char(b[i]));
            }
        }
    }
}

proof fn lemma_lower_chars(left: char, right: char)
    ensures
        (lower_char(left) == lower_char(right)) == is_same_letter(left as int, right as int),
{
    let a = lower_char(left);
    let b = lower_char(right);
    assert('A' as int == 65 && 'Z' as int == 90);
    assert(a as int == if 65 <= left as int <= 90 {
        left as int + 32
    } else {
        left as int
    });
    assert(b as int == if 65 <= right as int <= 90 {
        right as int + 32
    } else {
        right as int
    });
    assert((a == b) == (a as int == b as int));
    assert((left == right) == (left as int == right as int));
}

/// A part is found exactly if it stands somewhere, when case is ignored.
pub proof fn lemma_part_is_found(text: &[u16], part: &[u16], found: bool, start: int)
    requires
        call_ensures(contains_ignoring_case, (text, part), found),
    ensures
        0 <= start && start + part@.len() <= text@.len() && (forall|i: int|
            0 <= i < part@.len() ==> is_same_letter(
                #[trigger] text@[start + i] as int,
                part@[i] as int,
            )) ==> found,
        found ==> exists|at: int|
            0 <= at && at + part@.len() <= text@.len() && same_ignoring_case(
                #[trigger] text@.subrange(at, at + part@.len()),
                part@,
            ),
{
    if 0 <= start && start + part@.len() <= text@.len() && (forall|i: int|
        0 <= i < part@.len() ==> is_same_letter(#[trigger] text@[start + i] as int, part@[i] as int)) {
        let piece = text@.subrange(start, start + part@.len());
        assert forall|i: int| 0 <= i < piece.len() implies is_same_letter(
            #[trigger] piece[i] as int,
            part@[i] as int,
        ) by {
            assert(is_same_letter(text@[start + i] as int, part@[i] as int));
        }
        lemma_same_letters(piece, part@);
        assert(part_at(text@, part@, start));
    }
    if found {
        let at = choose|at: int| part_at(text@, part@, at);
        assert(part_at(text@, part@, at));
        assert(same_ignoring_case(text@.subrange(at, at + part@.len()), part@));
    }
}

/// A number below ten is written as its digit, and any other as a tenth of it with its last digit behind.
pub proof fn lemma_number_is_written(
    text: &mut String,
    value: u64,
    written: (),
    shorter: &mut String,
    shorter_written: (),
)
    requires
        old(text)@ == old(shorter)@,
        call_ensures(push_decimal, (text, value), written),
        call_ensures(push_decimal, (shorter, value / 10), shorter_written),
    ensures
        final(text)@.last() as int == 48 + value % 10,
        value < 10 ==> final(text)@.drop_last() == old(text)@,
        value >= 10 ==> final(text)@.drop_last() == final(shorter)@,
{
    let before = old(text)@;
    if value < 10 {
        assert(final(text)@.drop_last() =~= before);
    } else {
        assert((before + decimal(value as nat)).drop_last() =~= before + decimal((value / 10) as nat));
    }
    assert(digit_char((value % 10) as int) as int == 48 + value % 10);
}

proof fn lemma_digits_value(digits: Seq<char>)
    requires
        all_digits(digits),
    ensures
        digits_value(digits) >= 0,
    decreases digits.len(),
{
    if digits.len() > 0 {
        let shorter = digits.drop_last();
        assert forall|i: int| 0 <= i < shorter.len() implies '0' <= #[trigger] shorter[i] <= '9' by {
            assert(shorter[i] == digits[i]);
        }
        lemma_digits_value(shorter);
        assert('0' <= digits[digits.len() - 1]);
    }
}

/// A digit is read as its number; one more digit makes a number ten times as large, and more by the digit,
/// as long as it fits in 32 bits; anything else but a plus sign in front makes it none.
pub proof fn lemma_number_is_read(
    text: &Vec<char>,
    value: Option<u32>,
    more: &Vec<char>,
    last: char,
    more_value: Option<u32>,
)
    requires
        call_ensures(parse_u32, (text,), value),
        more@ == text@.push(last),
        call_ensures(parse_u32, (more,), more_value),
    ensures
        text@.len() == 0 ==> value is None,
        text@.len() == 0 && '0' <= last <= '9' ==> more_value == Some((last as int - 48) as u32),
        text@.len() > 0 && '0' <= last <= '9' && value is Some ==> more_value == if 10 * value->0 + (
        last as int - 48) <= u32::MAX {
            Some((10 * value->0 + (last as int - 48)) as u32)
        } else {
            None
        },
        !('0' <= last <= '9') ==> more_value is None,
{
    reveal_with_fuel(digits_value, 2);
    let digits = unsigned_digits(text@);
    let more_digits = unsigned_digits(more@);
    if text@.len() == 0 {
        assert(more@.drop_last() =~= Seq::<char>::empty());
        assert(more_digits == more@);
        assert(more_digits[0] == last);
        if '0' <= last <= '9' {
            assert(digits_value(more_digits) == last as int - 48);
        }
    } else {
        assert(more@[0] == text@[0]);
        if text@.len() == 1 && text@[0] == '+' {
            assert(!all_digits(digits)) by {
                assert(digits[0] == '+');
            }
            assert(more_digits =~= seq![last]);
            assert(more_digits[0] == last);
        } else {
            assert(more_digits =~= digits.push(last));
            assert(more_digits.drop_last() =~= digits);
            assert(more_digits.last() == last);
            assert(more_digits[digits.len() as int] == last);
            if '0' <= last <= '9' && all_digits(digits) {
                assert forall|i: int| 0 <= i < more_digits.len() implies '0' <= #[trigger] more_digits[i]
                    <= '9' by {
                    if i < digits.len() {
                        assert(more_digits[i] == digits[i]);
                    }
                }
                assert(digits_value(more_digits) == 10 * digits_value(digits) + (last as int - 48));
                assert(all_digits(more_digits));
                assert(value == if digits_value(digits) <= u32::MAX {
                    Some(digits_value(digits) as u32)
                } else {
                    None
                });
                lemma_digits_value(digits);
            }
        }
    }
}

} // verus!
