//! Text helpers: everything the library writes for people to read is built
//! here, character by character.
use vstd::prelude::*;
use vstd::string::StringExecFns;

use crate::order;
use crate::quantity;

verus! {

/// `String::push` appends one character.
pub assume_specification[ String::push ](string: &mut String, character: char)
    ensures
        final(string)@ == old(string)@.push(character),
;

/// The lowercase form of a text, by the Unicode rules of `str::to_lowercase`.
pub uninterp spec fn lowercase(text: Seq<char>) -> Seq<char>;

/// `str::to_lowercase` depends on the text alone.
pub assume_specification[ str::to_lowercase ](string: &str) -> (lower: String)
    ensures
        lower@ == lowercase(string@),
;

/// The text that stands for a byte string, with replacement characters where
/// the bytes are not UTF-8.
pub uninterp spec fn lossy_text(bytes: Seq<u8>) -> Seq<char>;

/// `String::from_utf8_lossy`: the result depends on the bytes alone, and bytes
/// that are valid UTF-8 are kept as they are.
#[verifier::external_body]
pub(crate) fn lossy(bytes: &[u8]) -> (text: String)
    ensures
        text@ == lossy_text(bytes@),
        vstd::utf8::valid_utf8(bytes@) ==> vstd::utf8::encode_utf8(text@) == bytes@,
{
    String::from_utf8_lossy(bytes).into_owned()
}

/// The uppercase form of one character, by the Unicode rules of
/// `char::to_uppercase`; it may be longer than one character.
pub uninterp spec fn uppercase(character: char) -> Seq<char>;

/// `char::to_uppercase` depends on the character alone.
#[verifier::external_body]
fn upper(character: char) -> (text: String)
    ensures
        text@ == uppercase(character),
{
    character.to_uppercase().to_string()
}

/// The characters that separate words: Unicode's `White_Space` property.
pub open spec fn is_white(character: char) -> bool {
    ||| '\u{9}' <= character <= '\u{d}'
    ||| character == ' '
    ||| character == '\u{85}'
    ||| character == '\u{a0}'
    ||| character == '\u{1680}'
    ||| '\u{2000}' <= character <= '\u{200a}'
    ||| character == '\u{2028}'
    ||| character == '\u{2029}'
    ||| character == '\u{202f}'
    ||| character == '\u{205f}'
    ||| character == '\u{3000}'
}

pub fn white(character: char) -> (result: bool)
    ensures
        result == is_white(character),
{
    ('\u{9}' <= character && character <= '\u{d}') || character == ' ' || character == '\u{85}'
        || character == '\u{a0}' || character == '\u{1680}' || ('\u{2000}' <= character
        && character <= '\u{200a}') || character == '\u{2028}' || character == '\u{2029}'
        || character == '\u{202f}' || character == '\u{205f}' || character == '\u{3000}'
}

/// The characters of a text as a vector.
pub fn chars_of(text: &str) -> (chars: Vec<char>)
    ensures
        chars@ == text@,
{
    let mut chars: Vec<char> = Vec::new();
    for character in iter: text.chars()
        invariant
            chars@ == text@.take(iter.index()),
            iter.seq() == text@,
    {
        chars.push(character);
    }
    chars
}

/// The text made of a range of characters.
pub fn text_range(chars: &Vec<char>, from: usize, to: usize) -> (text: String)
    requires
        from <= to <= chars@.len(),
    ensures
        text@ == chars@.subrange(from as int, to as int),
{
    let mut text = String::new();
    let mut i: usize = from;
    while i < to
        invariant
            from <= i <= to <= chars@.len(),
            text@ == chars@.subrange(from as int, i as int),
        decreases to - i,
    {
        text.push(chars[i]);
        i += 1;
    }
    text
}

/// The text made of the given characters.
pub fn text_of(chars: &Vec<char>) -> (text: String)
    ensures
        text@ == chars@,
{
    text_range(chars, 0, chars.len())
}

/// Whether two texts hold the same characters.
pub fn same_text(left: &str, right: &str) -> (same: bool)
    ensures
        same == (left@ == right@),
{
    let left = chars_of(left);
    let right = chars_of(right);
    same_chars(&left, &right)
}

/// Whether two character vectors are equal.
pub fn same_chars(left: &Vec<char>, right: &Vec<char>) -> (same: bool)
    ensures
        same == (left@ == right@),
{
    if left.len() != right.len() {
        return false;
    }
    let mut i: usize = 0;
    while i < left.len()
        invariant
            i <= left@.len() == right@.len(),
            forall|j: int| 0 <= j < i ==> left@[j] == right@[j],
        decreases left@.len() - i,
    {
        if left[i] != right[i] {
            return false;
        }
        i += 1;
    }
    assert(left@ =~= right@);
    true
}

/// Whether `part` stands in `text` at position `at`.
pub open spec fn occurs_at(text: Seq<char>, part: Seq<char>, at: int) -> bool {
    0 <= at && at + part.len() <= text.len() && text.subrange(at, at + part.len()) == part
}

/// Whether `part` stands somewhere in `text`.
pub open spec fn contains_text(text: Seq<char>, part: Seq<char>) -> bool {
    exists|at: int| occurs_at(text, part, at)
}

fn found_at(text: &Vec<char>, part: &Vec<char>, at: usize) -> (found: bool)
    requires
        at + part@.len() <= text@.len(),
    ensures
        found == occurs_at(text@, part@, at as int),
{
    let last: usize = text.len();
    let mut i: usize = 0;
    while i < part.len()
        invariant
            i <= part@.len(),
            at + part@.len() <= text@.len() == last,
            forall|j: int| 0 <= j < i ==> text@[at + j] == part@[j],
        decreases part@.len() - i,
    {
        if text[at + i] != part[i] {
            assert(text@.subrange(at as int, at + part@.len())[i as int] != part@[i as int]);
            return false;
        }
        i += 1;
    }
    assert(text@.subrange(at as int, at + part@.len()) =~= part@);
    true
}

/// Whether `text` begins with `part`.
pub fn begins_with(text: &Vec<char>, part: &str) -> (found: bool)
    ensures
        found == occurs_at(text@, part@, 0),
{
    let part = chars_of(part);
    if part.len() > text.len() {
        return false;
    }
    found_at(text, &part, 0)
}

/// Whether `text` contains `part`.
pub fn contains(text: &str, part: &str) -> (found: bool)
    ensures
        found == contains_text(text@, part@),
{
    let all = chars_of(text);
    let wanted = chars_of(part);
    if wanted.len() > all.len() {
        return false;
    }
    let last: usize = all.len() - wanted.len();
    let mut at: usize = 0;
    loop
        invariant
            at <= last,
            all@ == text@,
            wanted@ == part@,
            last + part@.len() == text@.len(),
            forall|j: int| 0 <= j < at ==> !occurs_at(text@, part@, j),
        decreases last - at,
    {
        if found_at(&all, &wanted, at) {
            return true;
        }
        if at == last {
            return false;
        }
        at += 1;
    }
}

/// Whether `text` in lowercase contains `part`.
pub fn contains_lower(text: &str, part: &str) -> (found: bool)
    ensures
        found == contains_text(lowercase(text@), part@),
{
    let lower = text.to_lowercase();
    contains(lower.as_str(), part)
}

/// The lowercase form of an ASCII letter; other characters are kept.
pub open spec fn ascii_lower(character: char) -> char {
    if 'A' <= character <= 'Z' {
        (character as u32 + 32) as char
    } else {
        character
    }
}

/// Equality of texts up to the case of ASCII letters.
pub open spec fn same_ignoring_case(left: Seq<char>, right: Seq<char>) -> bool {
    &&& left.len() == right.len()
    &&& forall|i: int|
        0 <= i < left.len() ==> ascii_lower(#[trigger] left[i]) == ascii_lower(right[i])
}

pub fn lower_ascii(character: char) -> (lower: char)
    ensures
        lower == ascii_lower(character),
{
    if 'A' <= character && character <= 'Z' {
        ((character as u8) + 32) as char
    } else {
        character
    }
}

/// Whether two texts agree up to the case of ASCII letters.
pub fn matches_ignoring_case(left: &str, right: &str) -> (same: bool)
    ensures
        same == same_ignoring_case(left@, right@),
{
    let first = chars_of(left);
    let second = chars_of(right);
    if first.len() != second.len() {
        return false;
    }
    let mut i: usize = 0;
    while i < first.len()
        invariant
            i <= first@.len() == second@.len(),
            first@ == left@,
            second@ == right@,
            forall|j: int|
                0 <= j < i ==> ascii_lower(#[trigger] left@[j]) == ascii_lower(right@[j]),
        decreases first@.len() - i,
    {
        if lower_ascii(first[i]) != lower_ascii(second[i]) {
            assert(ascii_lower(left@[i as int]) != ascii_lower(right@[i as int]));
            return false;
        }
        i += 1;
    }
    true
}

/// The number of leading white characters.
pub open spec fn leading_white(text: Seq<char>) -> nat
    decreases text.len(),
{
    if text.len() > 0 && is_white(text[0]) {
        1 + leading_white(text.drop_first())
    } else {
        0
    }
}

/// The number of trailing white characters.
pub open spec fn trailing_white(text: Seq<char>) -> nat
    decreases text.len(),
{
    if text.len() > 0 && is_white(text.last()) {
        1 + trailing_white(text.drop_last())
    } else {
        0
    }
}

/// The text without the white characters at its ends.
pub open spec fn trimmed(text: Seq<char>) -> Seq<char> {
    let rest = text.skip(leading_white(text) as int);
    rest.take(rest.len() - trailing_white(rest))
}

proof fn lemma_white_counts(text: Seq<char>)
    ensures
        leading_white(text) <= text.len(),
        trailing_white(text) <= text.len(),
    decreases text.len(),
{
    if text.len() > 0 {
        lemma_white_counts(text.drop_first());
        lemma_white_counts(text.drop_last());
    }
}

/// The text without the white characters at its ends.
pub fn trim(text: &str) -> (result: String)
    ensures
        result@ == trimmed(text@),
{
    let chars = chars_of(text);
    let mut from: usize = 0;
    assert(chars@.skip(0) =~= chars@);
    while from < chars.len() && white(chars[from])
        invariant
            from <= chars@.len(),
            leading_white(chars@) == from + leading_white(chars@.skip(from as int)),
        decreases chars@.len() - from,
    {
        assert(chars@.skip(from as int).drop_first() =~= chars@.skip(from + 1));
        from += 1;
    }
    let ghost rest = chars@.skip(from as int);
    assert(leading_white(rest) == 0);
    let mut to: usize = chars.len();
    assert(rest.take(rest.len() as int) =~= rest);
    while to > from && white(chars[to - 1])
        invariant
            from <= to <= chars@.len(),
            rest == chars@.skip(from as int),
            trailing_white(rest) == chars@.len() - to + trailing_white(rest.take(to - from)),
        decreases to - from,
    {
        assert(rest.take(to - from).drop_last() =~= rest.take(to - 1 - from));
        to -= 1;
    }
    assert(chars@.subrange(from as int, to as int) =~= rest.take(to - from));
    text_range(&chars, from, to)
}

/// The decimal digit for a number below ten.
pub open spec fn digit(n: nat) -> char {
    ('0' as u32 + n) as char
}

/// A number in decimal, without leading zeros.
pub open spec fn decimal(n: nat) -> Seq<char>
    decreases n,
{
    if n < 10 {
        seq![digit(n)]
    } else {
        decimal(n / 10).push(digit(n % 10))
    }
}

/// Appends a number in decimal.
pub fn push_decimal(text: &mut String, n: u128)
    ensures
        final(text)@ == old(text)@ + decimal(n as nat),
    decreases n,
{
    if n >= 10 {
        push_decimal(text, n / 10);
    }
    let ghost before = text@;
    text.push((48u8 + (n % 10) as u8) as char);
    proof {
        assert(text@ =~= old(text)@ + decimal(n as nat));
    }
}

/// Appends a number in decimal.
pub fn push_number(text: &mut String, n: u64)
    ensures
        final(text)@ == old(text)@ + decimal(n as nat),
{
    push_decimal(text, n as u128);
}

/// Appends a count in decimal.
pub fn push_count(text: &mut String, n: usize)
    ensures
        final(text)@ == old(text)@ + decimal(n as nat),
{
    push_decimal(text, n as u128);
}

/// A number in decimal with its sign always written.
pub open spec fn signed_decimal(n: int) -> Seq<char> {
    if n < 0 {
        seq!['-'] + decimal((-n) as nat)
    } else {
        seq!['+'] + decimal(n as nat)
    }
}

/// Appends a number in decimal with its sign always written.
pub fn push_signed(text: &mut String, n: i128)
    ensures
        final(text)@ == old(text)@ + signed_decimal(n as int),
{
    if n < 0 {
        text.push('-');
        push_decimal(text, (-(n + 1)) as u128 + 1);
    } else {
        text.push('+');
        push_decimal(text, n as u128);
    }
    assert(text@ =~= old(text)@ + signed_decimal(n as int));
}

/// A text with its first character in uppercase.
pub open spec fn capitalized(text: Seq<char>) -> Seq<char> {
    if text.len() == 0 {
        text
    } else {
        uppercase(text[0]) + text.drop_first()
    }
}

/// A text with its first character in uppercase.
pub fn capitalize(value: &str) -> (result: String)
    ensures
        result@ == capitalized(value@),
{
    let chars = chars_of(value);
    if chars.len() == 0 {
        return String::new();
    }
    let mut result = upper(chars[0]);
    let rest = text_range(&chars, 1, chars.len());
    result.append(rest.as_str());
    assert(chars@.subrange(1, chars@.len() as int) =~= chars@.drop_first());
    result
}

/// The texts of a list with a separator between them.
pub open spec fn joined(parts: Seq<Seq<char>>, separator: Seq<char>) -> Seq<char>
    decreases parts.len(),
{
    if parts.len() == 0 {
        Seq::empty()
    } else if parts.len() == 1 {
        parts[0]
    } else {
        joined(parts.drop_last(), separator) + separator + parts.last()
    }
}

/// The sort key of a text: its characters, raised by one, and a final zero.
pub open spec fn text_key(text: Seq<char>) -> Seq<u64> {
    Seq::new(text.len(), |i: int| (text[i] as u32 + 1) as u64).push(0)
}

/// Appends the sort key of a text.
pub fn push_text_key(key: &mut Vec<u64>, text: &str)
    ensures
        final(key)@ == old(key)@ + text_key(text@),
{
    let chars = chars_of(text);
    let ghost before = key@;
    let mut i: usize = 0;
    while i < chars.len()
        invariant
            i <= chars@.len(),
            chars@ == text@,
            key@ == before + Seq::new(i as nat, |j: int| (text@[j] as u32 + 1) as u64),
        decreases chars@.len() - i,
    {
        key.push((chars[i] as u32) as u64 + 1);
        i += 1;
        assert(key@ =~= before + Seq::new(i as nat, |j: int| (text@[j] as u32 + 1) as u64));
    }
    key.push(0);
    assert(key@ =~= before + text_key(text@));
}

proof fn lemma_char_key(left: char, right: char)
    requires
        (left as u32 + 1) as u64 == (right as u32 + 1) as u64,
    ensures
        left == right,
{
}

/// Texts with the same sort key are the same.
pub proof fn lemma_text_key_injective(left: Seq<char>, right: Seq<char>)
    ensures
        text_key(left) == text_key(right) <==> left == right,
{
    if text_key(left) == text_key(right) {
        assert(text_key(left).len() == left.len() + 1);
        assert forall|i: int| 0 <= i < left.len() implies left[i] == right[i] by {
            assert(text_key(left)[i] == (left[i] as u32 + 1) as u64);
            assert(text_key(right)[i] == (right[i] as u32 + 1) as u64);
            lemma_char_key(left[i], right[i]);
        }
        assert(left =~= right);
    }
}

/// Whether characters spell a text.
pub fn spells(chars: &Vec<char>, text: &str) -> (result: bool)
    ensures
        result == (chars@ == text@),
{
    let mut i: usize = 0;
    for character in iter: text.chars()
        invariant
            iter.seq() == text@,
            i == iter.index(),
            i <= chars@.len(),
            forall|j: int| 0 <= j < i ==> chars@[j] == text@[j],
    {
        if i >= chars.len() || chars[i] != character {
            return false;
        }
        i += 1;
    }
    assert(i == chars@.len() ==> chars@ =~= text@);
    i == chars.len()
}

/// The characters of texts.
pub open spec fn texts(list: Seq<String>) -> Seq<Seq<char>> {
    list.map_values(|item: String| item@)
}

/// The texts of a list with a separator between them.
pub fn join(parts: &Vec<String>, separator: &str) -> (result: String)
    ensures
        result@ == joined(texts(parts@), separator@),
{
    let ghost all = texts(parts@);
    let mut result = String::new();
    let mut i: usize = 0;
    assert(result@ =~= joined(all.take(0), separator@));
    while i < parts.len()
        invariant
            i <= parts@.len(),
            all == texts(parts@),
            result@ == joined(all.take(i as int), separator@),
        decreases parts@.len() - i,
    {
        assert(all.take(i + 1).drop_last() =~= all.take(i as int));
        assert(all.take(i + 1).last() == parts@[i as int]@);
        if i > 0 {
            result.append(separator);
        }
        result.append(parts[i].as_str());
        i += 1;
        assert(result@ =~= joined(all.take(i as int), separator@));
    }
    assert(all.take(i as int) =~= all);
    result
}

/// What a number is written as is made of digits, begins with no needless zero
/// and has the number's value.
pub proof fn numbers_read_back(n: nat)
    ensures
        decimal(n).len() > 0,
        quantity::digits_only(decimal(n)),
        quantity::digits_value(quantity::digits_of(decimal(n))) == n,
        n > 0 ==> decimal(n)[0] != '0',
        n == 0 ==> decimal(n) == seq!['0'],
    decreases n,
{
    reveal_with_fuel(quantity::digits_value, 2);
    if n < 10 {
        assert(quantity::digits_of(decimal(n)) =~= seq![n as u8]);
        assert(seq![n as u8].drop_last() =~= Seq::empty());
    } else {
        numbers_read_back(n / 10);
        let front = decimal(n / 10);
        let last = digit(n % 10);
        assert(decimal(n).drop_last() =~= front);
        assert(quantity::digits_of(decimal(n)).drop_last() =~= quantity::digits_of(front));
        assert(quantity::digits_of(decimal(n)).last() == n % 10);
        assert forall|i: int| 0 <= i < decimal(n).len() implies quantity::is_digit(
            #[trigger] decimal(n)[i],
        ) by {
            if i < front.len() {
                assert(decimal(n)[i] == front[i]);
            }
        }
    }
}

/// A signed number begins with its sign, `+` where it is not negative, and its
/// distance from zero follows.
pub proof fn signed_numbers_begin_with_their_sign(n: int)
    ensures
        signed_decimal(n).len() > 1,
        signed_decimal(n)[0] == '-' <==> n < 0,
        signed_decimal(n)[0] == '+' <==> n >= 0,
        quantity::digits_value(quantity::digits_of(signed_decimal(n).drop_first())) == if n < 0 {
            -n
        } else {
            n
        },
{
    let distance = (if n < 0 {
        -n
    } else {
        n
    }) as nat;
    numbers_read_back(distance);
    assert(signed_decimal(n).drop_first() =~= decimal(distance));
}

proof fn lemma_leading_white(text: Seq<char>)
    ensures
        leading_white(text) <= text.len(),
        forall|i: int| 0 <= i < leading_white(text) ==> is_white(#[trigger] text[i]),
        leading_white(text) < text.len() ==> !is_white(text[leading_white(text) as int]),
    decreases text.len(),
{
    if text.len() > 0 && is_white(text[0]) {
        let rest = text.drop_first();
        lemma_leading_white(rest);
        assert forall|i: int| 0 <= i < leading_white(text) implies is_white(#[trigger] text[i]) by {
            if i > 0 {
                assert(text[i] == rest[i - 1]);
            }
        }
        if leading_white(text) < text.len() {
            assert(text[leading_white(text) as int] == rest[leading_white(rest) as int]);
        }
    }
}

proof fn lemma_trailing_white(text: Seq<char>)
    ensures
        trailing_white(text) <= text.len(),
        forall|i: int|
            text.len() - trailing_white(text) <= i < text.len() ==> is_white(#[trigger] text[i]),
        trailing_white(text) < text.len() ==> !is_white(
            text[text.len() - trailing_white(text) - 1],
        ),
    decreases text.len(),
{
    if text.len() > 0 && is_white(text.last()) {
        let rest = text.drop_last();
        lemma_trailing_white(rest);
        assert forall|i: int|
            text.len() - trailing_white(text) <= i < text.len() implies is_white(
            #[trigger] text[i],
        ) by {
            if i < text.len() - 1 {
                assert(text[i] == rest[i]);
            }
        }
        if trailing_white(text) < text.len() {
            assert(text[text.len() - trailing_white(text) - 1] == rest[rest.len() - trailing_white(
                rest,
            ) - 1]);
        }
    }
}

/// Trimming takes white space off both ends, all of it and nothing else.
pub proof fn trimming_takes_white_ends_off(text: Seq<char>) -> (ends: (Seq<char>, Seq<char>))
    ensures
        text == ends.0 + trimmed(text) + ends.1,
        forall|i: int| 0 <= i < ends.0.len() ==> is_white(#[trigger] ends.0[i]),
        forall|i: int| 0 <= i < ends.1.len() ==> is_white(#[trigger] ends.1[i]),
        trimmed(text).len() > 0 ==> !is_white(trimmed(text)[0]) && !is_white(
            trimmed(text).last(),
        ),
{
    let at = leading_white(text) as int;
    let rest = text.skip(at);
    lemma_leading_white(text);
    lemma_trailing_white(rest);
    let end = rest.len() - trailing_white(rest);
    assert(text =~= text.take(at) + rest.take(end) + rest.skip(end));
    (text.take(at), rest.skip(end))
}

/// A text holds a part if something stands before it and something behind it,
/// be it nothing.
pub proof fn a_held_part_has_both_sides(text: Seq<char>, part: Seq<char>)
    ensures
        contains_text(text, part) <==> exists|before: Seq<char>, behind: Seq<char>|
            text == #[trigger] (before + part + behind),
{
    if contains_text(text, part) {
        let at = choose|at: int| occurs_at(text, part, at);
        let before = text.take(at);
        let behind = text.skip(at + part.len());
        assert(text =~= before + part + behind);
    }
    if exists|before: Seq<char>, behind: Seq<char>| text == #[trigger] (before + part + behind) {
        let (before, behind) = choose|before: Seq<char>, behind: Seq<char>|
            text == #[trigger] (before + part + behind);
        let at = before.len() as int;
        assert(text.subrange(at, at + part.len()) =~= part);
        assert(occurs_at(text, part, at));
    }
}

/// Two texts are the same but for case if they have the same letters, where a
/// capital letter from A to Z may stand for its small one.
pub proof fn only_the_case_of_letters_is_ignored(left: Seq<char>, right: Seq<char>)
    ensures
        same_ignoring_case(left, right) <==> left.len() == right.len() && forall|i: int|
            #![trigger left[i]]
            0 <= i < left.len() ==> left[i] == right[i] || ('A' <= left[i] <= 'Z' && right[i] as int
                == left[i] as int + 32) || ('A' <= right[i] <= 'Z' && left[i] as int
                == right[i] as int + 32),
{
}

/// Joined parts stand in their order with the separator between every two.
pub proof fn parts_are_joined_in_order(
    parts: Seq<Seq<char>>,
    part: Seq<char>,
    separator: Seq<char>,
)
    ensures
        joined(Seq::empty(), separator) == Seq::<char>::empty(),
        joined(seq![part], separator) == part,
        parts.len() > 0 ==> joined(parts.push(part), separator) == joined(parts, separator)
            + separator + part,
{
    assert(parts.push(part).drop_last() =~= parts);
}

proof fn lemma_char_order(left: char, right: char)
    requires
        left < right,
    ensures
        ((left as u32 + 1) as u64) < ((right as u32 + 1) as u64),
{
}

/// The keys of two texts part where the texts do.
pub proof fn texts_part_where_they_differ(left: Seq<char>, right: Seq<char>, place: int)
    requires
        0 <= place <= left.len(),
        place < right.len(),
        forall|i: int| 0 <= i < place ==> left[i] == right[i],
        place < left.len() ==> left[place] < right[place],
    ensures
        order::part_at(text_key(left), text_key(right), place),
        text_key(left)[place] < text_key(right)[place],
{
    assert(text_key(right)[place] == (right[place] as u32 + 1) as u64);
    if place < left.len() {
        lemma_char_order(left[place], right[place]);
        assert(text_key(left)[place] == (left[place] as u32 + 1) as u64);
    } else {
        lemma_char_above_zero(right[place]);
        assert(text_key(left)[place] == 0);
    }
    assert forall|i: int| 0 <= i < place implies text_key(left)[i] == text_key(right)[i] by {
        assert(left[i] == right[i]);
    }
}

proof fn lemma_char_above_zero(letter: char)
    ensures
        ((letter as u32 + 1) as u64) > 0,
{
}

/// Texts are ordered letter by letter, and a text comes before those that begin
/// with it.
pub proof fn texts_are_ordered_letter_by_letter(left: Seq<char>, right: Seq<char>, place: int)
    requires
        0 <= place <= left.len(),
        place <= right.len(),
        forall|i: int| 0 <= i < place ==> left[i] == right[i],
    ensures
        place < left.len() && place < right.len() && left[place] < right[place] ==> order::precedes(
            text_key(left),
            text_key(right),
        ),
        place == left.len() && place < right.len() ==> order::precedes(
            text_key(left),
            text_key(right),
        ),
{
    if place < right.len() && (place == left.len() || left[place] < right[place]) {
        texts_part_where_they_differ(left, right, place);
        order::the_smaller_number_comes_first(text_key(left), text_key(right), place);
    }
}

} // verus!
