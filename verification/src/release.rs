//! The form of release versions.
use vstd::prelude::*;

use crate::quantity;
use crate::text;

verus! {

/// The parts of a text between the given characters. There is always one.
pub open spec fn parts_of(value: Seq<char>, separator: char) -> Seq<Seq<char>>
    decreases value.len(),
{
    if value.len() == 0 {
        seq![Seq::empty()]
    } else {
        let before = parts_of(value.drop_last(), separator);
        if value.last() == separator {
            before.push(Seq::empty())
        } else {
            before.drop_last().push(before.last().push(value.last()))
        }
    }
}

pub open spec fn is_ascii_digit(character: char) -> bool {
    '0' <= character <= '9'
}

/// Whether a text is a number as it is written in a version: digits, without
/// zeros that could be left out.
pub open spec fn is_version_number(part: Seq<char>) -> bool {
    &&& part.len() > 0
    &&& forall|i: int| 0 <= i < part.len() ==> is_ascii_digit(#[trigger] part[i])
    &&& part.len() == 1 || part[0] != '0'
}

/// Whether a text has the form MAJOR.MINOR.PATCH.
pub open spec fn is_release(version: Seq<char>) -> bool {
    let parts = parts_of(version, '.');
    &&& parts.len() == 3
    &&& is_version_number(parts[0])
    &&& is_version_number(parts[1])
    &&& is_version_number(parts[2])
}

pub open spec fn char_views(parts: Seq<Vec<char>>) -> Seq<Seq<char>> {
    Seq::new(parts.len(), |i: int| parts[i]@)
}

/// The parts of a text between the given characters.
fn split(value: &Vec<char>, separator: char) -> (parts: Vec<Vec<char>>)
    ensures
        char_views(parts@) == parts_of(value@, separator),
{
    let mut parts: Vec<Vec<char>> = Vec::new();
    let mut current: Vec<char> = Vec::new();
    let mut i: usize = 0;
    proof {
        assert(char_views(parts@).push(current@) =~= parts_of(value@.take(0), separator));
    }
    while i < value.len()
        invariant
            i <= value@.len(),
            char_views(parts@).push(current@) == parts_of(value@.take(i as int), separator),
        decreases value@.len() - i,
    {
        let ghost done = char_views(parts@);
        let ghost word = current@;
        assert(value@.take(i + 1).drop_last() =~= value@.take(i as int));
        if value[i] == separator {
            parts.push(current);
            current = Vec::new();
            assert(char_views(parts@) =~= done.push(word));
            assert(current@ =~= Seq::empty());
        } else {
            current.push(value[i]);
            assert(done.push(word).drop_last() =~= done);
        }
        i += 1;
    }
    assert(value@.take(i as int) =~= value@);
    let ghost done = char_views(parts@);
    let ghost word = current@;
    parts.push(current);
    assert(char_views(parts@) =~= done.push(word));
    parts
}

fn reads_as_number(part: &Vec<char>) -> (result: bool)
    ensures
        result == is_version_number(part@),
{
    if part.len() == 0 {
        return false;
    }
    let mut i: usize = 0;
    while i < part.len()
        invariant
            i <= part@.len(),
            forall|j: int| 0 <= j < i ==> is_ascii_digit(#[trigger] part@[j]),
        decreases part@.len() - i,
    {
        if !('0' <= part[i] && part[i] <= '9') {
            assert(!is_ascii_digit(part@[i as int]));
            return false;
        }
        i += 1;
    }
    part.len() == 1 || part[0] != '0'
}

/// Whether a text has the form MAJOR.MINOR.PATCH.
pub fn is_release_version(version: &str) -> (result: bool)
    ensures
        result == is_release(version@),
{
    let chars = text::chars_of(version);
    let parts = split(&chars, '.');
    assert(char_views(parts@).len() == parts@.len());
    parts.len() == 3 && reads_as_number(&parts[0]) && reads_as_number(&parts[1])
        && reads_as_number(&parts[2])
}

proof fn lemma_parts(value: Seq<char>, separator: char)
    ensures
        parts_of(value, separator).len() > 0,
    decreases value.len(),
{
    if value.len() > 0 {
        lemma_parts(value.drop_last(), separator);
    }
}

/// A separator begins a new part.
proof fn lemma_new_part(value: Seq<char>, separator: char)
    ensures
        parts_of(value.push(separator), separator) == parts_of(value, separator).push(
            Seq::empty(),
        ),
{
    assert(value.push(separator).drop_last() =~= value);
}

/// Other letters go on with the last part.
proof fn lemma_same_part(value: Seq<char>, more: Seq<char>, separator: char)
    requires
        !more.contains(separator),
    ensures
        parts_of(value + more, separator) == parts_of(value, separator).drop_last().push(
            parts_of(value, separator).last() + more,
        ),
    decreases more.len(),
{
    let before = parts_of(value, separator);
    lemma_parts(value, separator);
    if more.len() == 0 {
        assert(value + more =~= value);
        assert(before.last() + more =~= before.last());
        assert(before.drop_last().push(before.last()) =~= before);
    } else {
        let front = more.drop_last();
        assert(!front.contains(separator)) by {
            if front.contains(separator) {
                let i = choose|i: int| 0 <= i < front.len() && front[i] == separator;
                assert(more[i] == separator);
            }
        }
        lemma_same_part(value, front, separator);
        assert(more[more.len() - 1] == more.last());
        assert((value + more).drop_last() =~= value + front);
        assert((before.last() + front).push(more.last()) =~= before.last() + more);
        let longer = before.drop_last().push(before.last() + front);
        assert(longer.drop_last() =~= before.drop_last());
    }
}

/// Three texts without points, with points between them, are three parts.
proof fn lemma_three_parts(first: Seq<char>, second: Seq<char>, third: Seq<char>)
    requires
        !first.contains('.'),
        !second.contains('.'),
        !third.contains('.'),
    ensures
        parts_of(first.push('.') + second.push('.') + third, '.') == seq![first, second, third],
{
    let none = Seq::<char>::empty();
    lemma_same_part(none, first, '.');
    assert(none + first =~= first);
    assert(parts_of(none, '.') =~= seq![none]);
    assert(parts_of(first, '.') =~= seq![first]);
    lemma_new_part(first, '.');
    let one = first.push('.');
    assert(parts_of(one, '.') =~= seq![first, none]);
    lemma_same_part(one, second, '.');
    assert(none + second =~= second);
    assert(parts_of(one + second, '.') =~= seq![first, second]);
    lemma_new_part(one + second, '.');
    let two = one + second.push('.');
    assert((one + second).push('.') =~= two);
    assert(parts_of(two, '.') =~= seq![first, second, none]);
    lemma_same_part(two, third, '.');
    assert(none + third =~= third);
    assert(parts_of(two + third, '.') =~= seq![first, second, third]);
}

proof fn lemma_joined_again(value: Seq<char>, separator: char)
    ensures
        text::joined(parts_of(value, separator), seq![separator]) == value,
    decreases value.len(),
{
    let none = Seq::<char>::empty();
    if value.len() == 0 {
        assert(parts_of(value, separator) =~= seq![none]);
        assert(value =~= none);
    } else {
        let front = value.drop_last();
        let before = parts_of(front, separator);
        let after = parts_of(value, separator);
        lemma_parts(front, separator);
        lemma_joined_again(front, separator);
        if value.last() == separator {
            assert(after.drop_last() =~= before);
            assert(value =~= front + seq![separator] + none);
        } else {
            assert(after.drop_last() =~= before.drop_last());
            if before.len() == 1 {
                assert(value =~= before[0].push(value.last()));
            } else {
                let start = text::joined(before.drop_last(), seq![separator]) + seq![separator];
                let last = value.last();
                assert(front == start + before.last());
                assert(value =~= front.push(last));
                assert((start + before.last()).push(last) =~= start + before.last().push(last));
            }
        }
    }
}

/// A release is three numbers with points between them, each of digits and
/// without a needless zero at its start.
pub proof fn releases_are_three_numbers(version: Seq<char>)
    ensures
        is_release(version) <==> exists|first: Seq<char>, second: Seq<char>, third: Seq<char>|
            version == #[trigger] (first.push('.') + second.push('.') + third)
                && is_version_number(first) && is_version_number(second) && is_version_number(
                third,
            ),
{
    if is_release(version) {
        let parts = parts_of(version, '.');
        let first = parts[0];
        let second = parts[1];
        let third = parts[2];
        lemma_joined_again(version, '.');
        reveal_with_fuel(text::joined, 3);
        assert(parts.drop_last().drop_last()[0] == first);
        assert(parts.drop_last()[1] == second);
        assert(version =~= first.push('.') + second.push('.') + third);
    }
    if exists|first: Seq<char>, second: Seq<char>, third: Seq<char>|
        version == #[trigger] (first.push('.') + second.push('.') + third) && is_version_number(
            first,
        ) && is_version_number(second) && is_version_number(third) {
        let (first, second, third) = choose|
            first: Seq<char>,
            second: Seq<char>,
            third: Seq<char>,
        |
            version == #[trigger] (first.push('.') + second.push('.') + third)
                && is_version_number(first) && is_version_number(second) && is_version_number(
                third,
            );
        lemma_three_parts(first, second, third);
    }
}

/// A version number has the decimal value that is written back as it stands.
pub proof fn version_numbers_are_decimal(n: nat)
    ensures
        is_version_number(text::decimal(n)),
{
    text::numbers_read_back(n);
    assert forall|i: int| 0 <= i < text::decimal(n).len() implies is_ascii_digit(
        #[trigger] text::decimal(n)[i],
    ) by {
        assert(quantity::is_digit(text::decimal(n)[i]));
    }
}

} // verus!
