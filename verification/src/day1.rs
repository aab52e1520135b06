use crate::sums::{lemma_total_prefix, lemma_total_step, sum_of, total};
use crate::text::{chars_of, digit, digit_value, is_digit, texts};
use vstd::prelude::*;

verus! {

/// The value of the first decimal digit of `s`.
pub open spec fn leading_digit(s: Seq<char>) -> Option<nat>
    decreases s.len(),
{
    if s.len() == 0 {
        None
    } else if is_digit(s[0]) {
        Some(digit_value(s[0]))
    } else {
        leading_digit(s.drop_first())
    }
}

/// The value of the last decimal digit of `s`.
pub open spec fn trailing_digit(s: Seq<char>) -> Option<nat>
    decreases s.len(),
{
    if s.len() == 0 {
        None
    } else if is_digit(s.last()) {
        Some(digit_value(s.last()))
    } else {
        trailing_digit(s.drop_last())
    }
}

/// The two-digit number made of the first and the last decimal digit of
/// `s`; nothing where `s` holds no digit.
pub open spec fn calibration(s: Seq<char>) -> Option<nat> {
    match (leading_digit(s), trailing_digit(s)) {
        (Some(a), Some(b)) => Some(10 * a + b),
        _ => None,
    }
}

/// The English word for `v`, for `v` from 1 to 9.
pub open spec fn name_of(v: int) -> Seq<char> {
    if v == 1 {
        "one"@
    } else if v == 2 {
        "two"@
    } else if v == 3 {
        "three"@
    } else if v == 4 {
        "four"@
    } else if v == 5 {
        "five"@
    } else if v == 6 {
        "six"@
    } else if v == 7 {
        "seven"@
    } else if v == 8 {
        "eight"@
    } else {
        "nine"@
    }
}

/// Whether `w` stands in `s` at index `i`.
pub open spec fn starts_at(s: Seq<char>, i: int, w: Seq<char>) -> bool {
    0 <= i && i + w.len() <= s.len() && s.subrange(i, i + w.len()) == w
}

/// The value of the first of the words for `v`, `v + 1`, ..., 9 that stands
/// in `s` at index `i`.
pub open spec fn named_at(s: Seq<char>, i: int, v: int) -> Option<nat>
    decreases 10 - v,
{
    if v < 1 || v > 9 {
        None
    } else if starts_at(s, i, name_of(v)) {
        Some(v as nat)
    } else {
        named_at(s, i, v + 1)
    }
}

/// The value that is spelled at index `i` of `s`: that of a digit from `1`
/// to `9`, or of an English word from `one` to `nine` that starts there. A
/// digit goes before a word, and among the words the one for the lesser
/// value.
pub open spec fn value_at(s: Seq<char>, i: int) -> Option<nat> {
    if !(0 <= i < s.len()) {
        None
    } else if '1' <= s[i] && s[i] <= '9' {
        Some(digit_value(s[i]))
    } else {
        named_at(s, i, 1)
    }
}

/// The value spelled at the least index of `s` from `i` on that spells one.
pub open spec fn first_spelled(s: Seq<char>, i: int) -> Option<nat>
    decreases s.len() - i,
{
    if i < 0 || i >= s.len() {
        None
    } else if value_at(s, i) is Some {
        value_at(s, i)
    } else {
        first_spelled(s, i + 1)
    }
}

/// The value spelled at the greatest index of `s` before `i` that spells
/// one.
pub open spec fn last_spelled(s: Seq<char>, i: int) -> Option<nat>
    decreases i,
{
    if i <= 0 {
        None
    } else if value_at(s, i - 1) is Some {
        value_at(s, i - 1)
    } else {
        last_spelled(s, i - 1)
    }
}

/// The two-digit number made of the first and the last value that `s`
/// spells, as a digit or as a word; nothing where it spells none.
pub open spec fn spelled_calibration(s: Seq<char>) -> Option<nat> {
    match (first_spelled(s, 0), last_spelled(s, s.len() as int)) {
        (Some(a), Some(b)) => Some(10 * a + b),
        _ => None,
    }
}

/// The sum of the calibration values of the lines `rows`, where every line
/// has one and the sum fits.
pub open spec fn part1_answer(rows: Seq<Seq<char>>) -> Option<u32> {
    sum_of(rows.map_values(|row: Seq<char>| calibration(row)))
}

/// The sum of the spelled calibration values of the lines `rows`, where
/// every line has one and the sum fits.
pub open spec fn part2_answer(rows: Seq<Seq<char>>) -> Option<u32> {
    sum_of(rows.map_values(|row: Seq<char>| spelled_calibration(row)))
}

/// The value of a decimal digit.
fn value_of(c: char) -> (v: u32)
    requires
        is_digit(c),
    ensures
        v == digit_value(c),
        v <= 9,
{
    c as u32 - '0' as u32
}

/// The calibration value of a line: ten times its first decimal digit plus
/// its last.
pub fn calibration_value(line: &str) -> (r: Option<u32>)
    ensures
        match r {
            Some(n) => calibration(line@) == Some(n as nat),
            None => calibration(line@) is None,
        },
{
    let s = chars_of(line);
    let mut lo: usize = 0;
    assert(s@.skip(0) =~= s@);
    while lo < s.len() && !digit(s[lo])
        invariant
            lo <= s.len(),
            leading_digit(s@) == leading_digit(s@.skip(lo as int)),
        decreases s.len() - lo,
    {
        proof {
            assert(s@.skip(lo as int).drop_first() =~= s@.skip(lo + 1));
        }
        lo += 1;
    }
    if lo == s.len() {
        return None;
    }
    let first = value_of(s[lo]);
    let mut hi: usize = s.len();
    assert(s@.take(hi as int) =~= s@);
    while hi > 0 && !digit(s[hi - 1])
        invariant
            hi <= s.len(),
            trailing_digit(s@) == trailing_digit(s@.take(hi as int)),
        decreases hi,
    {
        proof {
            assert(s@.take(hi as int).drop_last() =~= s@.take(hi - 1));
        }
        hi -= 1;
    }
    if hi == 0 {
        return None;
    }
    let last = value_of(s[hi - 1]);
    Some(10 * first + last)
}

/// Whether `w` stands in `s` at index `i`.
fn stands_at(s: &Vec<char>, i: usize, w: &Vec<char>) -> (b: bool)
    requires
        i <= s.len(),
    ensures
        b == starts_at(s@, i as int, w@),
{
    if w.len() > s.len() - i {
        return false;
    }
    let mut k: usize = 0;
    while k < w.len()
        invariant
            k <= w.len(),
            i + w.len() <= s.len(),
            forall|j: int| 0 <= j < k ==> s@[i + j] == w@[j],
        decreases w.len() - k,
    {
        if s[i + k] != w[k] {
            assert(s@.subrange(i as int, i + w.len())[k as int] != w@[k as int]);
            return false;
        }
        k += 1;
    }
    assert(s@.subrange(i as int, i + w.len()) =~= w@);
    true
}

/// The English words for 1 to 9, in order.
fn names() -> (r: Vec<Vec<char>>)
    ensures
        r.len() == 9,
        forall|v: int| 1 <= v <= 9 ==> (#[trigger] r@[v - 1])@ == name_of(v),
{
    let mut r: Vec<Vec<char>> = Vec::new();
    r.push(chars_of("one"));
    r.push(chars_of("two"));
    r.push(chars_of("three"));
    r.push(chars_of("four"));
    r.push(chars_of("five"));
    r.push(chars_of("six"));
    r.push(chars_of("seven"));
    r.push(chars_of("eight"));
    r.push(chars_of("nine"));
    assert forall|v: int| 1 <= v <= 9 implies (#[trigger] r@[v - 1])@ == name_of(v) by {
        if v == 1 {
        } else if v == 2 {
        } else if v == 3 {
        } else if v == 4 {
        } else if v == 5 {
        } else if v == 6 {
        } else if v == 7 {
        } else if v == 8 {
        } else {
        }
    }
    r
}

/// The value that is spelled at index `i` of `s`.
fn spelled_at(s: &Vec<char>, i: usize, names: &Vec<Vec<char>>) -> (r: Option<u32>)
    requires
        i < s.len(),
        names.len() == 9,
        forall|v: int| 1 <= v <= 9 ==> (#[trigger] names@[v - 1])@ == name_of(v),
    ensures
        match r {
            Some(n) => value_at(s@, i as int) == Some(n as nat) && 1 <= n <= 9,
            None => value_at(s@, i as int) is None,
        },
{
    let c = s[i];
    if '1' <= c && c <= '9' {
        return Some(value_of(c));
    }
    let mut v: u32 = 1;
    while v <= 9
        invariant
            1 <= v <= 10,
            i < s.len(),
            !('1' <= s@[i as int] && s@[i as int] <= '9'),
            names.len() == 9,
            forall|v: int| 1 <= v <= 9 ==> (#[trigger] names@[v - 1])@ == name_of(v),
            named_at(s@, i as int, 1) == named_at(s@, i as int, v as int),
        decreases 10 - v,
    {
        assert(names@[v as int - 1]@ == name_of(v as int));
        if stands_at(s, i, &names[(v - 1) as usize]) {
            return Some(v);
        }
        v += 1;
    }
    None
}

/// The spelled calibration value of a line: ten times the first value that
/// it spells, as a digit from `1` to `9` or as a word from `one` to `nine`,
/// plus the last.
pub fn spelled_calibration_value(line: &str) -> (r: Option<u32>)
    ensures
        match r {
            Some(n) => spelled_calibration(line@) == Some(n as nat),
            None => spelled_calibration(line@) is None,
        },
{
    let s = chars_of(line);
    let table = names();
    let mut first: Option<u32> = None;
    let mut lo: usize = 0;
    while lo < s.len() && first.is_none()
        invariant
            lo <= s.len(),
            table.len() == 9,
            forall|v: int| 1 <= v <= 9 ==> (#[trigger] table@[v - 1])@ == name_of(v),
            match first {
                Some(n) => first_spelled(s@, 0) == Some(n as nat) && 1 <= n <= 9,
                None => first_spelled(s@, 0) == first_spelled(s@, lo as int),
            },
        decreases s.len() - lo,
    {
        first = spelled_at(&s, lo, &table);
        lo += 1;
    }
    let mut last: Option<u32> = None;
    let mut hi: usize = s.len();
    while hi > 0 && last.is_none()
        invariant
            hi <= s.len(),
            table.len() == 9,
            forall|v: int| 1 <= v <= 9 ==> (#[trigger] table@[v - 1])@ == name_of(v),
            match last {
                Some(n) => last_spelled(s@, s.len() as int) == Some(n as nat) && 1 <= n <= 9,
                None => last_spelled(s@, s.len() as int) == last_spelled(s@, hi as int),
            },
        decreases hi,
    {
        last = spelled_at(&s, hi - 1, &table);
        hi -= 1;
    }
    match (first, last) {
        (Some(a), Some(b)) => Some(10 * a + b),
        _ => None,
    }
}

/// The sum of the calibration values of `lines`; none where a line holds
/// no digit or the sum is beyond `u32`.
pub fn try_part1(lines: &Vec<String>) -> (r: Option<u32>)
    ensures
        r == part1_answer(texts(lines@)),
{
    let ghost values = texts(lines@).map_values(|row: Seq<char>| calibration(row));
    let ghost numbers = values.map_values(|v: Option<nat>| v.unwrap());
    let mut sum: u32 = 0;
    let mut i: usize = 0;
    while i < lines.len()
        invariant
            i <= lines.len(),
            values == texts(lines@).map_values(|row: Seq<char>| calibration(row)),
            numbers == values.map_values(|v: Option<nat>| v.unwrap()),
            forall|j: int| 0 <= j < i ==> (#[trigger] values[j]) is Some,
            sum == total(numbers.take(i as int)),
        decreases lines.len() - i,
    {
        proof {
            lemma_total_step(numbers, i as int);
            lemma_total_prefix(numbers, i + 1);
        }
        let wide: u64 = match calibration_value(lines[i].as_str()) {
            Some(n) => sum as u64 + n as u64,
            None => {
                assert(values[i as int] is None);
                return None;
            },
        };
        if wide > u32::MAX as u64 {
            return None;
        }
        sum = wide as u32;
        i += 1;
    }
    proof {
        assert(numbers.take(lines.len() as int) =~= numbers);
    }
    Some(sum)
}

/// The sum of the calibration values of `lines`.
pub fn part1(lines: &Vec<String>) -> (sum: u32)
    requires
        part1_answer(texts(lines@)) is Some,
    ensures
        part1_answer(texts(lines@)) == Some(sum),
{
    try_part1(lines).unwrap()
}

/// The sum of the spelled calibration values of `lines`; none where a line
/// spells no value or the sum is beyond `u32`.
pub fn try_part2(lines: &Vec<String>) -> (r: Option<u32>)
    ensures
        r == part2_answer(texts(lines@)),
{
    let ghost values = texts(lines@).map_values(|row: Seq<char>| spelled_calibration(row));
    let ghost numbers = values.map_values(|v: Option<nat>| v.unwrap());
    let mut sum: u32 = 0;
    let mut i: usize = 0;
    while i < lines.len()
        invariant
            i <= lines.len(),
            values == texts(lines@).map_values(|row: Seq<char>| spelled_calibration(row)),
            numbers == values.map_values(|v: Option<nat>| v.unwrap()),
            forall|j: int| 0 <= j < i ==> (#[trigger] values[j]) is Some,
            sum == total(numbers.take(i as int)),
        decreases lines.len() - i,
    {
        proof {
            lemma_total_step(numbers, i as int);
            lemma_total_prefix(numbers, i + 1);
        }
        let wide: u64 = match spelled_calibration_value(lines[i].as_str()) {
            Some(n) => sum as u64 + n as u64,
            None => {
                assert(values[i as int] is None);
                return None;
            },
        };
        if wide > u32::MAX as u64 {
            return None;
        }
        sum = wide as u32;
        i += 1;
    }
    proof {
        assert(numbers.take(lines.len() as int) =~= numbers);
    }
    Some(sum)
}

/// The sum of the spelled calibration values of `lines`.
pub fn part2(lines: &Vec<String>) -> (sum: u32)
    requires
        part2_answer(texts(lines@)) is Some,
    ensures
        part2_answer(texts(lines@)) == Some(sum),
{
    try_part2(lines).unwrap()
}

} // verus!
