//! Reading an instance from its text form.
//!
//! The first line holds the capacity, alone but for white space around it.
//! Every further line that starts with two numbers gives an item, its
//! weight and then its profit; what follows them on the line is ignored,
//! and so is every line that does not start with two numbers.

use crate::item::Item;
use vstd::prelude::*;

verus! {

/// Whether `c` is white space, as Unicode defines it.
pub open spec fn is_space(c: char) -> bool {
    let u = c as u32;
    ||| 0x09 <= u <= 0x0d
    ||| u == 0x20
    ||| u == 0x85
    ||| u == 0xa0
    ||| u == 0x1680
    ||| 0x2000 <= u <= 0x200a
    ||| u == 0x2028
    ||| u == 0x2029
    ||| u == 0x202f
    ||| u == 0x205f
    ||| u == 0x3000
}

/// Whether `c` is one of the ten digits.
pub open spec fn is_digit(c: char) -> bool {
    0x30 <= c as u32 <= 0x39
}

/// Whether `s` holds digits only.
pub open spec fn all_digits(s: Seq<char>) -> bool {
    forall|k: int| 0 <= k < s.len() ==> is_digit(#[trigger] s[k])
}

/// The number that the digits `s` write in base ten.
pub open spec fn digits_value(s: Seq<char>) -> int
    decreases s.len(),
{
    if s.len() == 0 {
        0
    } else {
        10 * digits_value(s.drop_last()) + (s.last() as u32 - 0x30)
    }
}

/// Whether `s` starts with a sign.
pub open spec fn has_sign(s: Seq<char>) -> bool {
    s.len() > 0 && (s[0] == '-' || s[0] == '+')
}

/// The number that `s` writes: an optional sign, then one digit or more,
/// and nothing else. Numbers that an `i64` cannot hold are not read.
pub open spec fn parse_integer(s: Seq<char>) -> Option<i64> {
    let digits = if has_sign(s) {
        s.drop_first()
    } else {
        s
    };
    let value = if has_sign(s) && s[0] == '-' {
        -digits_value(digits)
    } else {
        digits_value(digits)
    };
    if digits.len() > 0 && all_digits(digits) && i64::MIN <= value <= i64::MAX {
        Some(value as i64)
    } else {
        None
    }
}

/// The pieces of `s` between its line feeds; there is always one at least.
pub open spec fn segments(s: Seq<char>) -> Seq<Seq<char>>
    decreases s.len(),
{
    if s.len() == 0 {
        seq![Seq::empty()]
    } else {
        let before = segments(s.drop_last());
        if s.last() == '\n' {
            before.push(Seq::empty())
        } else {
            before.drop_last().push(before.last().push(s.last()))
        }
    }
}

/// The lines of `s`: its segments, without the last one where that is empty.
pub open spec fn lines(s: Seq<char>) -> Seq<Seq<char>> {
    let all = segments(s);
    if all.last().len() == 0 {
        all.drop_last()
    } else {
        all
    }
}

/// The first position at or after `from` where the line `t` ends or stops
/// holding white space (`spaces`) or anything else (`!spaces`).
pub open spec fn scan(t: Seq<char>, from: int, spaces: bool) -> int
    decreases t.len() - from,
{
    if from < 0 || from >= t.len() || is_space(t[from]) != spaces {
        from
    } else {
        scan(t, from + 1, spaces)
    }
}

/// The end of `t` once the white space before position `to` is cut off.
pub open spec fn trim_end(t: Seq<char>, to: int) -> int
    decreases to,
{
    if to <= 0 || to > t.len() || !is_space(t[to - 1]) {
        to
    } else {
        trim_end(t, to - 1)
    }
}

/// The line `t` without the white space at its two ends.
pub open spec fn trimmed(t: Seq<char>) -> Seq<char> {
    let from = scan(t, 0, true);
    let to = trim_end(t, t.len() as int);
    if from < to {
        t.subrange(from, to)
    } else {
        Seq::empty()
    }
}

/// The item that the line `t` gives: its first two words, where both are
/// numbers.
pub open spec fn parse_item(t: Seq<char>) -> Option<Item> {
    let a = scan(t, 0, true);
    let b = scan(t, a, false);
    let c = scan(t, b, true);
    let d = scan(t, c, false);
    if a < b && c < d {
        match (parse_integer(t.subrange(a, b)), parse_integer(t.subrange(c, d))) {
            (Some(weight), Some(profit)) => Some(Item { weight, profit }),
            _ => None,
        }
    } else {
        None
    }
}

/// The items that the lines `ls` give, in their order.
pub open spec fn parse_items(ls: Seq<Seq<char>>) -> Seq<Item>
    decreases ls.len(),
{
    if ls.len() == 0 {
        Seq::empty()
    } else {
        match parse_item(ls.last()) {
            Some(item) => parse_items(ls.drop_last()).push(item),
            None => parse_items(ls.drop_last()),
        }
    }
}

/// The instance that the text `s` gives, items and capacity; nothing where
/// the first line is missing or is not a number.
pub open spec fn parse_instance(s: Seq<char>) -> Option<(Seq<Item>, i64)> {
    let ls = lines(s);
    if ls.len() == 0 {
        None
    } else {
        match parse_integer(trimmed(ls[0])) {
            Some(capacity) => Some((parse_items(ls.skip(1)), capacity)),
            None => None,
        }
    }
}

/// The lines that a list of vectors holds.
pub open spec fn views(ls: Seq<Vec<char>>) -> Seq<Seq<char>> {
    Seq::new(ls.len(), |k: int| ls[k]@)
}

/// More digits never write a smaller number.
pub proof fn lemma_digits_value_grows(s: Seq<char>, k: int)
    requires
        all_digits(s),
        0 <= k <= s.len(),
    ensures
        0 <= digits_value(s.take(k)) <= digits_value(s),
    decreases s.len() - k,
{
    if k == s.len() {
        assert(s.take(k) =~= s);
        lemma_digits_value_nonnegative(s);
    } else {
        lemma_digits_value_grows(s, k + 1);
        assert(s.take(k + 1).drop_last() =~= s.take(k));
        assert(is_digit(s[k]));
        lemma_digits_value_nonnegative(s.take(k));
    }
}

/// Digits never write a negative number.
pub proof fn lemma_digits_value_nonnegative(s: Seq<char>)
    requires
        all_digits(s),
    ensures
        0 <= digits_value(s),
    decreases s.len(),
{
    if s.len() > 0 {
        assert(is_digit(s.last()));
        lemma_digits_value_nonnegative(s.drop_last());
    }
}

/// The characters of `text`, one by one.
pub fn chars_of(text: &str) -> (chars: Vec<char>)
    ensures
        chars@ == text@,
{
    let mut chars: Vec<char> = Vec::new();
    for c in it: text.chars()
        invariant
            chars@ == it.seq().take(it.index() as int),
    {
        chars.push(c);
    }
    chars
}

/// Whether `c` is white space.
pub fn is_space_char(c: char) -> (b: bool)
    ensures
        b == is_space(c),
{
    let u: u32 = c as u32;
    (0x09 <= u && u <= 0x0d) || u == 0x20 || u == 0x85 || u == 0xa0 || u == 0x1680 || (0x2000 <= u
        && u <= 0x200a) || u == 0x2028 || u == 0x2029 || u == 0x202f || u == 0x205f || u == 0x3000
}

/// Splits `chars` into its lines.
pub fn split_lines(chars: &Vec<char>) -> (ls: Vec<Vec<char>>)
    ensures
        views(ls@) == lines(chars@),
{
    let mut done: Vec<Vec<char>> = Vec::new();
    let mut current: Vec<char> = Vec::new();
    let mut k: usize = 0;
    while k < chars.len()
        invariant
            k <= chars.len(),
            views(done@).push(current@) == segments(chars@.take(k as int)),
        decreases chars.len() - k,
    {
        let c = chars[k];
        proof {
            assert(chars@.take(k + 1).drop_last() =~= chars@.take(k as int));
            assert(chars@.take(k + 1).last() == c);
        }
        let ghost before = views(done@).push(current@);
        if c == '\n' {
            done.push(current);
            current = Vec::new();
            assert(views(done@).push(current@) =~= before.push(Seq::empty()));
        } else {
            current.push(c);
            assert(views(done@).push(current@) =~= before.drop_last().push(before.last().push(c)));
        }
        k = k + 1;
    }
    proof {
        assert(chars@.take(k as int) =~= chars@);
    }
    let ghost all = views(done@).push(current@);
    if current.len() > 0 {
        done.push(current);
        assert(views(done@) =~= all);
    } else {
        assert(views(done@) =~= all.drop_last());
    }
    done
}

/// The first position at or after `from` where `line` ends or stops holding
/// white space (`spaces`) or anything else (`!spaces`).
pub fn scan_from(line: &Vec<char>, from: usize, spaces: bool) -> (to: usize)
    requires
        from <= line.len(),
    ensures
        to == scan(line@, from as int, spaces),
        from <= to <= line.len(),
{
    let mut to: usize = from;
    while to < line.len() && is_space_char(line[to]) == spaces
        invariant
            from <= to <= line.len(),
            scan(line@, to as int, spaces) == scan(line@, from as int, spaces),
        decreases line.len() - to,
    {
        to = to + 1;
    }
    to
}

/// The end of `line` once the white space at its end is cut off.
pub fn trim_end_of(line: &Vec<char>) -> (to: usize)
    ensures
        to == trim_end(line@, line@.len() as int),
        to <= line.len(),
{
    let mut to: usize = line.len();
    while to > 0 && is_space_char(line[to - 1])
        invariant
            to <= line.len(),
            trim_end(line@, to as int) == trim_end(line@, line@.len() as int),
        decreases to,
    {
        to = to - 1;
    }
    to
}

/// Reads the number that `line` holds between `from` and `to`.
pub fn parse_integer_between(line: &Vec<char>, from: usize, to: usize) -> (value: Option<i64>)
    requires
        from <= to <= line.len(),
    ensures
        value == parse_integer(line@.subrange(from as int, to as int)),
{
    let ghost word = line@.subrange(from as int, to as int);
    if from == to {
        return None;
    }
    let first = line[from];
    assert(word[0] == first);
    let negative = first == '-';
    let start: usize = if first == '-' || first == '+' {
        from + 1
    } else {
        from
    };
    let ghost digits = line@.subrange(start as int, to as int);
    assert(digits =~= if has_sign(word) {
        word.drop_first()
    } else {
        word
    });
    if start == to {
        return None;
    }
    let mut magnitude: u64 = 0;
    let mut k: usize = start;
    while k < to
        invariant
            start <= k <= to <= line.len(),
            word == line@.subrange(from as int, to as int),
            digits == line@.subrange(start as int, to as int),
            digits == if has_sign(word) {
                word.drop_first()
            } else {
                word
            },
            all_digits(digits.take(k - start)),
            magnitude == digits_value(digits.take(k - start)),
            magnitude <= 0x8000_0000_0000_0000,
        decreases to - k,
    {
        let c = line[k];
        let u: u32 = c as u32;
        assert(digits[k - start] == c);
        if u < 0x30 || u > 0x39 {
            assert(!is_digit(digits[k - start]));
            return None;
        }
        proof {
            assert(digits.take(k + 1 - start).drop_last() =~= digits.take(k - start));
            assert(digits.take(k + 1 - start).last() == c);
        }
        let next: u128 = (magnitude as u128) * 10 + ((u - 0x30) as u128);
        if next > 0x8000_0000_0000_0000 {
            proof {
                if all_digits(digits) {
                    lemma_digits_value_grows(digits, k + 1 - start);
                    assert(digits_value(digits) > 0x8000_0000_0000_0000);
                }
            }
            return None;
        }
        magnitude = next as u64;
        k = k + 1;
    }
    proof {
        assert(digits.take(k - start) =~= digits);
    }
    if negative {
        if magnitude == 0x8000_0000_0000_0000 {
            Some(i64::MIN)
        } else {
            Some(-(magnitude as i64))
        }
    } else if magnitude > 0x7fff_ffff_ffff_ffff {
        None
    } else {
        Some(magnitude as i64)
    }
}

/// Reads the capacity from the first line.
pub fn parse_capacity_line(line: &Vec<char>) -> (capacity: Option<i64>)
    ensures
        capacity == parse_integer(trimmed(line@)),
{
    let from = scan_from(line, 0, true);
    let to = trim_end_of(line);
    if from < to {
        parse_integer_between(line, from, to)
    } else {
        assert(parse_integer(Seq::<char>::empty()) is None);
        None
    }
}

/// Reads the item that a line gives, where it gives one.
pub fn parse_item_line(line: &Vec<char>) -> (item: Option<Item>)
    ensures
        item == parse_item(line@),
{
    let a = scan_from(line, 0, true);
    let b = scan_from(line, a, false);
    let c = scan_from(line, b, true);
    let d = scan_from(line, c, false);
    if a < b && c < d {
        match parse_integer_between(line, a, b) {
            Some(weight) => match parse_integer_between(line, c, d) {
                Some(profit) => Some(Item { weight, profit }),
                None => None,
            },
            None => None,
        }
    } else {
        None
    }
}

/// Reads an instance from its text: the items and the capacity, or nothing
/// where the first line is missing or is not a number.
pub fn parse_input(content: &str) -> (instance: Option<(Vec<Item>, i64)>)
    ensures
        match instance {
            Some((items, capacity)) => parse_instance(content@) == Some((items@, capacity)),
            None => parse_instance(content@) is None,
        },
{
    let chars = chars_of(content);
    let ls = split_lines(&chars);
    if ls.len() == 0 {
        return None;
    }
    let capacity = match parse_capacity_line(&ls[0]) {
        Some(capacity) => capacity,
        None => {
            assert(views(ls@)[0] == ls@[0]@);
            return None;
        },
    };
    assert(views(ls@)[0] == ls@[0]@);
    let mut items: Vec<Item> = Vec::new();
    let mut k: usize = 1;
    let ghost rest = views(ls@).skip(1);
    while k < ls.len()
        invariant
            1 <= k <= ls.len(),
            rest == views(ls@).skip(1),
            items@ == parse_items(rest.take(k - 1)),
        decreases ls.len() - k,
    {
        proof {
            assert(rest.take(k as int).drop_last() =~= rest.take(k - 1));
            assert(rest.take(k as int).last() == ls@[k as int]@);
        }
        match parse_item_line(&ls[k]) {
            Some(item) => {
                items.push(item);
            },
            None => {},
        }
        k = k + 1;
    }
    proof {
        assert(rest.take(k - 1) =~= rest);
    }
    Some((items, capacity))
}

} // verus!
