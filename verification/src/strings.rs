//! Strings as sequences of characters: cutting them at a separator, trimming
//! them, and the decimal form of numbers.

use vstd::prelude::*;
use regex::Regex;
use vstd::string::*;
use crate::text::push_char;

verus! {

/// The characters of a string.
pub fn to_chars(s: &str) -> (chars: Vec<char>)
    ensures
        chars@ == s@,
{
    let n = s.unicode_len();
    let mut chars: Vec<char> = Vec::new();
    let mut i: usize = 0;
    while i < n
        invariant
            i <= n,
            n == s@.len(),
            chars@ == s@.subrange(0, i as int),
        decreases n - i,
    {
        chars.push(s.get_char(i));
        i += 1;
        assert(chars@ =~= s@.subrange(0, i as int));
    }
    assert(s@.subrange(0, n as int) =~= s@);
    chars
}

/// The string of the characters from `from` up to `to`.
pub fn from_chars(chars: &[char], from: usize, to: usize) -> (s: String)
    requires
        from <= to <= chars.len(),
    ensures
        s@ == chars@.subrange(from as int, to as int),
{
    let mut s = String::new();
    let mut i: usize = from;
    assert(chars@.subrange(from as int, from as int) =~= Seq::<char>::empty());
    while i < to
        invariant
            from <= i <= to <= chars.len(),
            s@ == chars@.subrange(from as int, i as int),
        decreases to - i,
    {
        push_char(&mut s, chars[i]);
        i += 1;
        assert(s@ =~= chars@.subrange(from as int, i as int));
    }
    s
}

/// Whether `sep` stands in `text` at place `at`.
pub open spec fn stands_at(text: Seq<char>, sep: Seq<char>, at: int) -> bool {
    0 <= at && at + sep.len() <= text.len() && text.subrange(at, at + sep.len()) == sep
}

/// The first place from `from` on at which `sep` stands in `text`, or the
/// length of `text` where it stands nowhere.
pub open spec fn find_from(text: Seq<char>, sep: Seq<char>, from: int) -> int
    decreases text.len() - from,
{
    if from < 0 || from >= text.len() {
        text.len() as int
    } else if stands_at(text, sep, from) {
        from
    } else {
        find_from(text, sep, from + 1)
    }
}

/// The pieces of `text` from `from` on between the places at which `sep`
/// stands, from left to right. `sep` is not empty.
pub open spec fn pieces(text: Seq<char>, sep: Seq<char>, from: int) -> Seq<Seq<char>>
    decreases text.len() - from,
{
    let at = find_from(text, sep, from);
    if sep.len() == 0 || from < 0 || from > text.len() || at < from || at >= text.len() || at
        + sep.len() > text.len() {
        seq![text.subrange(from, text.len() as int)]
    } else {
        seq![text.subrange(from, at)] + pieces(text, sep, at + sep.len())
    }
}

/// What is found lies from `from` on, and the text sought stands there.
pub proof fn lemma_find_from_bounds(text: Seq<char>, sep: Seq<char>, from: int)
    requires
        0 <= from <= text.len(),
    ensures
        from <= find_from(text, sep, from) <= text.len(),
        find_from(text, sep, from) < text.len() ==> stands_at(
            text,
            sep,
            find_from(text, sep, from),
        ),
    decreases text.len() - from,
{
    if from < text.len() && !stands_at(text, sep, from) {
        lemma_find_from_bounds(text, sep, from + 1);
    }
}

/// The first place from `from` on at which `sep` stands.
pub fn find(text: &[char], sep: &[char], from: usize) -> (at: usize)
    requires
        from <= text.len(),
    ensures
        at == find_from(text@, sep@, from as int),
        from <= at <= text.len(),
{
    let n = text.len();
    let m = sep.len();
    let mut i: usize = from;
    while i < n
        invariant
            from <= i <= n,
            n == text.len(),
            m == sep.len(),
            find_from(text@, sep@, from as int) == find_from(text@, sep@, i as int),
        decreases n - i,
    {
        if m <= n - i {
            let mut k: usize = 0;
            while k < m && text[i + k] == sep[k]
                invariant
                    k <= m,
                    i + m <= n,
                    n == text.len(),
                    m == sep.len(),
                    forall|j: int| 0 <= j < k ==> text@[i + j] == sep@[j],
                decreases m - k,
            {
                k += 1;
            }
            if k == m {
                assert(text@.subrange(i as int, i + m) =~= sep@);
                return i;
            }
            assert(text@.subrange(i as int, i + m)[k as int] != sep@[k as int]);
        }
        i += 1;
    }
    n
}

/// The pieces of `text` between the places at which `sep` stands.
pub fn split(text: &[char], sep: &[char]) -> (parts: Vec<String>)
    requires
        sep.len() > 0,
    ensures
        parts@.len() == pieces(text@, sep@, 0).len(),
        forall|k: int| 0 <= k < parts@.len() ==> (#[trigger] parts@[k])@ == pieces(text@, sep@, 0)[k],
{
    let n = text.len();
    let mut parts: Vec<String> = Vec::new();
    let mut from: usize = 0;
    let ghost all = pieces(text@, sep@, 0);
    loop
        invariant_except_break
            parts@.len() + pieces(text@, sep@, from as int).len() == all.len(),
            forall|k: int|
                0 <= k < pieces(text@, sep@, from as int).len() ==> #[trigger] all[parts@.len() + k]
                    == pieces(text@, sep@, from as int)[k],
        invariant
            from <= n,
            n == text.len(),
            sep.len() > 0,
            all == pieces(text@, sep@, 0),
            forall|k: int| 0 <= k < parts@.len() ==> (#[trigger] parts@[k])@ == all[k],
        ensures
            parts@.len() == all.len(),
            forall|k: int| 0 <= k < parts@.len() ==> (#[trigger] parts@[k])@ == all[k],
        decreases n - from,
    {
        let at = find(text, sep, from);
        let ghost rest = pieces(text@, sep@, from as int);
        let ghost done = parts@.len() as int;
        proof {
            lemma_find_from_bounds(text@, sep@, from as int);
        }
        if at >= n {
            parts.push(from_chars(text, from, n));
            proof {
                assert(rest.len() == 1);
                assert(all[done + 0] == rest[0]);
            }
            break ;
        }
        parts.push(from_chars(text, from, at));
        proof {
            let next = pieces(text@, sep@, at + sep.len());
            assert(rest =~= seq![text@.subrange(from as int, at as int)] + next);
            assert(all[done + 0] == rest[0]);
            assert forall|k: int| 0 <= k < next.len() implies #[trigger] all[done + 1 + k]
                == next[k] by {
                assert(all[done + (1 + k)] == rest[1 + k]);
            }
        }
        from = at + sep.len();
    }
    parts
}

/// Whether characters are those of a string.
pub fn same_chars(a: &[char], b: &str) -> (same: bool)
    ensures
        same == (a@ == b@),
{
    let other = to_chars(b);
    if a.len() != other.len() {
        return false;
    }
    let n = a.len();
    let mut i: usize = 0;
    while i < n
        invariant
            i <= n,
            n == a.len(),
            n == other.len(),
            other@ == b@,
            forall|k: int| 0 <= k < i ==> a@[k] == other@[k],
        decreases n - i,
    {
        if a[i] != other[i] {
            return false;
        }
        i += 1;
    }
    assert(a@ =~= other@);
    true
}

/// Whether a character is white space, as `char::is_whitespace` tells.
pub uninterp spec fn is_space(c: char) -> bool;

/// `char::is_whitespace`: whether the character is white space, which
/// depends on the character alone.
#[verifier::external_body]
pub(crate) fn is_whitespace(c: char) -> (space: bool)
    ensures
        space == is_space(c),
{
    c.is_whitespace()
}

/// The first place from `from` up to `to` whose character is not white
/// space, or `to`.
pub open spec fn trim_start(text: Seq<char>, from: int, to: int) -> int
    decreases to - from,
{
    if from >= to {
        to
    } else if is_space(text[from]) {
        trim_start(text, from + 1, to)
    } else {
        from
    }
}

/// The place behind the last character from `from` up to `to` that is not
/// white space, or `from`.
pub open spec fn trim_end(text: Seq<char>, from: int, to: int) -> int
    decreases to - from,
{
    if from >= to {
        from
    } else if is_space(text[to - 1]) {
        trim_end(text, from, to - 1)
    } else {
        to
    }
}

/// The characters from `from` up to `to` without white space in front and
/// behind.
pub open spec fn trimmed(text: Seq<char>, from: int, to: int) -> Seq<char> {
    let start = trim_start(text, from, to);
    text.subrange(start, trim_end(text, start, to))
}

/// What is left by trimming lies between the places given.
pub proof fn lemma_trim_bounds(text: Seq<char>, from: int, to: int)
    requires
        from <= to,
    ensures
        from <= trim_start(text, from, to) <= to,
        from <= trim_end(text, from, to) <= to,
    decreases to - from,
{
    if from < to {
        if is_space(text[from]) {
            lemma_trim_bounds(text, from + 1, to);
        }
        if is_space(text[to - 1]) {
            lemma_trim_bounds(text, from, to - 1);
        }
    }
}

/// The first place from `from` up to `to` that is not marked, or `to`.
pub open spec fn first_unmarked(marks: Seq<bool>, from: int, to: int) -> int
    decreases to - from,
{
    if from >= to {
        to
    } else if marks[from] {
        first_unmarked(marks, from + 1, to)
    } else {
        from
    }
}

/// The place behind the last from `from` up to `to` that is not marked, or
/// `from`.
pub open spec fn last_unmarked(marks: Seq<bool>, from: int, to: int) -> int
    decreases to - from,
{
    if from >= to {
        from
    } else if marks[to - 1] {
        last_unmarked(marks, from, to - 1)
    } else {
        to
    }
}

/// The places between which nothing marked stands in front or behind: the
/// first place from `from` up to `to` that is not marked, and the place
/// behind the last such from there on.
pub fn trim_marked(marks: &[bool], from: usize, to: usize) -> (found: (usize, usize))
    requires
        from <= to <= marks.len(),
    ensures
        found.0 == first_unmarked(marks@, from as int, to as int),
        found.1 == last_unmarked(marks@, found.0 as int, to as int),
        from <= found.0 <= found.1 <= to,
{
    let mut start = from;
    while start < to && marks[start]
        invariant
            from <= start <= to <= marks.len(),
            first_unmarked(marks@, from as int, to as int) == first_unmarked(
                marks@,
                start as int,
                to as int,
            ),
        decreases to - start,
    {
        start += 1;
    }
    let mut end = to;
    while start < end && marks[end - 1]
        invariant
            start <= end <= to <= marks.len(),
            last_unmarked(marks@, start as int, to as int) == last_unmarked(
                marks@,
                start as int,
                end as int,
            ),
        decreases end - start,
    {
        end -= 1;
    }
    (start, end)
}

/// Whether `marks` tell of each character from `from` on whether it is white
/// space.
pub open spec fn marks_spaces(marks: Seq<bool>, text: Seq<char>, from: int) -> bool {
    forall|k: int| 0 <= k < marks.len() ==> #[trigger] marks[k] == is_space(text[from + k])
}

/// Trimming by marks that tell of white space is trimming white space.
pub proof fn lemma_trim_marked(marks: Seq<bool>, text: Seq<char>, at: int, from: int, to: int)
    requires
        marks_spaces(marks, text, at),
        0 <= from <= to <= marks.len(),
    ensures
        at + first_unmarked(marks, from, to) == trim_start(text, at + from, at + to),
        at + last_unmarked(marks, from, to) == trim_end(text, at + from, at + to),
    decreases to - from,
{
    if from < to {
        assert(marks[from] == is_space(text[at + from]));
        assert(marks[to - 1] == is_space(text[at + to - 1]));
        lemma_trim_marked(marks, text, at, from + 1, to);
        lemma_trim_marked(marks, text, at, from, to - 1);
    }
}

/// The places between which the characters from `from` up to `to` stand
/// without the white space in front and behind.
pub fn trim(text: &[char], from: usize, to: usize) -> (found: (usize, usize))
    requires
        from <= to <= text.len(),
    ensures
        found.0 == trim_start(text@, from as int, to as int),
        found.1 == trim_end(text@, found.0 as int, to as int),
        from <= found.0 <= found.1 <= to,
{
    let mut marks: Vec<bool> = Vec::new();
    let mut i: usize = from;
    while i < to
        invariant
            from <= i <= to <= text.len(),
            marks@.len() == i - from,
            marks_spaces(marks@, text@, from as int),
        decreases to - i,
    {
        marks.push(is_whitespace(text[i]));
        i += 1;
    }
    let (start, end) = trim_marked(marks.as_slice(), 0, to - from);
    proof {
        lemma_trim_marked(marks@, text@, from as int, 0, (to - from) as int);
        lemma_trim_marked(marks@, text@, from as int, start as int, (to - from) as int);
    }
    (from + start, from + end)
}

/// The digits of a number in base ten, the first of them not zero but for
/// zero itself.
pub open spec fn decimal_of(n: nat) -> Seq<char>
    decreases n,
{
    if n < 10 {
        seq![digit_char(n)]
    } else {
        decimal_of(n / 10).push(digit_char(n % 10))
    }
}

/// The character of a digit.
pub open spec fn digit_char(d: nat) -> char {
    if d == 0 {
        '0'
    } else if d == 1 {
        '1'
    } else if d == 2 {
        '2'
    } else if d == 3 {
        '3'
    } else if d == 4 {
        '4'
    } else if d == 5 {
        '5'
    } else if d == 6 {
        '6'
    } else if d == 7 {
        '7'
    } else if d == 8 {
        '8'
    } else {
        '9'
    }
}

fn digit(d: usize) -> (c: char)
    requires
        d < 10,
    ensures
        c == digit_char(d as nat),
{
    if d == 0 {
        '0'
    } else if d == 1 {
        '1'
    } else if d == 2 {
        '2'
    } else if d == 3 {
        '3'
    } else if d == 4 {
        '4'
    } else if d == 5 {
        '5'
    } else if d == 6 {
        '6'
    } else if d == 7 {
        '7'
    } else if d == 8 {
        '8'
    } else {
        '9'
    }
}

/// A number in base ten.
pub fn decimal(n: usize) -> (s: String)
    ensures
        s@ == decimal_of(n as nat),
    decreases n,
{
    if n < 10 {
        let mut s = String::new();
        push_char(&mut s, digit(n));
        assert(s@ =~= seq![digit_char(n as nat)]);
        s
    } else {
        let mut s = decimal(n / 10);
        push_char(&mut s, digit(n % 10));
        s
    }
}

/// The value of a digit, if the character is one.
pub open spec fn digit_value(c: char) -> Option<nat> {
    if '0' <= c <= '9' {
        Some((c as nat - '0' as nat) as nat)
    } else {
        None
    }
}

/// The number that digits spell in base ten, if all are digits.
pub open spec fn digits_value(digits: Seq<char>) -> Option<nat>
    decreases digits.len(),
{
    if digits.len() == 0 {
        Some(0)
    } else {
        match (digits_value(digits.drop_last()), digit_value(digits.last())) {
            (Some(front), Some(last)) => Some(10 * front + last),
            _ => None,
        }
    }
}

/// A string without the plus sign in front of it, if it has one.
pub open spec fn number_part(s: Seq<char>) -> Seq<char> {
    if s.len() > 0 && s[0] == '+' {
        s.subrange(1, s.len() as int)
    } else {
        s
    }
}

/// The number below 65536 that a string spells: digits, at least one, with
/// or without a plus sign in front.
pub open spec fn parsed_u16(s: Seq<char>) -> Option<u16> {
    let digits = number_part(s);
    if digits.len() == 0 {
        None
    } else {
        match digits_value(digits) {
            Some(value) => if value <= 0xffff {
                Some(value as u16)
            } else {
                None
            },
            None => None,
        }
    }
}

/// The first digits of a number that fits spell a number that fits, and
/// is no larger.
pub proof fn lemma_digits_value_grows(digits: Seq<char>, k: int)
    requires
        0 <= k <= digits.len(),
        digits_value(digits) is Some,
    ensures
        digits_value(digits.subrange(0, k)) is Some,
        digits_value(digits.subrange(0, k))->Some_0 <= digits_value(digits)->Some_0,
    decreases digits.len() - k,
{
    if k == digits.len() {
        assert(digits.subrange(0, k) =~= digits);
    } else {
        lemma_digits_value_grows(digits.drop_last(), k);
        assert(digits.drop_last().subrange(0, k) =~= digits.subrange(0, k));
    }
}

/// The number below 65536 that a string spells.
pub fn parse_u16(s: &[char]) -> (value: Option<u16>)
    ensures
        value == parsed_u16(s@),
{
    let n = s.len();
    let start: usize = if n > 0 && s[0] == '+' {
        1
    } else {
        0
    };
    if start == n {
        return None;
    }
    let ghost digits = s@.subrange(start as int, n as int);
    proof {
        if start == 0 {
            assert(digits =~= s@);
        }
    }
    let mut value: u32 = 0;
    let mut i: usize = start;
    assert(digits.subrange(0, 0) =~= Seq::<char>::empty());
    while i < n
        invariant
            start <= i <= n,
            n == s.len(),
            start < n,
            digits == s@.subrange(start as int, n as int),
            digits == number_part(s@),
            digits_value(digits.subrange(0, i - start)) == Some(value as nat),
            value <= 0xffff,
        decreases n - i,
    {
        let c = s[i];
        let ghost upto = digits.subrange(0, i - start + 1);
        proof {
            assert(upto.drop_last() =~= digits.subrange(0, i - start));
            assert(upto.last() == c);
        }
        if c < '0' || c > '9' {
            proof {
                assert(digit_value(c) is None);
                assert(digits_value(upto) is None);
                if digits_value(digits) is Some {
                    lemma_digits_value_grows(digits, i - start + 1);
                }
            }
            return None;
        }
        let d = c as u32 - '0' as u32;
        proof {
            assert(digit_value(c) == Some(d as nat));
            assert(digits_value(upto) == Some((10 * value + d) as nat));
        }
        value = 10 * value + d;
        if value > 0xffff {
            proof {
                if digits_value(digits) is Some {
                    lemma_digits_value_grows(digits, i - start + 1);
                }
            }
            return None;
        }
        i += 1;
    }
    assert(digits.subrange(0, n - start) =~= digits);
    Some(value as u16)
}

/// The number that fits a `usize` that a string spells: digits, at least
/// one, with or without a plus sign in front.
pub open spec fn parsed_index(s: Seq<char>) -> Option<usize> {
    let digits = number_part(s);
    if digits.len() == 0 {
        None
    } else {
        match digits_value(digits) {
            Some(value) => if value <= usize::MAX {
                Some(value as usize)
            } else {
                None
            },
            None => None,
        }
    }
}

/// The number that fits a `usize` that a string spells.
pub fn parse_index(s: &[char]) -> (value: Option<usize>)
    ensures
        value == parsed_index(s@),
{
    let n = s.len();
    let start: usize = if n > 0 && s[0] == '+' {
        1
    } else {
        0
    };
    if start == n {
        return None;
    }
    let ghost digits = s@.subrange(start as int, n as int);
    proof {
        if start == 0 {
            assert(digits =~= s@);
        }
    }
    let mut value: u128 = 0;
    let mut i: usize = start;
    assert(digits.subrange(0, 0) =~= Seq::<char>::empty());
    while i < n
        invariant
            start <= i <= n,
            n == s.len(),
            start < n,
            digits == s@.subrange(start as int, n as int),
            digits == number_part(s@),
            digits_value(digits.subrange(0, i - start)) == Some(value as nat),
            value <= usize::MAX,
        decreases n - i,
    {
        let c = s[i];
        let ghost upto = digits.subrange(0, i - start + 1);
        proof {
            assert(upto.drop_last() =~= digits.subrange(0, i - start));
            assert(upto.last() == c);
        }
        if c < '0' || c > '9' {
            proof {
                assert(digit_value(c) is None);
                assert(digits_value(upto) is None);
                if digits_value(digits) is Some {
                    lemma_digits_value_grows(digits, i - start + 1);
                }
            }
            return None;
        }
        let d = (c as u32 - '0' as u32) as u128;
        proof {
            assert(digit_value(c) == Some(d as nat));
            assert(digits_value(upto) == Some((10 * value + d) as nat));
        }
        value = 10 * value + d;
        if value > usize::MAX as u128 {
            proof {
                if digits_value(digits) is Some {
                    lemma_digits_value_grows(digits, i - start + 1);
                }
            }
            return None;
        }
        i += 1;
    }
    assert(digits.subrange(0, n - start) =~= digits);
    Some(value as usize)
}

/// What group `group` of a pattern holds where the pattern is found in a
/// text, as the crate `regex` finds it.
pub uninterp spec fn capture_of(pattern: Seq<char>, text: Seq<char>, group: int) -> Option<
    Seq<char>,
>;

/// `Regex::new`, `Regex::captures`, `Captures::get` and `Match::as_str` of
/// the crate `regex`: the part of the text that group `group` of the
/// pattern holds, at the leftmost place where the pattern is found. There
/// is none where the pattern cannot be read, where it is not found, or where
/// the group took no part in what was found. It depends on the pattern, the
/// text and the number of the group alone.
#[verifier::external_body]
pub(crate) fn capture(pattern: &str, text: &str, group: usize) -> (found: Option<String>)
    ensures
        match found {
            Some(part) => capture_of(pattern@, text@, group as int) == Some(part@),
            None => capture_of(pattern@, text@, group as int) is None,
        },
{
    let pattern = match Regex::new(pattern) {
        Ok(pattern) => pattern,
        Err(_) => return None,
    };
    let groups = match pattern.captures(text) {
        Some(groups) => groups,
        None => return None,
    };
    match groups.get(group) {
        Some(part) => Some(part.as_str().to_owned()),
        None => None,
    }
}

} // verus!
