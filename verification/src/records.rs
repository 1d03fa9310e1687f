//! Reading one task from a line of UTF-8 text: three numbers separated by blanks.

use vstd::prelude::*;
use crate::task::{record_task, task_from_fields, Task};

verus! {

/// Three bytes that write one of the wider blanks: U+1680, U+2000 to U+200A,
/// U+2028, U+2029, U+202F, U+205F or U+3000.
pub open spec fn is_wide_blank(a: u8, b: u8, c: u8) -> bool {
    ||| a == 0xE1 && b == 0x9A && c == 0x80
    ||| a == 0xE2 && b == 0x80 && (0x80 <= c <= 0x8A || c == 0xA8 || c == 0xA9 || c == 0xAF)
    ||| a == 0xE2 && b == 0x81 && c == 0x9F
    ||| a == 0xE3 && b == 0x80 && c == 0x80
}

/// How many bytes the blank takes that begins at position `i` of `s`, and 0
/// where none begins there. A blank is a white space character in its UTF-8
/// form: one byte for space, tab, line feed, vertical tab, form feed and
/// carriage return, two for U+0085 and U+00A0, three for the wider blanks.
pub open spec fn blank_len(s: Seq<u8>, i: int) -> int {
    if i < 0 || i >= s.len() {
        0
    } else if s[i] == 32 || 9 <= s[i] <= 13 {
        1
    } else if i + 1 < s.len() && s[i] == 0xC2 && (s[i + 1] == 0x85 || s[i + 1] == 0xA0) {
        2
    } else if i + 2 < s.len() && is_wide_blank(s[i], s[i + 1], s[i + 2]) {
        3
    } else {
        0
    }
}

/// A decimal digit.
pub open spec fn is_digit(b: u8) -> bool {
    48 <= b <= 57
}

/// Every byte of `w` is a decimal digit.
pub open spec fn all_digits(w: Seq<u8>) -> bool {
    forall|i: int| 0 <= i < w.len() ==> is_digit(#[trigger] w[i])
}

/// The number that the decimal digits `w` write.
pub open spec fn digits_value(w: Seq<u8>) -> int
    decreases w.len(),
{
    if w.len() == 0 {
        0
    } else {
        digits_value(w.drop_last()) * 10 + (w.last() - 48)
    }
}

/// The number that `digits` write, if they are decimal digits, at least one,
/// and the number fits in `u32`.
pub open spec fn digits_number(digits: Seq<u8>) -> Option<u32> {
    if digits.len() > 0 && all_digits(digits) && digits_value(digits) <= u32::MAX {
        Some(digits_value(digits) as u32)
    } else {
        None
    }
}

/// The number that the word `w` stands for: decimal digits, at least one, with
/// or without a plus sign in front, whose value fits in `u32`. Any other word
/// stands for none.
pub open spec fn word_value(w: Seq<u8>) -> Option<u32> {
    if w.len() > 0 && w[0] == 43 {
        digits_number(w.skip(1))
    } else {
        digits_number(w)
    }
}

/// The end of the word around position `i`: the first position at or behind
/// `i` where a blank begins, or the end of the line.
pub open spec fn word_end(s: Seq<u8>, i: int) -> int
    decreases s.len() - i,
{
    if 0 <= i < s.len() && blank_len(s, i) == 0 {
        word_end(s, i + 1)
    } else {
        i
    }
}

/// The numbers on the line `s` from position `i` on, where a word or a blank
/// begins: the values of the words that stand for a number, in order.
/// Words that stand for none are passed over.
pub open spec fn fields_from(s: Seq<u8>, i: int) -> Seq<u32>
    decreases s.len() - i,
{
    if i < 0 || i >= s.len() {
        Seq::empty()
    } else if blank_len(s, i) > 0 {
        fields_from(s, i + blank_len(s, i))
    } else {
        proof {
            lemma_word_end(s, i + 1);
        }
        let end = word_end(s, i + 1);
        match word_value(s.subrange(i, end)) {
            Some(v) => seq![v] + fields_from(s, end),
            None => fields_from(s, end),
        }
    }
}

/// The numbers on the line `s`.
pub open spec fn line_fields(s: Seq<u8>) -> Seq<u32> {
    fields_from(s, 0)
}

/// A word ends behind where it is looked for and within the line.
pub proof fn lemma_word_end(s: Seq<u8>, i: int)
    requires
        0 <= i <= s.len(),
    ensures
        i <= word_end(s, i) <= s.len(),
    decreases s.len() - i,
{
    if i < s.len() && blank_len(s, i) == 0 {
        lemma_word_end(s, i + 1);
    }
}

/// Digits written behind a number do not make it smaller.
pub proof fn lemma_digits_value_grows(w: Seq<u8>, m: int)
    requires
        all_digits(w),
        0 <= m <= w.len(),
    ensures
        0 <= digits_value(w.take(m)) <= digits_value(w),
    decreases w.len() - m,
{
    if m == w.len() {
        assert(w.take(m) =~= w);
        lemma_digits_value_nonneg(w);
    } else {
        lemma_digits_value_grows(w, m + 1);
        assert(w.take(m + 1).drop_last() =~= w.take(m));
        assert(is_digit(w[m]));
        lemma_digits_value_nonneg(w.take(m));
    }
}

/// Digits write no negative number.
pub proof fn lemma_digits_value_nonneg(w: Seq<u8>)
    requires
        all_digits(w),
    ensures
        0 <= digits_value(w),
    decreases w.len(),
{
    if w.len() > 0 {
        assert(is_digit(w.last()));
        assert forall|i: int| 0 <= i < w.drop_last().len() implies is_digit(
            #[trigger] w.drop_last()[i],
        ) by {
            assert(is_digit(w[i]));
        }
        lemma_digits_value_nonneg(w.drop_last());
    }
}

/// Reads the word that `line` holds from `start` up to `end`.
pub fn parse_word(line: &[u8], start: usize, end: usize) -> (v: Option<u32>)
    requires
        start < end <= line@.len(),
    ensures
        v == word_value(line@.subrange(start as int, end as int)),
{
    let ghost word = line@.subrange(start as int, end as int);
    let mut k: usize = start;
    if line[k] == 43 {
        k = k + 1;
    }
    let first = k;
    let ghost digits = line@.subrange(first as int, end as int);
    proof {
        if first > start {
            assert(word.skip(1) =~= digits);
        } else {
            assert(word =~= digits);
        }
        assert(digits.take(0) =~= Seq::<u8>::empty());
    }
    if k == end {
        return None;
    }
    let mut value: u64 = 0;
    while k < end
        invariant
            first <= k <= end <= line@.len(),
            digits == line@.subrange(first as int, end as int),
            word_value(word) == digits_number(digits),
            word == line@.subrange(start as int, end as int),
            all_digits(digits.take(k - first)),
            value == digits_value(digits.take(k - first)),
            value <= u32::MAX,
        decreases end - k,
    {
        let b = line[k];
        if b < 48 || b > 57 {
            assert(!is_digit(digits[k - first]));
            return None;
        }
        proof {
            let m = k - first;
            assert(digits.take(m + 1).drop_last() =~= digits.take(m));
            assert(digits.take(m + 1).last() == b);
            assert forall|i: int| 0 <= i < m + 1 implies is_digit(#[trigger] digits.take(m + 1)[i]) by {
                if i < m {
                    assert(is_digit(digits.take(m)[i]));
                }
            }
        }
        value = value * 10 + ((b - 48) as u64);
        if value > 0xffff_ffff {
            proof {
                if all_digits(digits) {
                    lemma_digits_value_grows(digits, k - first + 1);
                }
            }
            return None;
        }
        k = k + 1;
    }
    proof {
        assert(digits.take(k - first) =~= digits);
    }
    Some(value as u32)
}

/// Finds how many bytes the blank takes that begins at `i`, if one does.
pub fn blank_length(line: &[u8], i: usize) -> (n: usize)
    requires
        i < line@.len(),
    ensures
        n == blank_len(line@, i as int),
        i + n <= line@.len(),
{
    let len = line.len();
    let a = line[i];
    if a == 32 || (9 <= a && a <= 13) {
        return 1;
    }
    if len - i >= 2 {
        let b = line[i + 1];
        if a == 0xC2 && (b == 0x85 || b == 0xA0) {
            return 2;
        }
        if len - i >= 3 {
            let c = line[i + 2];
            if (a == 0xE1 && b == 0x9A && c == 0x80) || (a == 0xE2 && b == 0x80 && ((0x80 <= c
                && c <= 0x8A) || c == 0xA8 || c == 0xA9 || c == 0xAF)) || (a == 0xE2 && b == 0x81
                && c == 0x9F) || (a == 0xE3 && b == 0x80 && c == 0x80) {
                return 3;
            }
        }
    }
    0
}

/// Reads the numbers on a line, passing over the words that are no numbers.
pub fn parse_fields(line: &[u8]) -> (fields: Vec<u32>)
    ensures
        fields@ == line_fields(line@),
{
    let n = line.len();
    let mut fields: Vec<u32> = Vec::new();
    let mut i: usize = 0;
    proof {
        assert(fields@ + fields_from(line@, 0) =~= line_fields(line@));
    }
    while i < n
        invariant
            n == line@.len(),
            i <= n,
            fields@ + fields_from(line@, i as int) == line_fields(line@),
        decreases n - i,
    {
        let blank = blank_length(line, i);
        if blank > 0 {
            i = i + blank;
        } else {
            let mut end: usize = i + 1;
            while end < n && blank_length(line, end) == 0
                invariant
                    n == line@.len(),
                    i < end <= n,
                    word_end(line@, end as int) == word_end(line@, i + 1),
                decreases n - end,
            {
                end = end + 1;
            }
            let ghost before = fields@;
            let ghost rest = fields_from(line@, end as int);
            match parse_word(line, i, end) {
                Some(v) => {
                    fields.push(v);
                    proof {
                        assert(before.push(v) + rest =~= before + (seq![v] + rest));
                    }
                },
                None => {},
            }
            i = end;
        }
    }
    proof {
        assert(fields@ + fields_from(line@, n as int) =~= fields@);
    }
    fields
}

/// Reads the task that a line stands for: a line with exactly three numbers on
/// it, the id, the arrival time and the burst time. Any other line stands for none.
pub fn parse_task_line(line: &[u8]) -> (t: Option<Task>)
    ensures
        t == record_task(line_fields(line@)),
{
    let fields = parse_fields(line);
    task_from_fields(&fields)
}

} // verus!
