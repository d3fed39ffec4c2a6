//! Reading words and numbers out of text.
//!
//! Text is taken as bytes. Words are separated by ASCII white space; numbers
//! are written in decimal digits, with an optional sign in front.

use crate::util::is_alpha;
use crate::util::is_letter;
use crate::util::push_char;
use vstd::prelude::*;

verus! {

/// Whether `b` is ASCII white space: space, tab, line feed, form feed or
/// carriage return.
pub open spec fn is_ascii_space(b: u8) -> bool {
    b == 32 || b == 9 || b == 10 || b == 12 || b == 13
}

/// Whether the bytes of `text` from `from` up to `to` are one word of the
/// text: a run of bytes without white space that cannot be extended at
/// either end.
pub open spec fn is_token(text: Seq<u8>, from: int, to: int) -> bool {
    &&& 0 <= from < to <= text.len()
    &&& forall|i: int| from <= i < to ==> !is_ascii_space(#[trigger] text[i])
    &&& (from == 0 || is_ascii_space(text[from - 1]))
    &&& (to == text.len() || is_ascii_space(text[to]))
}

/// Whether `text` is a list of words: ASCII letters and white space only.
pub open spec fn is_word_list(text: Seq<u8>) -> bool {
    forall|i: int| 0 <= i < text.len() ==> is_alpha(#[trigger] text[i]) || is_ascii_space(text[i])
}

/// Whether no entry of `text` runs across position `i`.
pub open spec fn at_token_boundary(text: Seq<u8>, i: int) -> bool {
    i == 0 || i == text.len() || is_ascii_space(text[i - 1]) || is_ascii_space(text[i])
}

/// True exactly for ASCII white space.
pub fn is_space(b: u8) -> (r: bool)
    ensures
        r == is_ascii_space(b),
{
    b == 32 || b == 9 || b == 10 || b == 12 || b == 13
}

/// True exactly for texts made of ASCII letters and white space only.
pub fn is_clean_word_list(text: &[u8]) -> (b: bool)
    ensures
        b == is_word_list(text@),
{
    let mut i: usize = 0;
    while i < text.len()
        invariant
            i <= text@.len(),
            forall|k: int| 0 <= k < i ==> is_alpha(#[trigger] text@[k]) || is_ascii_space(text@[k]),
        decreases text@.len() - i,
    {
        if !is_letter(text[i]) && !is_space(text[i]) {
            return false;
        }
        i += 1;
    }
    true
}

/// The first position at or after `from` that holds no white space; the
/// length of the text where there is none.
pub open spec fn skip_spaces(text: Seq<u8>, from: int) -> int
    decreases text.len() - from,
{
    if 0 <= from < text.len() && is_ascii_space(text[from]) {
        skip_spaces(text, from + 1)
    } else {
        from
    }
}

/// The first position at or after `from` that holds white space; the length
/// of the text where there is none.
pub open spec fn word_end(text: Seq<u8>, from: int) -> int
    decreases text.len() - from,
{
    if 0 <= from < text.len() && !is_ascii_space(text[from]) {
        word_end(text, from + 1)
    } else {
        from
    }
}

/// The words of `text` from the position `from` on, in order: the runs of
/// bytes without white space.
pub open spec fn words_from(text: Seq<u8>, from: int) -> Seq<Seq<u8>>
    decreases text.len() - from,
{
    let start = skip_spaces(text, from);
    let end = word_end(text, start);
    if from < 0 || start >= text.len() || end <= from || end > text.len() {
        Seq::empty()
    } else {
        seq![text.subrange(start, end)] + words_from(text, end)
    }
}

/// The words of `text`, in order.
pub open spec fn words_of(text: Seq<u8>) -> Seq<Seq<u8>> {
    words_from(text, 0)
}

/// The texts that a list of byte vectors holds.
pub open spec fn byte_rows(v: Seq<Vec<u8>>) -> Seq<Seq<u8>> {
    Seq::new(v.len(), |i: int| v[i]@)
}

/// Skipping white space ends inside the text or at its end, on a byte that
/// is no white space, and skips nothing else.
pub proof fn lemma_skip_spaces(text: Seq<u8>, from: int)
    requires
        0 <= from <= text.len(),
    ensures
        from <= skip_spaces(text, from) <= text.len(),
        skip_spaces(text, from) < text.len() ==> !is_ascii_space(text[skip_spaces(text, from)]),
        forall|i: int| from <= i < skip_spaces(text, from) ==> is_ascii_space(#[trigger] text[i]),
    decreases text.len() - from,
{
    if from < text.len() && is_ascii_space(text[from]) {
        lemma_skip_spaces(text, from + 1);
    }
}

/// The words listed from a position on between two words are words of the
/// text: the `i`th of them is a run of bytes without white space that cannot
/// be extended at either end. Where it stands is returned.
pub proof fn lemma_words_are_tokens(text: Seq<u8>, from: int, i: int) -> (at: (int, int))
    requires
        0 <= from <= text.len(),
        at_token_boundary(text, from),
        0 <= i < words_from(text, from).len(),
    ensures
        from <= at.0,
        is_token(text, at.0, at.1),
        words_from(text, from)[i] == text.subrange(at.0, at.1),
    decreases text.len() - from,
{
    let start = skip_spaces(text, from);
    lemma_skip_spaces(text, from);
    lemma_word_end(text, start);
    let end = word_end(text, start);
    if i == 0 {
        if start > from {
            assert(is_ascii_space(text[start - 1]));
        }
        (start, end)
    } else {
        lemma_words_are_tokens(text, end, i - 1)
    }
}

/// Every word of the text that starts at or after a position between two
/// words is among the words listed from that position on. Its place in the
/// list is returned.
pub proof fn lemma_tokens_are_words(text: Seq<u8>, from: int, s: int, e: int) -> (i: int)
    requires
        0 <= from <= s,
        is_token(text, s, e),
    ensures
        0 <= i < words_from(text, from).len(),
        words_from(text, from)[i] == text.subrange(s, e),
    decreases text.len() - from,
{
    let start = skip_spaces(text, from);
    lemma_skip_spaces(text, from);
    lemma_word_end(text, start);
    let end = word_end(text, start);
    if start > s {
        assert(is_ascii_space(text[s]));
    }
    if s == start {
        lemma_word_end(text, s);
        if e < end {
            assert(!is_ascii_space(text[e]));
        }
        if end < e {
            assert(!is_ascii_space(text[end]));
        }
        0
    } else {
        if s < end {
            assert(!is_ascii_space(text[s - 1]));
        }
        if s == end {
            assert(!is_ascii_space(text[s]));
        }
        lemma_tokens_are_words(text, end, s, e) + 1
    }
}

/// A word ends inside the text or at its end, on white space, and holds
/// none.
pub proof fn lemma_word_end(text: Seq<u8>, from: int)
    requires
        0 <= from <= text.len(),
    ensures
        from <= word_end(text, from) <= text.len(),
        word_end(text, from) < text.len() ==> is_ascii_space(text[word_end(text, from)]),
        forall|i: int| from <= i < word_end(text, from) ==> !is_ascii_space(#[trigger] text[i]),
        from < text.len() && !is_ascii_space(text[from]) ==> word_end(text, from) > from,
    decreases text.len() - from,
{
    if from < text.len() && !is_ascii_space(text[from]) {
        lemma_word_end(text, from + 1);
    }
}

/// A copy of the bytes of `text` from `from` up to `to`.
pub fn copy_range(text: &[u8], from: usize, to: usize) -> (r: Vec<u8>)
    requires
        from <= to <= text@.len(),
    ensures
        r@ == text@.subrange(from as int, to as int),
{
    let mut r: Vec<u8> = Vec::new();
    let mut i: usize = from;
    while i < to
        invariant
            from <= i <= to <= text@.len(),
            r@ == text@.subrange(from as int, i as int),
        decreases to - i,
    {
        r.push(text[i]);
        proof {
            assert(r@ =~= text@.subrange(from as int, i + 1));
        }
        i += 1;
    }
    r
}

/// The words of `text`, in order: it is split at ASCII white space, and
/// runs of white space count as one.
pub fn split_words(text: &[u8]) -> (words: Vec<Vec<u8>>)
    ensures
        byte_rows(words@) == words_of(text@),
{
    let n = text.len();
    let mut words: Vec<Vec<u8>> = Vec::new();
    let mut i: usize = 0;
    loop
        invariant
            n == text@.len(),
            i <= n,
            byte_rows(words@) + words_from(text@, i as int) == words_of(text@),
        ensures
            byte_rows(words@) == words_of(text@),
        decreases n - i,
    {
        let ghost from = i as int;
        let ghost found = byte_rows(words@);
        let mut start = i;
        while start < n && is_space(text[start])
            invariant
                n == text@.len(),
                i <= start <= n,
                skip_spaces(text@, i as int) == skip_spaces(text@, start as int),
            decreases n - start,
        {
            start += 1;
        }
        if start >= n {
            proof {
                assert(words_from(text@, from) =~= Seq::<Seq<u8>>::empty());
                assert(found + Seq::<Seq<u8>>::empty() =~= found);
            }
            break;
        }
        let mut end = start;
        while end < n && !is_space(text[end])
            invariant
                n == text@.len(),
                start <= end <= n,
                start < n,
                !is_ascii_space(text@[start as int]),
                word_end(text@, start as int) == word_end(text@, end as int),
            decreases n - end,
        {
            end += 1;
        }
        proof {
            lemma_word_end(text@, start as int);
        }
        words.push(copy_range(text, start, end));
        proof {
            let word = text@.subrange(start as int, end as int);
            assert(words_from(text@, from) == seq![word] + words_from(text@, end as int));
            assert(byte_rows(words@) =~= found + seq![word]);
            assert(byte_rows(words@) + words_from(text@, end as int) =~= found + (seq![word]
                + words_from(text@, end as int)));
        }
        i = end;
    }
    words
}

/// Whether `b` is a decimal digit.
pub open spec fn is_digit(b: u8) -> bool {
    48 <= b <= 57
}

/// Whether every byte of `s` is a decimal digit.
pub open spec fn all_digits(s: Seq<u8>) -> bool {
    forall|i: int| 0 <= i < s.len() ==> is_digit(#[trigger] s[i])
}

/// The number that the decimal digits `s` write.
pub open spec fn decimal_value(s: Seq<u8>) -> nat
    decreases s.len(),
{
    if s.len() == 0 {
        0
    } else {
        decimal_value(s.drop_last()) * 10 + (s.last() - 48) as nat
    }
}

/// The number that `s` writes as one or more decimal digits; nothing where
/// `s` is something else.
pub open spec fn digits_value(s: Seq<u8>) -> Option<nat> {
    if s.len() > 0 && all_digits(s) {
        Some(decimal_value(s))
    } else {
        None
    }
}

/// The number that `s` writes without a sign or with `+` in front.
pub open spec fn unsigned_value(s: Seq<u8>) -> Option<nat> {
    if s.len() > 0 && s[0] == 43 {
        digits_value(s.skip(1))
    } else {
        digits_value(s)
    }
}

/// The number that `s` writes, with or without a sign in front.
pub open spec fn signed_value(s: Seq<u8>) -> Option<int> {
    if s.len() > 0 && s[0] == 45 {
        match digits_value(s.skip(1)) {
            Some(v) => Some(-(v as int)),
            None => None,
        }
    } else {
        match unsigned_value(s) {
            Some(v) => Some(v as int),
            None => None,
        }
    }
}

/// The number that `s` writes, where it fits into 32 bits with a sign.
pub open spec fn i32_value(s: Seq<u8>) -> Option<i32> {
    match signed_value(s) {
        Some(v) => if i32::MIN <= v <= i32::MAX {
            Some(v as i32)
        } else {
            None
        },
        None => None,
    }
}

/// The number that `s` writes, where it has no `-` in front and fits into
/// a `usize`.
pub open spec fn usize_value(s: Seq<u8>) -> Option<usize> {
    match unsigned_value(s) {
        Some(v) => if v <= usize::MAX {
            Some(v as usize)
        } else {
            None
        },
        None => None,
    }
}

/// The digits of a number written so far give no more than the whole.
pub proof fn lemma_decimal_value_grows(s: Seq<u8>, k: int)
    requires
        0 <= k <= s.len(),
        all_digits(s),
    ensures
        decimal_value(s.take(k)) <= decimal_value(s),
    decreases s.len(),
{
    if k == s.len() {
        assert(s.take(k) =~= s);
    } else {
        assert(all_digits(s.drop_last())) by {
            assert forall|i: int| 0 <= i < s.drop_last().len() implies is_digit(
                #[trigger] s.drop_last()[i],
            ) by {
                assert(s.drop_last()[i] == s[i]);
            }
        }
        lemma_decimal_value_grows(s.drop_last(), k);
        assert(s.drop_last().take(k) =~= s.take(k));
        assert(is_digit(s.last()));
    }
}

/// True exactly for the decimal digits.
pub fn is_decimal_digit(b: u8) -> (r: bool)
    ensures
        r == is_digit(b),
{
    48 <= b && b <= 57
}

/// The number that the bytes of `text` from `from` up to `to` write as one
/// or more decimal digits, where it is no more than `limit`.
pub fn parse_digits(text: &[u8], from: usize, to: usize, limit: u64) -> (r: Option<u64>)
    requires
        from <= to <= text@.len(),
    ensures
        r == match digits_value(text@.subrange(from as int, to as int)) {
            Some(v) => if v <= limit {
                Some(v as u64)
            } else {
                None
            },
            None => None,
        },
{
    let ghost digits = text@.subrange(from as int, to as int);
    if from == to {
        return None;
    }
    // First make sure of the digits, then add them up.
    let mut i: usize = from;
    while i < to
        invariant
            from <= i <= to <= text@.len(),
            digits == text@.subrange(from as int, to as int),
            forall|k: int| 0 <= k < i - from ==> is_digit(#[trigger] digits[k]),
        decreases to - i,
    {
        if !is_decimal_digit(text[i]) {
            assert(!is_digit(digits[i - from]));
            return None;
        }
        i += 1;
    }
    let mut value: u128 = 0;
    let mut j: usize = from;
    proof {
        assert(digits.take(0) =~= Seq::<u8>::empty());
    }
    while j < to
        invariant
            from <= j <= to <= text@.len(),
            digits == text@.subrange(from as int, to as int),
            all_digits(digits),
            value == decimal_value(digits.take(j - from)),
            value <= limit,
        decreases to - j,
    {
        proof {
            assert(digits.take(j - from + 1).drop_last() =~= digits.take(j - from));
            assert(digits.take(j - from + 1).last() == text@[j as int]);
            assert(is_digit(digits[j - from]));
        }
        value = value * 10 + ((text[j] - 48) as u128);
        if value > limit as u128 {
            proof {
                lemma_decimal_value_grows(digits, j - from + 1);
            }
            return None;
        }
        j += 1;
    }
    proof {
        assert(digits.take(to - from) =~= digits);
    }
    Some(value as u64)
}

/// The number that `s` writes in decimal digits, with or without a sign in
/// front, where it fits into 32 bits with a sign.
pub fn parse_i32(s: &[u8]) -> (r: Option<i32>)
    ensures
        r == i32_value(s@),
{
    let n = s.len();
    if n == 0 {
        return None;
    }
    proof {
        assert(s@.subrange(0, n as int) =~= s@);
        assert(s@.subrange(1, n as int) =~= s@.skip(1));
    }
    if s[0] == 45 {
        match parse_digits(s, 1, n, 2147483648) {
            Some(v) => Some((0 - (v as i64)) as i32),
            None => None,
        }
    } else {
        let from: usize = if s[0] == 43 {
            1
        } else {
            0
        };
        match parse_digits(s, from, n, 2147483647) {
            Some(v) => Some(v as i32),
            None => None,
        }
    }
}

/// The number that `s` writes in decimal digits, with or without `+` in
/// front, where it fits into a `usize`.
pub fn parse_usize(s: &[u8]) -> (r: Option<usize>)
    ensures
        r == usize_value(s@),
{
    let n = s.len();
    if n == 0 {
        return None;
    }
    proof {
        assert(s@.subrange(0, n as int) =~= s@);
        assert(s@.subrange(1, n as int) =~= s@.skip(1));
    }
    let from: usize = if s[0] == 43 {
        1
    } else {
        0
    };
    match parse_digits(s, from, n, usize::MAX as u64) {
        Some(v) => Some(v as usize),
        None => None,
    }
}

/// The character that writes the digit `d`.
pub open spec fn digit_char(d: nat) -> char {
    ((48 + d) as u8) as char
}

/// The decimal digits that write the number `n`, as text.
pub open spec fn nat_text(n: nat) -> Seq<char>
    decreases n,
{
    if n < 10 {
        seq![digit_char(n)]
    } else {
        nat_text(n / 10).push(digit_char(n % 10))
    }
}

/// The text that writes the number `v`: its decimal digits, with `-` in
/// front where it is negative.
pub open spec fn int_text(v: int) -> Seq<char> {
    if v < 0 {
        seq!['-'] + nat_text((-v) as nat)
    } else {
        nat_text(v as nat)
    }
}

/// Appends the decimal digits of `n` to `s`.
pub fn push_number(s: &mut String, n: u64)
    ensures
        final(s)@ == old(s)@ + nat_text(n as nat),
    decreases n,
{
    let ghost before = s@;
    if n >= 10 {
        push_number(s, n / 10);
    }
    push_char(s, ((48 + n % 10) as u8) as char);
    proof {
        if n >= 10 {
            assert(s@ =~= before + nat_text(n as nat));
        } else {
            assert(s@ =~= before + nat_text(n as nat));
        }
    }
}

/// Appends the decimal digits of `v` to `s`, with `-` in front where `v`
/// is negative.
pub fn push_integer(s: &mut String, v: i32)
    ensures
        final(s)@ == old(s)@ + int_text(v as int),
{
    let ghost before = s@;
    if v < 0 {
        push_char(s, '-');
        push_number(s, (0 - (v as i64)) as u64);
        proof {
            assert(s@ =~= before + int_text(v as int));
        }
    } else {
        push_number(s, v as u64);
    }
}

} // verus!
