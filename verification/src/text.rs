//! UTF-8 text as bytes: character classes, line structure, slicing at ASCII
//! positions, and decimal rendering of integers.

use vstd::prelude::*;
use vstd::string::StringExecFns;
use vstd::string::StringSliceAdditionalSpecFns;
use vstd::utf8::*;

verus! {

pub const TAB: u8 = 0x09;

pub const LINE_FEED: u8 = 0x0a;

pub const FORM_FEED: u8 = 0x0c;

pub const CARRIAGE_RETURN: u8 = 0x0d;

pub const SPACE: u8 = 0x20;

pub const DOT: u8 = 0x2e;

pub const UNDERSCORE: u8 = 0x5f;

/// The ASCII white space: space, tab, line feed, form feed, carriage return.
pub open spec fn is_space(b: u8) -> bool {
    b == SPACE || b == TAB || b == LINE_FEED || b == FORM_FEED || b == CARRIAGE_RETURN
}

/// The ASCII digits `0` to `9`.
pub open spec fn is_digit(b: u8) -> bool {
    0x30 <= b <= 0x39
}

/// The ASCII letters `A` to `Z` and `a` to `z`.
pub open spec fn is_letter(b: u8) -> bool {
    0x41 <= b <= 0x5a || 0x61 <= b <= 0x7a
}

/// What an identifier may hold after its first byte: a letter, a digit or `_`.
pub open spec fn is_word(b: u8) -> bool {
    is_letter(b) || is_digit(b) || b == UNDERSCORE
}

pub fn space(b: u8) -> (r: bool)
    ensures
        r == is_space(b),
{
    b == SPACE || b == TAB || b == LINE_FEED || b == FORM_FEED || b == CARRIAGE_RETURN
}

pub fn digit(b: u8) -> (r: bool)
    ensures
        r == is_digit(b),
{
    0x30 <= b && b <= 0x39
}

pub fn letter(b: u8) -> (r: bool)
    ensures
        r == is_letter(b),
{
    (0x41 <= b && b <= 0x5a) || (0x61 <= b && b <= 0x7a)
}

pub fn word(b: u8) -> (r: bool)
    ensures
        r == is_word(b),
{
    letter(b) || digit(b) || b == UNDERSCORE
}

/// Whether a line's content stops at index `i`: at a line feed, at a carriage
/// return that a line feed follows, or at the end of the text.
pub open spec fn ends_line(s: Seq<u8>, i: int) -> bool {
    ||| i >= s.len()
    ||| s[i] == LINE_FEED
    ||| (s[i] == CARRIAGE_RETURN && i + 1 < s.len() && s[i + 1] == LINE_FEED)
}

/// The first index at or after `i` where a line's content stops.
pub open spec fn line_end(s: Seq<u8>, i: int) -> int
    decreases s.len() - i,
{
    if i < 0 || ends_line(s, i) {
        i
    } else {
        line_end(s, i + 1)
    }
}

/// Where the line after the one whose content stops at `end` begins: behind
/// the line feed.
pub open spec fn next_line(s: Seq<u8>, end: int) -> int {
    if end >= s.len() {
        s.len() as int
    } else if s[end] == LINE_FEED {
        end + 1
    } else {
        end + 2
    }
}

/// The first index in `i..end` whose byte is not a digit, or `end`.
pub open spec fn digits_end(s: Seq<u8>, i: int, end: int) -> int
    decreases end - i,
{
    if 0 <= i < end && i < s.len() && is_digit(s[i]) {
        digits_end(s, i + 1, end)
    } else {
        i
    }
}

/// The first index in `i..end` whose byte cannot continue an identifier, or
/// `end`.
pub open spec fn word_end(s: Seq<u8>, i: int, end: int) -> int
    decreases end - i,
{
    if 0 <= i < end && i < s.len() && is_word(s[i]) {
        word_end(s, i + 1, end)
    } else {
        i
    }
}

/// The index just behind the first byte `b` in `i..end`, or `end` where there
/// is none.
pub open spec fn behind_first(s: Seq<u8>, b: u8, i: int, end: int) -> int
    decreases end - i,
{
    if 0 <= i < end && i < s.len() {
        if s[i] == b {
            i + 1
        } else {
            behind_first(s, b, i + 1, end)
        }
    } else {
        i
    }
}

/// A line's content stops inside the text, at a line end, with no line feed
/// before it.
pub proof fn lemma_line_end_bounds(s: Seq<u8>, i: int)
    requires
        0 <= i <= s.len(),
    ensures
        i <= line_end(s, i) <= s.len(),
        ends_line(s, line_end(s, i)),
        line_end(s, i) < next_line(s, line_end(s, i)) <= s.len() || line_end(s, i) == s.len(),
        forall|j: int| i <= j < line_end(s, i) ==> s[j] != LINE_FEED,
    decreases s.len() - i,
{
    if !ends_line(s, i) {
        lemma_line_end_bounds(s, i + 1);
    }
}

/// Inside one line, the content stops at the same index wherever one starts.
pub proof fn lemma_line_end_same(s: Seq<u8>, i: int, j: int)
    requires
        0 <= i <= j <= line_end(s, i),
    ensures
        line_end(s, j) == line_end(s, i),
    decreases j - i,
{
    if i < j {
        lemma_line_end_same(s, i + 1, j);
    }
}

/// A run of digits stops inside its limits, holds digits only, and stops at
/// the limit or at a byte that is no digit.
pub proof fn lemma_digits_end_bounds(s: Seq<u8>, i: int, end: int)
    requires
        0 <= i <= end <= s.len(),
    ensures
        i <= digits_end(s, i, end) <= end,
        forall|j: int| i <= j < digits_end(s, i, end) ==> is_digit(#[trigger] s[j]),
        digits_end(s, i, end) < end ==> !is_digit(s[digits_end(s, i, end)]),
    decreases end - i,
{
    if i < end && is_digit(s[i]) {
        lemma_digits_end_bounds(s, i + 1, end);
    }
}

/// The same for a run of word bytes.
pub proof fn lemma_word_end_bounds(s: Seq<u8>, i: int, end: int)
    requires
        0 <= i <= end <= s.len(),
    ensures
        i <= word_end(s, i, end) <= end,
        forall|j: int| i <= j < word_end(s, i, end) ==> is_word(#[trigger] s[j]),
        word_end(s, i, end) < end ==> !is_word(s[word_end(s, i, end)]),
    decreases end - i,
{
    if i < end && is_word(s[i]) {
        lemma_word_end_bounds(s, i + 1, end);
    }
}

/// The search for a byte stops inside its limits: at the limit, or right
/// behind the byte.
pub proof fn lemma_behind_first_bounds(s: Seq<u8>, b: u8, i: int, end: int)
    requires
        0 <= i <= end <= s.len(),
    ensures
        i <= behind_first(s, b, i, end) <= end,
        behind_first(s, b, i, end) == end || (behind_first(s, b, i, end) > i && s[behind_first(
            s,
            b,
            i,
            end,
        ) - 1] == b),
    decreases end - i,
{
    if i < end && s[i] != b {
        lemma_behind_first_bounds(s, b, i + 1, end);
    }
}

/// Finds where the content of the line that holds `from` stops.
pub fn find_line_end(s: &[u8], from: usize) -> (end: usize)
    requires
        from <= s@.len(),
    ensures
        end == line_end(s@, from as int),
        from <= end <= s@.len(),
{
    let mut i: usize = from;
    proof {
        lemma_line_end_bounds(s@, from as int);
    }
    while i < s.len() && !(s[i] == LINE_FEED || (s[i] == CARRIAGE_RETURN && i + 1 < s.len() && s[i
        + 1] == LINE_FEED))
        invariant
            from <= i <= s@.len(),
            line_end(s@, i as int) == line_end(s@, from as int),
        decreases s@.len() - i,
    {
        i += 1;
    }
    i
}

/// Finds where the run of digits that starts at `from` stops.
pub fn find_digits_end(s: &[u8], from: usize, end: usize) -> (r: usize)
    requires
        from <= end <= s@.len(),
    ensures
        r == digits_end(s@, from as int, end as int),
        from <= r <= end,
{
    let mut i: usize = from;
    while i < end && digit(s[i])
        invariant
            from <= i <= end <= s@.len(),
            digits_end(s@, i as int, end as int) == digits_end(s@, from as int, end as int),
        decreases end - i,
    {
        i += 1;
    }
    i
}

/// Finds where the run of word bytes that starts at `from` stops.
pub fn find_word_end(s: &[u8], from: usize, end: usize) -> (r: usize)
    requires
        from <= end <= s@.len(),
    ensures
        r == word_end(s@, from as int, end as int),
        from <= r <= end,
{
    let mut i: usize = from;
    while i < end && word(s[i])
        invariant
            from <= i <= end <= s@.len(),
            word_end(s@, i as int, end as int) == word_end(s@, from as int, end as int),
        decreases end - i,
    {
        i += 1;
    }
    i
}

/// Finds the index behind the first byte `b` in `from..end`.
pub fn find_behind_first(s: &[u8], b: u8, from: usize, end: usize) -> (r: usize)
    requires
        from <= end <= s@.len(),
    ensures
        r == behind_first(s@, b, from as int, end as int),
        from <= r <= end,
{
    let mut i: usize = from;
    while i < end && s[i] != b
        invariant
            from <= i <= end <= s@.len(),
            behind_first(s@, b, i as int, end as int) == behind_first(
                s@,
                b,
                from as int,
                end as int,
            ),
        decreases end - i,
    {
        i += 1;
    }
    if i < end {
        i + 1
    } else {
        i
    }
}

/// Whether the bytes `from..to` of `s` are those of `word`.
pub fn same_bytes(s: &[u8], from: usize, to: usize, word: &str) -> (r: bool)
    requires
        from <= to <= s@.len(),
    ensures
        r == (s@.subrange(from as int, to as int) == word.spec_bytes()),
{
    let w = word.as_bytes();
    if w.len() != to - from {
        return false;
    }
    let mut k: usize = 0;
    while k < w.len()
        invariant
            from <= to <= s@.len(),
            w@.len() == to - from,
            w@ == word.spec_bytes(),
            k <= w@.len(),
            forall|j: int| 0 <= j < k ==> s@[from + j] == w@[j],
        decreases w@.len() - k,
    {
        if s[from + k] != w[k] {
            assert(s@.subrange(from as int, to as int)[k as int] != w@[k as int]);
            return false;
        }
        k += 1;
    }
    assert(s@.subrange(from as int, to as int) =~= w@);
    true
}

/// In valid UTF-8 a character starts at every ASCII byte.
pub proof fn lemma_boundary_at_ascii(s: Seq<u8>, i: int)
    requires
        valid_utf8(s),
        0 <= i < s.len(),
        s[i] < 0x80,
    ensures
        is_char_boundary(s, i),
{
    is_char_boundary_iff_is_leading_byte(s, i);
}

/// In valid UTF-8 a character ends with every ASCII byte.
pub proof fn lemma_boundary_behind_ascii(s: Seq<u8>, i: int)
    requires
        valid_utf8(s),
        0 <= i < s.len(),
        s[i] < 0x80,
    ensures
        is_char_boundary(s, i + 1),
    decreases s.len(),
{
    let k = length_of_first_scalar(s);
    reveal_with_fuel(is_char_boundary, 2);
    if i < k {
        assert(i == 0);
        assert(pop_first_scalar(s) == s.subrange(1, s.len() as int));
        assert(is_char_boundary(pop_first_scalar(s), 0));
    } else {
        let rest = pop_first_scalar(s);
        assert(rest[i - k] == s[i]);
        lemma_boundary_behind_ascii(rest, i - k);
    }
}

/// The text between two character boundaries of `s`.
pub fn cut<'a>(s: &'a str, from: usize, to: usize) -> (r: &'a str)
    requires
        from <= to <= s.spec_bytes().len(),
        is_char_boundary(s.spec_bytes(), from as int),
        is_char_boundary(s.spec_bytes(), to as int),
    ensures
        r.spec_bytes() == s.spec_bytes().subrange(from as int, to as int),
        r@ == decode_utf8(s.spec_bytes().subrange(from as int, to as int)),
{
    let (head, _) = s.split_at(to);
    proof {
        broadcast use group_utf8_lib;

        let all = s.spec_bytes();
        let h = head.spec_bytes();
        assert(valid_utf8(all));
        assert(valid_utf8(h));
        if from < to {
            is_char_boundary_iff_is_leading_byte(all, from as int);
            is_char_boundary_iff_is_leading_byte(h, from as int);
        } else {
            is_char_boundary_start_end_of_seq(h);
        }
    }
    let (_, tail) = head.split_at(from);
    proof {
        encode_utf8_decode_utf8(tail@);
        assert(tail.spec_bytes() =~= s.spec_bytes().subrange(from as int, to as int));
    }
    tail
}

/// The character for a digit below ten.
pub open spec fn digit_char(d: nat) -> char {
    if d == 0 {
        '0'
    } else if d == 1 {
        '1'
    } else if d == 2 {
        '2'
    } else if d == 3 {
        '3'
    } else if d == 4 {
        '4'
    } else if d == 5 {
        '5'
    } else if d == 6 {
        '6'
    } else if d == 7 {
        '7'
    } else if d == 8 {
        '8'
    } else {
        '9'
    }
}

/// The decimal numeral of `n`, without leading zeros.
pub open spec fn decimal(n: nat) -> Seq<char>
    decreases n,
{
    if n < 10 {
        seq![digit_char(n)]
    } else {
        decimal(n / 10).push(digit_char(n % 10))
    }
}

fn digit_text(d: usize) -> (r: &'static str)
    requires
        d < 10,
    ensures
        r@ == seq![digit_char(d as nat)],
{
    proof {
        reveal_strlit("0");
        reveal_strlit("1");
        reveal_strlit("2");
        reveal_strlit("3");
        reveal_strlit("4");
        reveal_strlit("5");
        reveal_strlit("6");
        reveal_strlit("7");
        reveal_strlit("8");
        reveal_strlit("9");
    }
    let r = if d == 0 {
        "0"
    } else if d == 1 {
        "1"
    } else if d == 2 {
        "2"
    } else if d == 3 {
        "3"
    } else if d == 4 {
        "4"
    } else if d == 5 {
        "5"
    } else if d == 6 {
        "6"
    } else if d == 7 {
        "7"
    } else if d == 8 {
        "8"
    } else {
        "9"
    };
    assert(r@ =~= seq![digit_char(d as nat)]);
    r
}

/// Writes `n` as a decimal numeral.
pub fn decimal_text(n: usize) -> (r: String)
    ensures
        r@ == decimal(n as nat),
    decreases n,
{
    if n < 10 {
        digit_text(n).to_owned()
    } else {
        let mut r = decimal_text(n / 10);
        r.append(digit_text(n % 10));
        assert(r@ =~= decimal(n as nat));
        r
    }
}

/// An unsigned decimal numeral in bytes: ASCII digits, at least one, then
/// nothing more or a dot and the digits of the fraction, which may be none.
pub open spec fn is_decimal_bytes(s: Seq<u8>) -> bool {
    let whole = digits_end(s, 0, s.len() as int);
    &&& whole > 0
    &&& whole == s.len() || (s[whole] == DOT && digits_end(s, whole + 1, s.len() as int) == s.len())
}

/// An unsigned decimal numeral.
pub open spec fn is_decimal(text: Seq<char>) -> bool {
    is_decimal_bytes(encode_utf8(text))
}

/// Whether `text` is an unsigned decimal numeral.
pub fn is_decimal_text(text: &str) -> (r: bool)
    ensures
        r == is_decimal(text@),
{
    let s = text.as_bytes();
    let n = s.len();
    let whole = find_digits_end(s, 0, n);
    if whole == 0 {
        false
    } else if whole == n {
        true
    } else {
        s[whole] == DOT && find_digits_end(s, whole + 1, n) == n
    }
}

/// Digits from `a` up to `b`, where the limit or another byte stands, are
/// the run of digits that starts at `a`.
pub proof fn lemma_digits_end_is(s: Seq<u8>, a: int, b: int, limit: int)
    requires
        0 <= a <= b <= limit <= s.len(),
        forall|j: int| a <= j < b ==> is_digit(#[trigger] s[j]),
        b == limit || !is_digit(s[b]),
    ensures
        digits_end(s, a, limit) == b,
    decreases b - a,
{
    if a < b {
        lemma_digits_end_is(s, a + 1, b, limit);
    }
}

/// Bytes that are all ASCII are valid UTF-8.
pub proof fn lemma_ascii_is_utf8(s: Seq<u8>)
    requires
        forall|j: int| 0 <= j < s.len() ==> #[trigger] s[j] < 0x80,
    ensures
        valid_utf8(s),
{
    assert(s.subrange(0, 0) =~= Seq::<u8>::empty());
    assert(partial_valid_utf8(s, 0));
    assert forall|j: int| 0 <= j < s.len() implies #[trigger] is_leading_byte_width_1(s[j]) by {
        assert(s[j] < 0x80);
    }
    partial_valid_utf8_extend_ascii_block(s, 0, s.len() as int);
    assert(s.subrange(0, s.len() as int) =~= s);
}

/// `s` is how `u` starts.
pub open spec fn starts(u: Seq<u8>, s: Seq<u8>) -> bool {
    &&& s.len() <= u.len()
    &&& forall|j: int| 0 <= j < s.len() ==> #[trigger] u[j] == s[j]
}

/// Word bytes from `a` up to `b`, where the limit or another byte stands, are
/// the run of word bytes that starts at `a`.
pub proof fn lemma_word_end_is(s: Seq<u8>, a: int, b: int, limit: int)
    requires
        0 <= a <= b <= limit <= s.len(),
        forall|j: int| a <= j < b ==> is_word(#[trigger] s[j]),
        b == limit || !is_word(s[b]),
    ensures
        word_end(s, a, limit) == b,
    decreases b - a,
{
    if a < b {
        lemma_word_end_is(s, a + 1, b, limit);
    }
}

/// Where a line of `s` stops before the end of `s`, it stops at the same
/// index in every text that starts with `s`.
pub proof fn lemma_line_end_stands(s: Seq<u8>, u: Seq<u8>, i: int)
    requires
        starts(u, s),
        0 <= i <= s.len(),
        line_end(s, i) < s.len(),
    ensures
        line_end(u, i) == line_end(s, i),
    decreases s.len() - i,
{
    if !ends_line(s, i) {
        assert(u[i] == s[i]);
        if i + 1 < s.len() {
            assert(u[i + 1] == s[i + 1]);
        }
        lemma_line_end_bounds(s, i + 1);
        lemma_line_end_stands(s, u, i + 1);
    } else {
        assert(u[i] == s[i]);
        if i + 1 < s.len() {
            assert(u[i + 1] == s[i + 1]);
        }
    }
}

/// Where `s` has no line end from `i` on, a text that starts with `s` has
/// none before the last byte of `s`.
pub proof fn lemma_line_end_behind(s: Seq<u8>, u: Seq<u8>, i: int)
    requires
        starts(u, s),
        0 <= i <= s.len(),
        line_end(s, i) == s.len(),
    ensures
        line_end(u, i) >= s.len() - 1,
        line_end(u, i) >= i,
    decreases s.len() - i,
{
    lemma_line_end_bounds(u, i);
    if i + 1 < s.len() {
        assert(u[i] == s[i]);
        assert(u[i + 1] == s[i + 1]);
        lemma_line_end_behind(s, u, i + 1);
    }
}

/// A run of digits of `s` that stops before the end of `s` is the same run
/// in a text that starts with `s`, where the limit there lies at or behind
/// its end and cuts no more than the limit in `s` did.
pub proof fn lemma_digits_end_stands(s: Seq<u8>, u: Seq<u8>, a: int, end: int, limit: int)
    requires
        starts(u, s),
        0 <= a <= end <= s.len(),
        digits_end(s, a, end) < s.len(),
        digits_end(s, a, end) <= limit <= u.len(),
        digits_end(s, a, end) < end || limit == end,
    ensures
        digits_end(u, a, limit) == digits_end(s, a, end),
{
    let b = digits_end(s, a, end);
    lemma_digits_end_bounds(s, a, end);
    assert forall|j: int| a <= j < b implies is_digit(#[trigger] u[j]) by {
        assert(u[j] == s[j]);
        assert(is_digit(s[j]));
    }
    assert(u[b] == s[b]);
    lemma_digits_end_is(u, a, b, limit);
}

/// The same for a run of word bytes.
pub proof fn lemma_word_end_stands(s: Seq<u8>, u: Seq<u8>, a: int, end: int, limit: int)
    requires
        starts(u, s),
        0 <= a <= end <= s.len(),
        word_end(s, a, end) < s.len(),
        word_end(s, a, end) <= limit <= u.len(),
        word_end(s, a, end) < end || limit == end,
    ensures
        word_end(u, a, limit) == word_end(s, a, end),
{
    let b = word_end(s, a, end);
    lemma_word_end_bounds(s, a, end);
    assert forall|j: int| a <= j < b implies is_word(#[trigger] u[j]) by {
        assert(u[j] == s[j]);
        assert(is_word(s[j]));
    }
    assert(u[b] == s[b]);
    lemma_word_end_is(u, a, b, limit);
}

/// The same for the search of a byte, where the search in `s` found the
/// byte or the limits are one.
pub proof fn lemma_behind_first_stands(
    s: Seq<u8>,
    u: Seq<u8>,
    b: u8,
    a: int,
    end: int,
    limit: int,
)
    requires
        starts(u, s),
        0 <= a <= end <= s.len(),
        behind_first(s, b, a, end) <= limit <= u.len(),
        limit == end || (behind_first(s, b, a, end) > a && s[behind_first(s, b, a, end) - 1] == b),
    ensures
        behind_first(u, b, a, limit) == behind_first(s, b, a, end),
    decreases end - a,
{
    lemma_behind_first_bounds(s, b, a, end);
    if a < end {
        assert(u[a] == s[a]);
        if s[a] != b {
            lemma_behind_first_bounds(s, b, a + 1, end);
            lemma_behind_first_stands(s, u, b, a + 1, end, limit);
        }
    }
}

/// The encoding of two texts in a row is their encodings in a row.
pub proof fn lemma_encode_utf8_add(a: Seq<char>, b: Seq<char>)
    ensures
        encode_utf8(a + b) == encode_utf8(a) + encode_utf8(b),
    decreases a.len(),
{
    if a.len() == 0 {
        assert(a + b =~= b);
        assert(encode_utf8(a) + encode_utf8(b) =~= encode_utf8(b));
    } else {
        assert((a + b).drop_first() =~= a.drop_first() + b);
        lemma_encode_utf8_add(a.drop_first(), b);
        assert(encode_scalar(a[0] as u32) + (encode_utf8(a.drop_first()) + encode_utf8(b))
            =~= (encode_scalar(a[0] as u32) + encode_utf8(a.drop_first())) + encode_utf8(b));
    }
}

/// The first index in `i..end` whose byte lies outside ASCII, or `end`.
pub open spec fn first_non_ascii(s: Seq<u8>, i: int, end: int) -> int
    decreases end - i,
{
    if 0 <= i < end && i < s.len() && s[i] < 0x80 {
        first_non_ascii(s, i + 1, end)
    } else {
        i
    }
}

/// The search for a byte outside ASCII stops inside its limits, behind ASCII
/// bytes only, and at the limit or at such a byte.
pub proof fn lemma_first_non_ascii_bounds(s: Seq<u8>, i: int, end: int)
    requires
        0 <= i <= end <= s.len(),
    ensures
        i <= first_non_ascii(s, i, end) <= end,
        forall|j: int| i <= j < first_non_ascii(s, i, end) ==> #[trigger] s[j] < 0x80,
        first_non_ascii(s, i, end) < end ==> s[first_non_ascii(s, i, end)] >= 0x80,
    decreases end - i,
{
    if i < end && s[i] < 0x80 {
        lemma_first_non_ascii_bounds(s, i + 1, end);
    }
}

/// ASCII bytes from `a` up to `b`, where the limit or a byte outside ASCII
/// stands, are where the search from `a` stops.
pub proof fn lemma_first_non_ascii_is(s: Seq<u8>, a: int, b: int, limit: int)
    requires
        0 <= a <= b <= limit <= s.len(),
        forall|j: int| a <= j < b ==> #[trigger] s[j] < 0x80,
        b == limit || s[b] >= 0x80,
    ensures
        first_non_ascii(s, a, limit) == b,
    decreases b - a,
{
    if a < b {
        lemma_first_non_ascii_is(s, a + 1, b, limit);
    }
}

/// Finds the first byte outside ASCII in `from..end`.
pub fn find_non_ascii(s: &[u8], from: usize, end: usize) -> (r: usize)
    requires
        from <= end <= s@.len(),
    ensures
        r == first_non_ascii(s@, from as int, end as int),
        from <= r <= end,
{
    let mut i: usize = from;
    while i < end && s[i] < 0x80
        invariant
            from <= i <= end <= s@.len(),
            first_non_ascii(s@, i as int, end as int) == first_non_ascii(
                s@,
                from as int,
                end as int,
            ),
        decreases end - i,
    {
        i += 1;
    }
    i
}

/// Where the byte `b` is not among `a..=k` and `k` lies before the limit,
/// the search for `b` from `a` stops behind `k`.
pub proof fn lemma_behind_first_passes(s: Seq<u8>, b: u8, a: int, k: int, end: int)
    requires
        0 <= a <= k < end <= s.len(),
        forall|j: int| a <= j <= k ==> #[trigger] s[j] != b,
    ensures
        behind_first(s, b, a, end) > k,
    decreases k - a,
{
    if a < k {
        lemma_behind_first_passes(s, b, a + 1, k, end);
    } else {
        lemma_behind_first_bounds(s, b, a + 1, end);
    }
}

/// Where the search for `b` from `a` stops behind `k`, `b` is not among
/// `a..k`.
pub proof fn lemma_behind_first_skips(s: Seq<u8>, b: u8, a: int, k: int, end: int)
    requires
        0 <= a <= k < behind_first(s, b, a, end),
        end <= s.len(),
    ensures
        forall|j: int| a <= j < k ==> #[trigger] s[j] != b,
    decreases k - a,
{
    if a < k {
        lemma_behind_first_skips(s, b, a + 1, k, end);
    }
}

} // verus!
