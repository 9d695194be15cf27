//! Text helpers shared by the tokenizer, the parser and the formatter:
//! UTF-8 decoding, runs of elements, trimming, and decimal numbers.

use vstd::prelude::*;
use vstd::string::{StrSliceExecFns, StringExecFns};
use vstd::utf8::{valid_utf8, decode_utf8, encode_utf8, encode_utf8_decode_utf8};

verus! {

/// Decodes a byte vector as UTF-8 text. Calls `String::from_utf8`, which
/// returns the text that the bytes encode when they are well-formed UTF-8 and
/// an error otherwise; this contract states exactly that, with
/// well-formedness and decoding as `vstd::utf8` defines them.
#[verifier::external_body]
pub(crate) fn string_from_utf8(bytes: Vec<u8>) -> (text: Option<String>)
    ensures
        text.is_some() == valid_utf8(bytes@),
        text matches Some(s) ==> s@ == decode_utf8(bytes@),
{
    String::from_utf8(bytes).ok()
}

/// Whether two texts hold the same characters.
pub fn same_text(a: &str, b: &str) -> (same: bool)
    ensures
        same == (a@ == b@),
{
    let x = a.as_bytes();
    let y = b.as_bytes();
    proof {
        encode_utf8_decode_utf8(a@);
        encode_utf8_decode_utf8(b@);
    }
    if x.len() != y.len() {
        return false;
    }
    let mut i: usize = 0;
    while i < x.len()
        invariant
            x@.len() == y@.len(),
            i <= x@.len(),
            forall|k: int| 0 <= k < i ==> x@[k] == y@[k],
            x@ == encode_utf8(a@),
            y@ == encode_utf8(b@),
            decode_utf8(encode_utf8(a@)) == a@,
            decode_utf8(encode_utf8(b@)) == b@,
        decreases x@.len() - i,
    {
        if x[i] != y[i] {
            return false;
        }
        i += 1;
    }
    assert(x@ =~= y@);
    true
}

/// How many consecutive elements of `s`, from index `i` on, come before the
/// first one at which `stop` holds (or before the end of `s`).
pub open spec fn run_len<T>(s: Seq<T>, i: int, stop: spec_fn(T) -> bool) -> nat
    decreases s.len() - i,
{
    if i < 0 || i >= s.len() || stop(s[i]) {
        0
    } else {
        1 + run_len(s, i + 1, stop)
    }
}

/// How many consecutive elements of `s`, from index `j - 1` downwards, come
/// after the last one at which `stop` holds (or after the start of `s`).
pub open spec fn back_run_len<T>(s: Seq<T>, j: int, stop: spec_fn(T) -> bool) -> nat
    decreases j,
{
    if j <= 0 || j > s.len() || stop(s[j - 1]) {
        0
    } else {
        1 + back_run_len(s, j - 1, stop)
    }
}

/// A run from `i` ends at `j` exactly if `stop` holds of no element in
/// between and `j` is the end of the sequence or an element at which `stop`
/// holds.
pub proof fn lemma_run_len<T>(s: Seq<T>, i: int, j: int, stop: spec_fn(T) -> bool)
    requires
        0 <= i <= j <= s.len(),
        forall|k: int| i <= k < j ==> !stop(#[trigger] s[k]),
        j == s.len() || stop(s[j]),
    ensures
        i + run_len(s, i, stop) == j,
    decreases j - i,
{
    if i < j {
        lemma_run_len(s, i + 1, j, stop);
    }
}

/// The converse of `lemma_run_len`: what holds of the elements of a run and
/// of the element after it.
pub proof fn lemma_run_len_elements<T>(s: Seq<T>, i: int, stop: spec_fn(T) -> bool)
    requires
        0 <= i <= s.len(),
    ensures
        i + run_len(s, i, stop) <= s.len(),
        forall|k: int| i <= k < i + run_len(s, i, stop) ==> !stop(#[trigger] s[k]),
        i + run_len(s, i, stop) < s.len() ==> stop(s[i + run_len(s, i, stop)]),
    decreases s.len() - i,
{
    if i < s.len() && !stop(s[i]) {
        lemma_run_len_elements(s, i + 1, stop);
    }
}

/// A backwards run from `j` starts at `i` exactly if `stop` holds of no
/// element in between and `i` is the start of the sequence or follows an
/// element at which `stop` holds.
pub proof fn lemma_back_run_len<T>(s: Seq<T>, i: int, j: int, stop: spec_fn(T) -> bool)
    requires
        0 <= i <= j <= s.len(),
        forall|k: int| i <= k < j ==> !stop(#[trigger] s[k]),
        i == 0 || stop(s[i - 1]),
    ensures
        j - back_run_len(s, j, stop) == i,
    decreases j - i,
{
    if i < j {
        lemma_back_run_len(s, i, j - 1, stop);
    }
}

/// The converse of `lemma_back_run_len`: what holds of the elements of a
/// backwards run and of the element before it.
pub proof fn lemma_back_run_len_elements<T>(s: Seq<T>, j: int, stop: spec_fn(T) -> bool)
    requires
        0 <= j <= s.len(),
    ensures
        0 <= j - back_run_len(s, j, stop),
        forall|k: int| j - back_run_len(s, j, stop) <= k < j ==> !stop(#[trigger] s[k]),
        0 < j - back_run_len(s, j, stop) ==> stop(s[j - back_run_len(s, j, stop) - 1]),
    decreases j,
{
    if j > 0 && !stop(s[j - 1]) {
        lemma_back_run_len_elements(s, j - 1, stop);
    }
}

/// Whether `c` has the Unicode property `White_Space`.
pub open spec fn is_space(c: char) -> bool {
    let u = c as u32;
    ||| 0x09 <= u <= 0x0d
    ||| u == 0x20
    ||| u == 0x85
    ||| u == 0xa0
    ||| u == 0x1680
    ||| 0x2000 <= u <= 0x200a
    ||| u == 0x2028
    ||| u == 0x2029
    ||| u == 0x202f
    ||| u == 0x205f
    ||| u == 0x3000
}

/// Holds of every character but `;`.
pub open spec fn not_semicolon() -> spec_fn(char) -> bool {
    |c: char| c != ';'
}

/// Holds of every character that is no white space.
pub open spec fn not_space() -> spec_fn(char) -> bool {
    |c: char| !is_space(c)
}

/// A text without the white space at its ends.
pub open spec fn trim(text: Seq<char>) -> Seq<char> {
    let first = run_len(text, 0, not_space()) as int;
    let last = text.len() - back_run_len(text, text.len() as int, not_space());
    if first <= last {
        text.subrange(first, last)
    } else {
        Seq::empty()
    }
}

/// The text of a comment, given the line it was written on from its first
/// `;` on: the line without its leading semicolons, then without the white
/// space on either side of what is left.
pub open spec fn comment_text(line: Seq<char>) -> Seq<char> {
    trim(line.skip(run_len(line, 0, not_semicolon()) as int))
}

/// Whether `pattern` occurs in `text` as a run of neighbouring characters.
pub open spec fn contains_text(text: Seq<char>, pattern: Seq<char>) -> bool {
    exists|i: int|
        0 <= i <= text.len() - pattern.len() && #[trigger] text.subrange(i, i + pattern.len())
            == pattern
}

/// Whether `c` has the Unicode property `White_Space`.
pub fn char_is_space(c: char) -> (b: bool)
    ensures
        b == is_space(c),
{
    let u: u32 = c as u32;
    (0x09 <= u && u <= 0x0d) || u == 0x20 || u == 0x85 || u == 0xa0 || u == 0x1680 || (0x2000 <= u
        && u <= 0x200a) || u == 0x2028 || u == 0x2029 || u == 0x202f || u == 0x205f || u == 0x3000
}

/// Strips the white space from both ends of a text.
pub fn trim_text(text: &str) -> (inner: &str)
    ensures
        inner@ == trim(text@),
{
    let n = text.unicode_len();
    let mut first: usize = 0;
    while first < n && char_is_space(text.get_char(first))
        invariant
            n == text@.len(),
            first <= n,
            forall|k: int| 0 <= k < first ==> !not_space()(#[trigger] text@[k]),
        decreases n - first,
    {
        first += 1;
    }
    let mut last: usize = n;
    while last > 0 && char_is_space(text.get_char(last - 1))
        invariant
            n == text@.len(),
            last <= n,
            forall|k: int| last <= k < n ==> !not_space()(#[trigger] text@[k]),
        decreases last,
    {
        last -= 1;
    }
    proof {
        lemma_run_len(text@, 0, first as int, not_space());
        lemma_back_run_len(text@, last as int, n as int, not_space());
    }
    if first <= last {
        text.substring_char(first, last)
    } else {
        proof {
            reveal_strlit("");
        }
        assert(""@ =~= Seq::<char>::empty());
        ""
    }
}

/// Looks for the first occurrence of a character in a text.
pub fn find_char(text: &str, c: char) -> (found: Option<usize>)
    ensures
        match found {
            Some(i) => i < text@.len() && text@[i as int] == c && forall|k: int|
                0 <= k < i ==> text@[k] != c,
            None => forall|k: int| 0 <= k < text@.len() ==> text@[k] != c,
        },
{
    let n = text.unicode_len();
    let mut i: usize = 0;
    while i < n
        invariant
            n == text@.len(),
            i <= n,
            forall|k: int| 0 <= k < i ==> text@[k] != c,
        decreases n - i,
    {
        if text.get_char(i) == c {
            return Some(i);
        }
        i += 1;
    }
    None
}

/// Tells whether `pattern` occurs in `text`.
pub fn text_contains(text: &str, pattern: &str) -> (found: bool)
    ensures
        found == contains_text(text@, pattern@),
{
    let n = text.unicode_len();
    let m = pattern.unicode_len();
    if m > n {
        return false;
    }
    let mut i: usize = 0;
    while i <= n - m
        invariant
            n == text@.len(),
            m == pattern@.len(),
            m <= n,
            i <= n - m + 1,
            forall|j: int| 0 <= j < i ==> #[trigger] text@.subrange(j, j + m) != pattern@,
        decreases n - m + 1 - i,
    {
        let mut k: usize = 0;
        while k < m && text.get_char(i + k) == pattern.get_char(k)
            invariant
                n == text@.len(),
                m == pattern@.len(),
                i + m <= n,
                k <= m,
                forall|x: int| 0 <= x < k ==> text@[i + x] == pattern@[x],
            decreases m - k,
        {
            k += 1;
        }
        if k == m {
            assert(text@.subrange(i as int, i + m) =~= pattern@);
            return true;
        }
        assert(text@.subrange(i as int, i + m)[k as int] != pattern@[k as int]);
        i += 1;
    }
    false
}

/// Strips the comment markers and the surrounding white space from a
/// comment line.
pub fn strip_comment(line: &str) -> (text: String)
    ensures
        text@ == comment_text(line@),
{
    let n = line.unicode_len();
    let mut marks: usize = 0;
    while marks < n && line.get_char(marks) == ';'
        invariant
            n == line@.len(),
            marks <= n,
            forall|k: int| 0 <= k < marks ==> !not_semicolon()(#[trigger] line@[k]),
        decreases n - marks,
    {
        marks += 1;
    }
    proof {
        lemma_run_len(line@, 0, marks as int, not_semicolon());
    }
    String::from_str(trim_text(line.substring_char(marks, n)))
}

/// Whether `b` is an ASCII decimal digit.
pub open spec fn is_digit(b: u8) -> bool {
    0x30 <= b <= 0x39
}

/// Whether every byte of `digits` is an ASCII decimal digit.
pub open spec fn all_digits(digits: Seq<u8>) -> bool {
    forall|k: int| 0 <= k < digits.len() ==> is_digit(#[trigger] digits[k])
}

/// The number that a sequence of decimal digits denotes, most significant
/// digit first. A byte that is no digit counts as zero.
pub open spec fn digits_value(digits: Seq<u8>) -> nat
    decreases digits.len(),
{
    if digits.len() == 0 {
        0
    } else {
        let last = digits.last();
        let d: nat = if is_digit(last) {
            (last - 0x30) as nat
        } else {
            0
        };
        digits_value(digits.drop_last()) * 10 + d
    }
}

/// The integer that a token denotes: an optional sign, `-` or `+`, then one
/// or more decimal digits, with a value that fits an `isize`. `None` for any
/// other token.
pub open spec fn integer_value(token: Seq<u8>) -> Option<int> {
    let signed = token.len() > 0 && (token[0] == 0x2d || token[0] == 0x2b);
    let digits = if signed {
        token.subrange(1, token.len() as int)
    } else {
        token
    };
    let magnitude = digits_value(digits) as int;
    let value = if signed && token[0] == 0x2d {
        -magnitude
    } else {
        magnitude
    };
    if digits.len() > 0 && all_digits(digits) && isize::MIN <= value <= isize::MAX {
        Some(value)
    } else {
        None
    }
}

/// A longer digit sequence never denotes a smaller number than its prefix.
pub proof fn lemma_digits_value_prefix(digits: Seq<u8>, k: int)
    requires
        0 <= k <= digits.len(),
    ensures
        digits_value(digits.subrange(0, k)) <= digits_value(digits),
    decreases digits.len() - k,
{
    if k < digits.len() {
        lemma_digits_value_prefix(digits, k + 1);
        assert(digits.subrange(0, k + 1).drop_last() =~= digits.subrange(0, k));
    } else {
        assert(digits.subrange(0, k) =~= digits);
    }
}

/// Reads a token as a signed decimal integer.
pub fn parse_integer(token: &[u8]) -> (value: Option<isize>)
    ensures
        value matches Some(v) ==> integer_value(token@) == Some(v as int),
        value.is_none() ==> integer_value(token@).is_none(),
{
    let n = token.len();
    if n == 0 {
        return None;
    }
    let negative = token[0] == 0x2d;
    let start: usize = if negative || token[0] == 0x2b {
        1
    } else {
        0
    };
    if start == n {
        return None;
    }
    let limit: u128 = if negative {
        isize::MAX as u128 + 1
    } else {
        isize::MAX as u128
    };
    let ghost digits = token@.subrange(start as int, n as int);
    let mut acc: u128 = 0;
    let mut i: usize = start;
    while i < n
        invariant
            n == token@.len(),
            start <= i <= n,
            digits == token@.subrange(start as int, n as int),
            all_digits(digits.subrange(0, i - start)),
            acc == digits_value(digits.subrange(0, i - start)),
            acc <= limit,
            negative == (token@[0] == 0x2d),
            start == (if token@[0] == 0x2d || token@[0] == 0x2b { 1int } else { 0int }),
            limit == (if negative { isize::MAX + 1 } else { isize::MAX as int }),
        decreases n - i,
    {
        let b = token[i];
        if b < 0x30 || b > 0x39 {
            assert(!is_digit(digits[i - start]));
            assert(start == 0 ==> digits =~= token@);
            return None;
        }
        assert(digits.subrange(0, i + 1 - start).drop_last() =~= digits.subrange(0, i - start));
        assert(digits.subrange(0, i + 1 - start).last() == b);
        acc = acc * 10 + (b - 0x30) as u128;
        assert(acc == digits_value(digits.subrange(0, i + 1 - start)));
        if acc > limit {
            proof {
                lemma_digits_value_prefix(digits, i + 1 - start);
                assert(isize::MIN == -isize::MAX - 1);
                assert(start == 0 ==> digits =~= token@);
            }
            return None;
        }
        i += 1;
    }
    assert(digits.subrange(0, n - start) =~= digits);
    assert(isize::MIN == -isize::MAX - 1);
    assert(start == 0 ==> digits =~= token@);
    if negative {
        if acc == limit {
            Some(isize::MIN)
        } else {
            Some(-(acc as isize))
        }
    } else {
        Some(acc as isize)
    }
}

/// The natural number that a token denotes: an optional `+`, then one or
/// more decimal digits, with a value that fits a `usize`. `None` for any
/// other token.
pub open spec fn natural_value(token: Seq<u8>) -> Option<nat> {
    let digits = if token.len() > 0 && token[0] == 0x2b {
        token.subrange(1, token.len() as int)
    } else {
        token
    };
    if digits.len() > 0 && all_digits(digits) && digits_value(digits) <= usize::MAX {
        Some(digits_value(digits))
    } else {
        None
    }
}

/// Reads a token as an unsigned decimal integer.
pub fn parse_natural(token: &[u8]) -> (value: Option<usize>)
    ensures
        value matches Some(v) ==> natural_value(token@) == Some(v as nat),
        value.is_none() ==> natural_value(token@).is_none(),
{
    let n = token.len();
    if n == 0 {
        return None;
    }
    let start: usize = if token[0] == 0x2b {
        1
    } else {
        0
    };
    if start == n {
        return None;
    }
    let ghost digits = token@.subrange(start as int, n as int);
    let mut acc: u128 = 0;
    let mut i: usize = start;
    while i < n
        invariant
            n == token@.len(),
            start <= i <= n,
            digits == token@.subrange(start as int, n as int),
            all_digits(digits.subrange(0, i - start)),
            acc == digits_value(digits.subrange(0, i - start)),
            acc <= usize::MAX,
            start == (if token@[0] == 0x2b { 1int } else { 0int }),
        decreases n - i,
    {
        let b = token[i];
        if b < 0x30 || b > 0x39 {
            assert(!is_digit(digits[i - start]));
            assert(start == 0 ==> digits =~= token@);
            return None;
        }
        assert(digits.subrange(0, i + 1 - start).drop_last() =~= digits.subrange(0, i - start));
        assert(digits.subrange(0, i + 1 - start).last() == b);
        acc = acc * 10 + (b - 0x30) as u128;
        assert(acc == digits_value(digits.subrange(0, i + 1 - start)));
        if acc > usize::MAX as u128 {
            proof {
                lemma_digits_value_prefix(digits, i + 1 - start);
                assert(start == 0 ==> digits =~= token@);
            }
            return None;
        }
        i += 1;
    }
    assert(digits.subrange(0, n - start) =~= digits);
    assert(start == 0 ==> digits =~= token@);
    Some(acc as usize)
}

/// The character for a decimal digit.
pub open spec fn digit_char(d: nat) -> char {
    (0x30 + d) as char
}

/// The decimal numeral of a natural number, without leading zeros.
pub open spec fn decimal(n: nat) -> Seq<char>
    decreases n,
{
    if n < 10 {
        seq![digit_char(n)]
    } else {
        decimal(n / 10).push(digit_char(n % 10))
    }
}

/// The decimal numeral of an integer: a `-` sign before the numeral of the
/// magnitude of a negative number.
pub open spec fn decimal_int(v: int) -> Seq<char> {
    if v < 0 {
        seq!['-'] + decimal((-v) as nat)
    } else {
        decimal(v as nat)
    }
}

/// A decimal numeral holds digits only, at least one, and starts with `0`
/// only if it is `0`.
pub proof fn lemma_decimal_digits(n: nat)
    ensures
        decimal(n).len() >= 1,
        forall|i: int|
            0 <= i < decimal(n).len() ==> '0' <= (#[trigger] decimal(n)[i]) && decimal(n)[i]
                <= '9',
        n > 0 ==> decimal(n)[0] != '0',
        n == 0 ==> decimal(n) == seq!['0'],
    decreases n,
{
    if n >= 10 {
        lemma_decimal_digits(n / 10);
    } else {
        assert(decimal(n) =~= seq![digit_char(n)]);
    }
}

fn digit_str(d: u8) -> (s: &'static str)
    requires
        d < 10,
    ensures
        s@ == seq![digit_char(d as nat)],
{
    proof {
        reveal_strlit("0");
        reveal_strlit("1");
        reveal_strlit("2");
        reveal_strlit("3");
        reveal_strlit("4");
        reveal_strlit("5");
        reveal_strlit("6");
        reveal_strlit("7");
        reveal_strlit("8");
        reveal_strlit("9");
    }
    let s = match d {
        0 => "0",
        1 => "1",
        2 => "2",
        3 => "3",
        4 => "4",
        5 => "5",
        6 => "6",
        7 => "7",
        8 => "8",
        _ => "9",
    };
    assert(s@ =~= seq![digit_char(d as nat)]);
    s
}

/// Writes a natural number as a decimal numeral.
pub fn format_natural(n: u128) -> (text: String)
    ensures
        text@ == decimal(n as nat),
    decreases n,
{
    if n < 10 {
        String::from_str(digit_str(n as u8))
    } else {
        let mut text = format_natural(n / 10);
        text.append(digit_str((n % 10) as u8));
        text
    }
}

/// Writes an integer as a decimal numeral.
pub fn format_integer(v: isize) -> (text: String)
    ensures
        text@ == decimal_int(v as int),
{
    if v < 0 {
        proof {
            reveal_strlit("-");
        }
        let mut text = String::from_str("-");
        let magnitude = format_natural((-(v as i128)) as u128);
        text.append(magnitude.as_str());
        assert(text@ =~= decimal_int(v as int));
        text
    } else {
        format_natural(v as u128)
    }
}

} // verus!
