//! Character-level scanning: decimal digit runs and separator search.
//! These are the building blocks of the curve-spec parser and of the
//! sensor-value parser.

use vstd::prelude::*;
use vstd::arithmetic::div_mod::lemma_div_denominator;
use vstd::string::StrSliceExecFns;
use vstd::string::StringExecFns;

verus! {

/// A decimal digit.
pub open spec fn is_digit(c: char) -> bool {
    '0' as u32 <= c as u32 && c as u32 <= '9' as u32
}

/// The numeric value of a decimal digit.
pub open spec fn digit_val(c: char) -> int {
    c as u32 - '0' as u32
}

/// A non-empty run of decimal digits.
pub open spec fn all_digits(s: Seq<char>) -> bool {
    s.len() > 0 && forall|i: int| 0 <= i < s.len() ==> is_digit(#[trigger] s[i])
}

/// The number denoted by a digit run, most significant digit first.
pub open spec fn digits_val(s: Seq<char>) -> int
    decreases s.len(),
{
    if s.len() == 0 {
        0
    } else {
        digits_val(s.drop_last()) * 10 + digit_val(s.last())
    }
}

/// An unsigned decimal number: a non-empty digit run whose value is at
/// most `max`. Anything else (a sign, spaces, other characters, an
/// out-of-range value) is rejected.
pub open spec fn spec_parse_uint(s: Seq<char>, max: int) -> Option<int> {
    if all_digits(s) && digits_val(s) <= max {
        Some(digits_val(s))
    } else {
        None
    }
}

/// The index of the first occurrence of `sep`, or `s.len()` if absent.
pub open spec fn find_sep(s: Seq<char>, sep: char) -> int
    decreases s.len(),
{
    if s.len() == 0 {
        0
    } else if s[0] == sep {
        0
    } else {
        1 + find_sep(s.drop_first(), sep)
    }
}

/// `find_sep` is the only index that is at most `s.len()`, has no `sep`
/// before it, and holds `sep` itself if it is inside the sequence.
pub(crate) proof fn lemma_find_sep_unique(s: Seq<char>, sep: char, j: int)
    requires
        0 <= j <= s.len(),
        forall|k: int| 0 <= k < j ==> s[k] != sep,
        j < s.len() ==> s[j] == sep,
    ensures
        find_sep(s, sep) == j,
    decreases s.len(),
{
    if s.len() > 0 && s[0] != sep {
        assert(j != 0);
        lemma_find_sep_unique(s.drop_first(), sep, j - 1);
    }
}

/// For a digit run, each prefix denotes at most what the whole run does.
proof fn lemma_digits_val_prefix(s: Seq<char>, k: int)
    requires
        0 <= k <= s.len(),
        all_digits(s),
    ensures
        0 <= digits_val(s.take(k)) <= digits_val(s),
    decreases s.len() - k,
{
    if k == s.len() {
        assert(s.take(k) =~= s);
        lemma_digits_val_nonneg(s);
    } else {
        lemma_digits_val_prefix(s, k + 1);
        assert(s.take(k + 1).drop_last() =~= s.take(k));
        assert(digits_val(s.take(k + 1)) == digits_val(s.take(k)) * 10 + digit_val(s[k]));
        lemma_digits_val_nonneg_take(s, k);
    }
}

proof fn lemma_digits_val_nonneg(s: Seq<char>)
    requires
        forall|i: int| 0 <= i < s.len() ==> is_digit(#[trigger] s[i]),
    ensures
        digits_val(s) >= 0,
    decreases s.len(),
{
    if s.len() > 0 {
        assert(forall|i: int|
            0 <= i < s.drop_last().len() ==> is_digit(#[trigger] s.drop_last()[i]));
        lemma_digits_val_nonneg(s.drop_last());
    }
}

proof fn lemma_digits_val_nonneg_take(s: Seq<char>, k: int)
    requires
        0 <= k <= s.len(),
        all_digits(s),
    ensures
        digits_val(s.take(k)) >= 0,
{
    assert(forall|i: int| 0 <= i < s.take(k).len() ==> is_digit(#[trigger] s.take(k)[i]));
    lemma_digits_val_nonneg(s.take(k));
}

/// First index in `[from, to)` holding `sep`, or `to` if there is none.
pub(crate) fn find_char(s: &str, from: usize, to: usize, sep: char) -> (j: usize)
    requires
        from <= to <= s@.len(),
    ensures
        from <= j <= to,
        forall|k: int| from <= k < j ==> s@[k] != sep,
        j < to ==> s@[j as int] == sep,
{
    let mut j: usize = from;
    while j < to && s.get_char(j) != sep
        invariant
            from <= j <= to,
            to <= s@.len(),
            forall|k: int| from <= k < j ==> s@[k] != sep,
        decreases to - j,
    {
        j = j + 1;
    }
    j
}

/// Parses the character range `[from, to)` of `s` as an unsigned decimal
/// number of at most `max`, exactly as `spec_parse_uint` describes.
pub(crate) fn parse_uint_range(s: &str, from: usize, to: usize, max: u64) -> (r: Option<u64>)
    requires
        from <= to <= s@.len(),
        max <= 0xFFFF_FFFF,
    ensures
        match r {
            Some(v) => spec_parse_uint(s@.subrange(from as int, to as int), max as int)
                == Some(v as int),
            None => spec_parse_uint(s@.subrange(from as int, to as int), max as int) is None,
        },
{
    let ghost seg = s@.subrange(from as int, to as int);
    if from == to {
        return None;
    }
    let mut acc: u64 = 0;
    let mut i: usize = from;
    while i < to
        invariant
            from <= i <= to,
            to <= s@.len(),
            max <= 0xFFFF_FFFF,
            seg == s@.subrange(from as int, to as int),
            forall|k: int| 0 <= k < i - from ==> is_digit(#[trigger] seg[k]),
            acc <= max,
            acc as int == digits_val(seg.take(i - from)),
        decreases to - i,
    {
        let c = s.get_char(i);
        proof {
            assert(seg[i - from] == s@[i as int]);
        }
        if !(c >= '0' && c <= '9') {
            assert(!is_digit(seg[i - from]));
            assert(!all_digits(seg));
            return None;
        }
        let d: u32 = c as u32 - '0' as u32;
        let next: u64 = acc * 10 + d as u64;
        proof {
            assert(seg.take(i - from + 1).drop_last() =~= seg.take(i - from));
            assert(digits_val(seg.take(i - from + 1)) == next as int);
        }
        if next > max {
            proof {
                if all_digits(seg) {
                    lemma_digits_val_prefix(seg, i - from + 1);
                }
            }
            return None;
        }
        acc = next;
        i = i + 1;
    }
    proof {
        assert(seg.take(to - from) =~= seg);
        assert(all_digits(seg));
    }
    Some(acc)
}

/// ASCII whitespace, as sensor pseudo-files pad their values with.
pub open spec fn is_space(c: char) -> bool {
    c == ' ' || c == '\t' || c == '\n' || c == '\r'
}

/// The sequence with its leading whitespace removed.
pub open spec fn trim_front(s: Seq<char>) -> Seq<char>
    decreases s.len(),
{
    if s.len() > 0 && is_space(s[0]) {
        trim_front(s.drop_first())
    } else {
        s
    }
}

/// The sequence with its trailing whitespace removed.
pub open spec fn trim_back(s: Seq<char>) -> Seq<char>
    decreases s.len(),
{
    if s.len() > 0 && is_space(s.last()) {
        trim_back(s.drop_last())
    } else {
        s
    }
}

/// The sequence with whitespace removed at both ends.
pub open spec fn trimmed(s: Seq<char>) -> Seq<char> {
    trim_back(trim_front(s))
}

/// The number a sensor file's content denotes: the content with
/// whitespace trimmed at both ends, read as an unsigned decimal number
/// that fits the sensor's integer domain.
pub open spec fn spec_sensor_value(s: Seq<char>) -> Option<int> {
    spec_parse_uint(trimmed(s), u32::MAX as int)
}

proof fn lemma_trim_front(s: Seq<char>, a: int)
    requires
        0 <= a <= s.len(),
        forall|k: int| 0 <= k < a ==> is_space(#[trigger] s[k]),
        a < s.len() ==> !is_space(s[a]),
    ensures
        trim_front(s) == s.skip(a),
    decreases a,
{
    if a == 0 {
        assert(s.skip(0) =~= s);
    } else {
        assert(is_space(s[0]));
        lemma_trim_front(s.drop_first(), a - 1);
        assert(s.drop_first().skip(a - 1) =~= s.skip(a));
    }
}

proof fn lemma_trim_back(s: Seq<char>, b: int)
    requires
        0 <= b <= s.len(),
        forall|k: int| b <= k < s.len() ==> is_space(#[trigger] s[k]),
        b > 0 ==> !is_space(s[b - 1]),
    ensures
        trim_back(s) == s.take(b),
    decreases s.len(),
{
    if b == s.len() {
        assert(s.take(b) =~= s);
    } else {
        assert(is_space(s.last()));
        lemma_trim_back(s.drop_last(), b);
        assert(s.drop_last().take(b) =~= s.take(b));
    }
}

/// Reads a sensor file's content as an unsigned integer, tolerating the
/// whitespace such pseudo-files append, exactly as `spec_sensor_value`
/// describes.
pub fn parse_sensor_value(s: &str) -> (r: Option<u32>)
    ensures
        match r {
            Some(v) => spec_sensor_value(s@) == Some(v as int),
            None => spec_sensor_value(s@) is None,
        },
{
    let n = s.unicode_len();
    let mut a: usize = 0;
    while a < n && is_space_exec(s.get_char(a))
        invariant
            0 <= a <= n,
            n == s@.len(),
            forall|k: int| 0 <= k < a ==> is_space(#[trigger] s@[k]),
        decreases n - a,
    {
        a = a + 1;
    }
    let mut b: usize = n;
    while b > a && is_space_exec(s.get_char(b - 1))
        invariant
            a <= b <= n,
            n == s@.len(),
            forall|k: int| b <= k < n ==> is_space(#[trigger] s@[k]),
        decreases b,
    {
        b = b - 1;
    }
    let ghost mid = s@.skip(a as int);
    proof {
        lemma_trim_front(s@, a as int);
        assert forall|k: int| b - a <= k < mid.len() implies is_space(#[trigger] mid[k]) by {
            assert(mid[k] == s@[a + k]);
        }
        if b > a {
            assert(mid[b - a - 1] == s@[b as int - 1]);
        }
        lemma_trim_back(mid, b - a);
        assert(mid.take(b - a) =~= s@.subrange(a as int, b as int));
    }
    match parse_uint_range(s, a, b, 0xFFFF_FFFF) {
        Some(v) => Some(v as u32),
        None => None,
    }
}

/// Whether a character is ASCII whitespace.
fn is_space_exec(c: char) -> (r: bool)
    ensures
        r == is_space(c),
{
    c == ' ' || c == '\t' || c == '\n' || c == '\r'
}

/// The character of one decimal digit.
pub open spec fn digit_char(n: int) -> char {
    if n == 0 {
        '0'
    } else if n == 1 {
        '1'
    } else if n == 2 {
        '2'
    } else if n == 3 {
        '3'
    } else if n == 4 {
        '4'
    } else if n == 5 {
        '5'
    } else if n == 6 {
        '6'
    } else if n == 7 {
        '7'
    } else if n == 8 {
        '8'
    } else {
        '9'
    }
}

/// The decimal digits of a number, most significant first, with no
/// leading zero except for the number zero itself.
pub open spec fn dec_digits(n: int) -> Seq<char>
    decreases n,
{
    if n < 10 {
        seq![digit_char(n)]
    } else {
        dec_digits(n / 10).push(digit_char(n % 10))
    }
}

fn digit_str(v: u8) -> (r: &'static str)
    requires
        v < 10,
    ensures
        r@ == seq![digit_char(v as int)],
{
    proof {
        reveal_strlit("0");
        reveal_strlit("1");
        reveal_strlit("2");
        reveal_strlit("3");
        reveal_strlit("4");
        reveal_strlit("5");
        reveal_strlit("6");
        reveal_strlit("7");
        reveal_strlit("8");
        reveal_strlit("9");
        assert("0"@ =~= seq![digit_char(0)]);
        assert("1"@ =~= seq![digit_char(1)]);
        assert("2"@ =~= seq![digit_char(2)]);
        assert("3"@ =~= seq![digit_char(3)]);
        assert("4"@ =~= seq![digit_char(4)]);
        assert("5"@ =~= seq![digit_char(5)]);
        assert("6"@ =~= seq![digit_char(6)]);
        assert("7"@ =~= seq![digit_char(7)]);
        assert("8"@ =~= seq![digit_char(8)]);
        assert("9"@ =~= seq![digit_char(9)]);
    }
    match v {
        0 => "0",
        1 => "1",
        2 => "2",
        3 => "3",
        4 => "4",
        5 => "5",
        6 => "6",
        7 => "7",
        8 => "8",
        _ => "9",
    }
}

/// Renders a duty cycle as the decimal string written to a PWM control
/// file.
pub fn format_duty(d: u8) -> (r: String)
    ensures
        r@ == dec_digits(d as int),
{
    let mut out = String::new();
    if d >= 100 {
        out.append(digit_str(d / 100));
    }
    if d >= 10 {
        out.append(digit_str(d / 10 % 10));
    }
    out.append(digit_str(d % 10));
    proof {
        if d >= 100 {
            lemma_div_denominator(d as int, 10, 10);
            assert(d as int / 10 / 10 == d as int / 100);
            assert(dec_digits(d as int / 100) =~= seq![digit_char(d as int / 100)]);
            assert(dec_digits(d as int / 10) =~= seq![
                digit_char(d as int / 100),
                digit_char(d as int / 10 % 10),
            ]);
            assert(out@ =~= dec_digits(d as int));
        } else if d >= 10 {
            assert(dec_digits(d as int / 10) =~= seq![digit_char(d as int / 10)]);
            assert(out@ =~= dec_digits(d as int));
        } else {
            assert(out@ =~= dec_digits(d as int));
        }
    }
    out
}

} // verus!
