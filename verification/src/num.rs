//! Verified decimal numerals: parsing signed integers, parsing numeric
//! item identifiers that may carry a fractional part (truncated toward
//! zero, saturating at the `i64` range), and printing integers back.

use vstd::prelude::*;
use crate::text::{count_char, split_char};

verus! {

pub open spec fn is_digit(c: char) -> bool {
    c == '0' || c == '1' || c == '2' || c == '3' || c == '4' || c == '5' || c == '6' || c == '7'
        || c == '8' || c == '9'
}

pub open spec fn digit_val(c: char) -> int {
    if c == '0' {
        0
    } else if c == '1' {
        1
    } else if c == '2' {
        2
    } else if c == '3' {
        3
    } else if c == '4' {
        4
    } else if c == '5' {
        5
    } else if c == '6' {
        6
    } else if c == '7' {
        7
    } else if c == '8' {
        8
    } else {
        9
    }
}

pub open spec fn digit_char(d: int) -> char {
    if d == 0 {
        '0'
    } else if d == 1 {
        '1'
    } else if d == 2 {
        '2'
    } else if d == 3 {
        '3'
    } else if d == 4 {
        '4'
    } else if d == 5 {
        '5'
    } else if d == 6 {
        '6'
    } else if d == 7 {
        '7'
    } else if d == 8 {
        '8'
    } else {
        '9'
    }
}

pub open spec fn all_digits(s: Seq<char>) -> bool {
    forall|i: int| 0 <= i < s.len() ==> is_digit(s[i])
}

/// The value of a digit string, most significant digit first.
pub open spec fn digits_val(s: Seq<char>) -> int
    decreases s.len(),
{
    if s.len() == 0 {
        0
    } else {
        digits_val(s.drop_last()) * 10 + digit_val(s.last())
    }
}

/// The digits of a numeral after an optional leading sign.
pub open spec fn int_body(s: Seq<char>) -> Seq<char> {
    if s.len() > 0 && (s[0] == '-' || s[0] == '+') {
        s.drop_first()
    } else {
        s
    }
}

pub open spec fn int_negative(s: Seq<char>) -> bool {
    s.len() > 0 && s[0] == '-'
}

/// An optional sign followed by one or more digits.
pub open spec fn is_int_literal(s: Seq<char>) -> bool {
    int_body(s).len() > 0 && all_digits(int_body(s))
}

pub open spec fn int_literal_val(s: Seq<char>) -> int {
    if int_negative(s) {
        -digits_val(int_body(s))
    } else {
        digits_val(int_body(s))
    }
}

/// What `i64` parsing returns: the exact value when the text is an
/// integer literal in range, nothing otherwise.
pub open spec fn parse_i64_spec(s: Seq<char>) -> Option<i64> {
    if is_int_literal(s) && i64::MIN as int <= int_literal_val(s) <= i64::MAX as int {
        Some(int_literal_val(s) as i64)
    } else {
        None
    }
}

/// An optional sign, then digits with at most one decimal point and at
/// least one digit somewhere.
pub open spec fn is_item_literal(s: Seq<char>) -> bool {
    let b = int_body(s);
    b.len() > 0 && count_char(b, '.') <= 1 && (forall|i: int|
        0 <= i < b.len() ==> is_digit(b[i]) || b[i] == '.') && b.len() - count_char(b, '.') > 0
}

/// The digits before the decimal point, if any.
pub open spec fn item_int_digits(s: Seq<char>) -> Seq<char> {
    split_char(int_body(s), '.')[0]
}

/// The numeral's value truncated toward zero.
pub open spec fn item_val(s: Seq<char>) -> int {
    if int_negative(s) {
        -digits_val(item_int_digits(s))
    } else {
        digits_val(item_int_digits(s))
    }
}

pub open spec fn clamp_i64(v: int) -> i64 {
    if v < i64::MIN as int {
        i64::MIN
    } else if v > i64::MAX as int {
        i64::MAX
    } else {
        v as i64
    }
}

/// What item-identifier parsing returns: the truncated value, saturated
/// at the `i64` range, when the text is a decimal numeral.
pub open spec fn parse_item_spec(s: Seq<char>) -> Option<i64> {
    if is_item_literal(s) {
        Some(clamp_i64(item_val(s)))
    } else {
        None
    }
}

/// The decimal digits of `n >= 0`, most significant first.
pub open spec fn dec_rep(n: int) -> Seq<char>
    decreases n,
{
    if n < 10 {
        seq![digit_char(n)]
    } else {
        dec_rep(n / 10).push(digit_char(n % 10))
    }
}

/// The canonical text of an integer: a minus sign for negatives, then
/// the decimal digits of the magnitude.
pub open spec fn i64_text(v: int) -> Seq<char> {
    if v < 0 {
        seq!['-'] + dec_rep(-v)
    } else {
        dec_rep(v)
    }
}

pub proof fn lemma_digits_val_nonneg(s: Seq<char>)
    requires
        all_digits(s),
    ensures
        digits_val(s) >= 0,
    decreases s.len(),
{
    if s.len() > 0 {
        assert(forall|i: int| 0 <= i < s.drop_last().len() ==> is_digit(#[trigger] s.drop_last()[i]));
        lemma_digits_val_nonneg(s.drop_last());
    }
}

pub proof fn lemma_digits_val_take_succ(s: Seq<char>, i: int)
    requires
        0 <= i < s.len(),
    ensures
        digits_val(s.take(i + 1)) == digits_val(s.take(i)) * 10 + digit_val(s[i]),
{
    assert(s.take(i + 1).drop_last() =~= s.take(i));
    assert(s.take(i + 1).last() == s[i]);
}

/// A digit string is worth at least any of its prefixes.
pub proof fn lemma_digits_val_mono(s: Seq<char>, k: int)
    requires
        all_digits(s),
        0 <= k <= s.len(),
    ensures
        digits_val(s.take(k)) <= digits_val(s),
    decreases s.len() - k,
{
    if k < s.len() {
        assert(forall|i: int| 0 <= i < s.take(k).len() ==> is_digit(#[trigger] s.take(k)[i]));
        lemma_digits_val_nonneg(s.take(k));
        lemma_digits_val_take_succ(s, k);
        lemma_digits_val_mono(s, k + 1);
    } else {
        assert(s.take(k) =~= s);
    }
}

/// The printed digits of `n` are digits, nonempty, and read back as `n`.
pub proof fn lemma_dec_rep_props(n: int)
    requires
        n >= 0,
    ensures
        all_digits(dec_rep(n)),
        dec_rep(n).len() >= 1,
        digits_val(dec_rep(n)) == n,
    decreases n,
{
    if n < 10 {
        assert(seq![digit_char(n)].drop_last() =~= Seq::<char>::empty());
        assert(digits_val(Seq::<char>::empty()) == 0);
        assert(digits_val(dec_rep(n)) == digits_val(Seq::<char>::empty()) * 10 + digit_val(
            digit_char(n),
        ));
    } else {
        lemma_dec_rep_props(n / 10);
        let d = digit_char(n % 10);
        assert(dec_rep(n) == dec_rep(n / 10).push(d));
        assert(dec_rep(n).drop_last() =~= dec_rep(n / 10));
        assert(digits_val(dec_rep(n)) == digits_val(dec_rep(n / 10)) * 10 + digit_val(d));
        assert(forall|i: int| 0 <= i < dec_rep(n).len() ==> is_digit(#[trigger] dec_rep(n)[i]))
            by {
            assert(forall|i: int|
                0 <= i < dec_rep(n / 10).len() ==> is_digit(#[trigger] dec_rep(n / 10)[i]));
        };
    }
}

/// Printing an `i64` and parsing the text back yields the same value.
pub proof fn lemma_parse_format_i64(x: i64)
    ensures
        parse_i64_spec(i64_text(x as int)) == Some(x),
{
    if x >= 0 {
        lemma_dec_rep_props(x as int);
        let s = i64_text(x as int);
        assert(is_digit(s[0]));
        assert(int_body(s) == s);
    } else {
        lemma_dec_rep_props(-(x as int));
        let s = i64_text(x as int);
        assert(s[0] == '-');
        assert(int_body(s) =~= dec_rep(-(x as int)));
        assert(int_negative(s));
    }
}

/// Every character of an integer's text is a digit or the minus sign.
pub proof fn lemma_i64_text_plain(v: int)
    requires
        i64::MIN as int <= v <= i64::MAX as int,
    ensures
        i64_text(v).len() >= 1,
        forall|i: int| 0 <= i < i64_text(v).len() ==> is_digit(#[trigger] i64_text(v)[i]) || i64_text(v)[i] == '-',
{
    if v >= 0 {
        lemma_dec_rep_props(v);
    } else {
        lemma_dec_rep_props(-v);
        assert(forall|i: int|
            0 <= i < i64_text(v).len() ==> is_digit(#[trigger] i64_text(v)[i]) || i64_text(v)[i]
                == '-') by {
            assert(i64_text(v)[0] == '-');
            assert(forall|i: int|
                1 <= i < i64_text(v).len() ==> is_digit(#[trigger] i64_text(v)[i]) || i64_text(
                    v,
                )[i] == '-') by {
                assert(forall|i: int|
                    0 <= i < dec_rep(-v).len() ==> is_digit(#[trigger] dec_rep(-v)[i]));
                assert(forall|i: int| 1 <= i < i64_text(v).len() ==> i64_text(v)[i] == dec_rep(
                    -v,
                )[i - 1]);
            };
        };
    }
}

/// The digit a character stands for, if it is one.
pub fn digit_of(c: char) -> (r: Option<u8>)
    ensures
        r is Some <==> is_digit(c),
        r is Some ==> r->0 == digit_val(c),
{
    match c {
        '0' => Some(0),
        '1' => Some(1),
        '2' => Some(2),
        '3' => Some(3),
        '4' => Some(4),
        '5' => Some(5),
        '6' => Some(6),
        '7' => Some(7),
        '8' => Some(8),
        '9' => Some(9),
        _ => None,
    }
}

/// The character for a single digit.
pub fn char_of_digit(d: u64) -> (c: char)
    requires
        d < 10,
    ensures
        c == digit_char(d as int),
{
    match d {
        0 => '0',
        1 => '1',
        2 => '2',
        3 => '3',
        4 => '4',
        5 => '5',
        6 => '6',
        7 => '7',
        8 => '8',
        _ => '9',
    }
}

/// Parses a signed decimal integer exactly as [`parse_i64_spec`] states.
pub fn parse_i64(s: &Vec<char>) -> (r: Option<i64>)
    ensures
        r == parse_i64_spec(s@),
{
    let start: usize = if s.len() > 0 && (s[0] == '-' || s[0] == '+') {
        1
    } else {
        0
    };
    let neg: bool = s.len() > 0 && s[0] == '-';
    let ghost body = int_body(s@);
    proof {
        assert(body =~= s@.skip(start as int));
    }
    if s.len() == start {
        return None;
    }
    let mut mag: u128 = 0;
    let mut over: bool = false;
    let mut i: usize = start;
    while i < s.len()
        invariant
            start <= i <= s@.len(),
            start <= 1,
            body == int_body(s@),
            body == s@.skip(start as int),
            body.len() == s@.len() - start,
            forall|j: int| 0 <= j < i - start ==> is_digit(#[trigger] body[j]),
            !over ==> mag == digits_val(body.take(i - start)) && mag <= 9223372036854775808u128,
            over ==> (all_digits(body) ==> digits_val(body) > 9223372036854775808),
        decreases s@.len() - i,
    {
        let ghost k = i - start;
        proof {
            assert(body[k] == s@[i as int]);
        }
        match digit_of(s[i]) {
            None => {
                proof {
                    assert(!is_digit(body[k]));
                    assert(!is_int_literal(s@));
                }
                return None;
            },
            Some(d) => {
                proof {
                    lemma_digits_val_take_succ(body, k);
                    assert(forall|j: int|
                        0 <= j < body.take(k).len() ==> is_digit(#[trigger] body.take(k)[j]));
                    lemma_digits_val_nonneg(body.take(k));
                }
                if !over {
                    let next: u128 = mag * 10 + (d as u128);
                    if next > 9223372036854775808u128 {
                        over = true;
                        proof {
                            if all_digits(body) {
                                lemma_digits_val_mono(body, k + 1);
                            }
                        }
                    } else {
                        mag = next;
                    }
                }
            },
        }
        i = i + 1;
    }
    proof {
        assert(body.take(body.len() as int) =~= body);
        assert(all_digits(body));
        assert(is_int_literal(s@));
    }
    if over {
        return None;
    }
    if neg {
        if mag == 9223372036854775808u128 {
            Some(i64::MIN)
        } else {
            Some(-((mag as u64) as i64))
        }
    } else {
        if mag >= 9223372036854775808u128 {
            None
        } else {
            Some((mag as u64) as i64)
        }
    }
}

/// The position of the first decimal point at or after `k`, or the end
/// of the text if there is none.
spec fn first_dot_from(body: Seq<char>, k: int) -> int
    decreases body.len() - k,
{
    if k < 0 || k >= body.len() {
        body.len() as int
    } else if body[k] == '.' {
        k
    } else {
        first_dot_from(body, k + 1)
    }
}

proof fn lemma_first_dot_from(body: Seq<char>, k: int)
    requires
        0 <= k <= body.len(),
    ensures
        k <= first_dot_from(body, k) <= body.len(),
        forall|j: int| k <= j < first_dot_from(body, k) ==> body[j] != '.',
        first_dot_from(body, k) < body.len() ==> body[first_dot_from(body, k)] == '.',
    decreases body.len() - k,
{
    if k < body.len() && body[k] != '.' {
        lemma_first_dot_from(body, k + 1);
    }
}

/// When every character of the numeral's body is a digit or a point and
/// no point occurs among the first `k` characters, the digits before the
/// point are all digits and are worth at least the first `k` of them.
proof fn lemma_int_digits_ge_prefix(s: Seq<char>, k: int)
    requires
        forall|j: int|
            0 <= j < int_body(s).len() ==> is_digit(#[trigger] int_body(s)[j]) || int_body(s)[j]
                == '.',
        0 <= k <= int_body(s).len(),
        forall|j: int| 0 <= j < k ==> #[trigger] int_body(s)[j] != '.',
    ensures
        all_digits(item_int_digits(s)),
        digits_val(item_int_digits(s)) >= digits_val(int_body(s).take(k)),
{
    let body = int_body(s);
    let p = first_dot_from(body, k);
    lemma_first_dot_from(body, k);
    assert(forall|j: int| 0 <= j < p ==> body[j] != '.');
    crate::text::lemma_split_char_first(body, '.', p);
    assert(item_int_digits(s) == body.take(p));
    assert(forall|j: int| 0 <= j < body.take(p).len() ==> is_digit(#[trigger] body.take(p)[j]))
        by {
        assert(forall|j: int| 0 <= j < p ==> #[trigger] body.take(p)[j] == body[j]);
    };
    lemma_digits_val_mono(body.take(p), k);
    assert(body.take(p).take(k) =~= body.take(k));
}

/// Parses a numeric item identifier exactly as [`parse_item_spec`]
/// states: an optional fractional part is discarded (truncation toward
/// zero) and out-of-range magnitudes saturate.
pub fn parse_item(s: &Vec<char>) -> (r: Option<i64>)
    ensures
        r == parse_item_spec(s@),
{
    let start: usize = if s.len() > 0 && (s[0] == '-' || s[0] == '+') {
        1
    } else {
        0
    };
    let neg: bool = s.len() > 0 && s[0] == '-';
    let ghost body = int_body(s@);
    proof {
        assert(body =~= s@.skip(start as int));
    }
    if s.len() == start {
        return None;
    }
    let mut mag: u128 = 0;
    let mut over: bool = false;
    let mut dots: usize = 0;
    let mut ndigits: usize = 0;
    let mut i: usize = start;
    while i < s.len()
        invariant
            start <= i <= s@.len(),
            start <= 1,
            body == int_body(s@),
            body == s@.skip(start as int),
            body.len() == s@.len() - start,
            forall|j: int| 0 <= j < i - start ==> is_digit(#[trigger] body[j]) || body[j] == '.',
            dots == count_char(body.take(i - start), '.'),
            dots <= 1,
            ndigits == i - start - dots,
            mag <= 9223372036854775808u128,
            !over && dots == 0 ==> mag == digits_val(body.take(i - start)),
            !over && dots > 0 ==> mag == digits_val(item_int_digits(s@)),
            over ==> ((forall|j: int|
                0 <= j < body.len() ==> is_digit(#[trigger] body[j]) || body[j] == '.')
                ==> digits_val(item_int_digits(s@)) > 9223372036854775807),
        decreases s@.len() - i,
    {
        let ghost k = i - start;
        proof {
            assert(body[k] == s@[i as int]);
            assert(body.take(k + 1) =~= body.take(k).push(body[k]));
            crate::text::lemma_count_char_push(body.take(k), body[k], '.');
        }
        let c = s[i];
        if c == '.' {
            if dots > 0 {
                proof {
                    assert(count_char(body.take(k + 1), '.') == 2);
                    assert(body =~= body.take(k + 1) + body.skip(k + 1));
                    crate::text::lemma_count_char_append(body.take(k + 1), body.skip(k + 1), '.');
                    crate::text::lemma_count_char_nonneg(body.skip(k + 1), '.');
                    assert(count_char(body, '.') >= 2);
                    assert(!is_item_literal(s@));
                }
                return None;
            }
            proof {
                crate::text::lemma_count_char_zero(body.take(k), '.');
                if !over {
                    assert(forall|j: int| 0 <= j < k ==> #[trigger] body[j] != '.') by {
                        assert(forall|j: int| 0 <= j < k ==> body.take(k)[j] == body[j]);
                    };
                    crate::text::lemma_split_char_first(body, '.', k);
                    assert(item_int_digits(s@) == body.take(k));
                }
            }
            dots = 1;
        } else {
            match digit_of(c) {
                None => {
                    proof {
                        assert(!(is_digit(body[k]) || body[k] == '.'));
                        assert(!is_item_literal(s@));
                    }
                    return None;
                },
                Some(d) => {
                    ndigits = ndigits + 1;
                    if dots == 0 && !over {
                        proof {
                            crate::text::lemma_count_char_zero(body.take(k), '.');
                            assert(forall|j: int|
                                0 <= j < k ==> #[trigger] body.take(k)[j] == body[j]);
                            assert(forall|j: int|
                                0 <= j < body.take(k).len() ==> is_digit(
                                    #[trigger] body.take(k)[j],
                                ));
                            lemma_digits_val_nonneg(body.take(k));
                            lemma_digits_val_take_succ(body, k);
                        }
                        let next: u128 = mag * 10 + (d as u128);
                        if next > 9223372036854775808u128 {
                            over = true;
                            proof {
                                crate::text::lemma_count_char_zero(body.take(k + 1), '.');
                                assert(forall|j: int| 0 <= j < k + 1 ==> #[trigger] body[j] != '.')
                                    by {
                                    assert(forall|j: int|
                                        0 <= j < k + 1 ==> body.take(k + 1)[j] == body[j]);
                                };
                                if forall|j: int|
                                    0 <= j < body.len() ==> is_digit(#[trigger] body[j]) || body[j]
                                        == '.' {
                                    lemma_int_digits_ge_prefix(s@, k + 1);
                                }
                            }
                        } else {
                            mag = next;
                        }
                    }
                },
            }
        }
        i = i + 1;
    }
    proof {
        assert(body.take(body.len() as int) =~= body);
    }
    if ndigits == 0 {
        proof {
            assert(body.len() - count_char(body, '.') == 0);
            assert(!is_item_literal(s@));
        }
        return None;
    }
    proof {
        assert(is_item_literal(s@));
        if !over && dots == 0 {
            crate::text::lemma_count_char_zero(body, '.');
            lemma_int_digits_ge_prefix(s@, body.len() as int);
            crate::text::lemma_split_char_first(body, '.', body.len() as int);
            assert(item_int_digits(s@) == body.take(body.len() as int));
            assert(mag == digits_val(item_int_digits(s@)));
        }
        if !over {
            lemma_int_digits_ge_prefix(s@, 0);
            lemma_digits_val_nonneg(item_int_digits(s@));
        }
    }
    let out: i64 = if neg {
        if over || mag >= 9223372036854775808u128 {
            i64::MIN
        } else {
            -((mag as u64) as i64)
        }
    } else {
        if over || mag > 9223372036854775807u128 {
            i64::MAX
        } else {
            (mag as u64) as i64
        }
    };
    Some(out)
}

/// The characters of `v`, in reverse order.
pub fn reverse_chars(v: &Vec<char>) -> (r: Vec<char>)
    ensures
        r@ == v@.reverse(),
{
    let n = v.len();
    let mut r: Vec<char> = Vec::new();
    let mut j: usize = 0;
    while j < n
        invariant
            n == v@.len(),
            j <= n,
            r@.len() == j,
            forall|t: int| 0 <= t < j ==> r@[t] == v@[n - 1 - t],
        decreases n - j,
    {
        r.push(v[n - 1 - j]);
        j = j + 1;
    }
    proof {
        assert(r@ =~= v@.reverse());
    }
    r
}

/// The decimal digits of `x`, exactly as [`dec_rep`] states.
pub fn format_u64(x: u64) -> (r: Vec<char>)
    ensures
        r@ == dec_rep(x as int),
{
    if x == 0 {
        let mut r: Vec<char> = Vec::new();
        r.push('0');
        proof {
            assert(r@ =~= dec_rep(0));
        }
        return r;
    }
    let mut rev: Vec<char> = Vec::new();
    let mut n: u64 = x;
    while n > 0
        invariant
            n > 0 ==> dec_rep(x as int) == dec_rep(n as int) + rev@.reverse(),
            n == 0 ==> dec_rep(x as int) == rev@.reverse(),
        decreases n,
    {
        let d = char_of_digit(n % 10);
        let ghost old_rev = rev@;
        rev.push(d);
        proof {
            assert(rev@.reverse() =~= seq![d] + old_rev.reverse());
            if n >= 10 {
                assert(dec_rep(n as int) == dec_rep(n as int / 10).push(digit_char(n as int % 10)));
                assert(dec_rep(n as int / 10) + rev@.reverse() =~= dec_rep(n as int)
                    + old_rev.reverse());
            } else {
                assert(dec_rep(n as int) =~= seq![d]);
                assert(rev@.reverse() =~= dec_rep(n as int) + old_rev.reverse());
            }
        }
        n = n / 10;
    }
    reverse_chars(&rev)
}

/// The canonical text of `x`, exactly as [`i64_text`] states.
pub fn format_i64(x: i64) -> (r: Vec<char>)
    ensures
        r@ == i64_text(x as int),
{
    if x >= 0 {
        format_u64(x as u64)
    } else {
        let mag: u64 = (-(x as i128)) as u64;
        proof {
            assert(mag as int == -(x as int));
        }
        let digits = format_u64(mag);
        let mut r: Vec<char> = Vec::new();
        r.push('-');
        let mut j: usize = 0;
        while j < digits.len()
            invariant
                j <= digits@.len(),
                digits@ == dec_rep(mag as int),
                r@ == seq!['-'] + digits@.take(j as int),
            decreases digits@.len() - j,
        {
            r.push(digits[j]);
            proof {
                assert(seq!['-'] + digits@.take(j + 1) =~= (seq!['-'] + digits@.take(
                    j as int,
                )).push(digits@[j as int]));
            }
            j = j + 1;
        }
        proof {
            assert(digits@.take(digits@.len() as int) =~= digits@);
            assert(r@ =~= i64_text(x as int));
        }
        r
    }
}

} // verus!
