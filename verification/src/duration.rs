//! Duration codec: a compound-unit textual grammar for durations and its
//! microsecond-count interpretation.
//!
//! The grammar accepts one or more terms, each a run of decimal digits
//! followed by a unit: `w` (weeks), `d` (days), `h` (hours), `m` (minutes),
//! `s` (seconds), `ms` (milliseconds), `us` (microseconds), with maximal
//! munch for the two-character units. The value of a string is the sum of
//! its terms, each converted to microseconds. `decode` maps a string to
//! that value; `encode` maps a microsecond count to a canonical string of
//! the same grammar.

use vstd::prelude::*;

verus! {

pub const MICROS_PER_MILLI: u64 = 1_000;

pub const MICROS_PER_SECOND: u64 = 1_000_000;

pub const MICROS_PER_MINUTE: u64 = 60_000_000;

pub const MICROS_PER_HOUR: u64 = 3_600_000_000;

pub const MICROS_PER_DAY: u64 = 86_400_000_000;

pub const MICROS_PER_WEEK: u64 = 604_800_000_000;

/// An ASCII decimal digit.
pub open spec fn is_digit_char(c: char) -> bool {
    48 <= c as int && c as int <= 57
}

/// Numeric value of one decimal digit.
pub open spec fn digit_val(c: char) -> nat {
    (c as int - 48) as nat
}

/// Length of the run of decimal digits of `s` that starts at index `i`.
pub open spec fn digits_len_from(s: Seq<char>, i: int) -> int
    decreases s.len() - i,
{
    if 0 <= i && i < s.len() && is_digit_char(s[i]) {
        1 + digits_len_from(s, i + 1)
    } else {
        0
    }
}

/// Value of a string of decimal digits read most-significant first.
pub open spec fn num_value(s: Seq<char>) -> nat
    decreases s.len(),
{
    if s.len() == 0 {
        0
    } else {
        num_value(s.drop_last()) * 10 + digit_val(s.last())
    }
}

/// The unit token of `s` at index `i`, if any: its length in characters
/// and its weight in microseconds. Two-character units take precedence,
/// so `ms` starting at `i` is milliseconds, never minutes-then-something.
pub open spec fn unit_from(s: Seq<char>, i: int) -> Option<(int, u64)> {
    if 0 <= i && i + 2 <= s.len() && s[i] == 'm' && s[i + 1] == 's' {
        Some((2, MICROS_PER_MILLI))
    } else if 0 <= i && i + 2 <= s.len() && s[i] == 'u' && s[i + 1] == 's' {
        Some((2, 1u64))
    } else if 0 <= i && i < s.len() && s[i] == 'w' {
        Some((1, MICROS_PER_WEEK))
    } else if 0 <= i && i < s.len() && s[i] == 'd' {
        Some((1, MICROS_PER_DAY))
    } else if 0 <= i && i < s.len() && s[i] == 'h' {
        Some((1, MICROS_PER_HOUR))
    } else if 0 <= i && i < s.len() && s[i] == 'm' {
        Some((1, MICROS_PER_MINUTE))
    } else if 0 <= i && i < s.len() && s[i] == 's' {
        Some((1, MICROS_PER_SECOND))
    } else {
        None
    }
}

/// The digit run starting at `i` stays inside `s`.
pub proof fn lemma_digits_len_from_bounds(s: Seq<char>, i: int)
    requires
        0 <= i <= s.len(),
    ensures
        0 <= digits_len_from(s, i),
        i + digits_len_from(s, i) <= s.len(),
    decreases s.len() - i,
{
    if i < s.len() && is_digit_char(s[i]) {
        lemma_digits_len_from_bounds(s, i + 1);
    }
}

/// Microsecond value of the suffix of `s` that starts at `i`, when that
/// suffix is a (possibly empty) sequence of terms: for each term, the
/// digits' value times the unit's weight, summed over the terms.
pub open spec fn parse_from(s: Seq<char>, i: int) -> Option<nat>
    decreases s.len() - i,
    via parse_from_decreases
{
    if !(0 <= i && i <= s.len()) {
        None
    } else if i == s.len() {
        Some(0)
    } else {
        let d = digits_len_from(s, i);
        if d == 0 {
            None
        } else {
            match unit_from(s, i + d) {
                Option::None => None,
                Option::Some(u) => match parse_from(s, i + d + u.0) {
                    Option::None => None,
                    Option::Some(rest) => Some(
                        num_value(s.subrange(i, i + d)) * (u.1 as nat) + rest,
                    ),
                },
            }
        }
    }
}

#[via_fn]
proof fn parse_from_decreases(s: Seq<char>, i: int) {
    if 0 <= i && i < s.len() {
        lemma_digits_len_from_bounds(s, i);
    }
}

/// Microsecond value of a whole duration string: at least one term is
/// required, so the empty string has no value.
pub open spec fn duration_micros(s: Seq<char>) -> Option<nat> {
    if s.len() == 0 {
        None
    } else {
        parse_from(s, 0)
    }
}

/// A string accepted by the grammar whose value is representable as a
/// non-negative microsecond count of the interval type.
pub open spec fn decodes_to(s: Seq<char>, v: i64) -> bool {
    &&& duration_micros(s) == Some(v as nat)
    &&& 0 <= v
}

/// A run of digits over `[i, j)` that ends at `j` is exactly what
/// `digits_len_from` measures.
proof fn lemma_digits_run(s: Seq<char>, i: int, j: int)
    requires
        0 <= i <= j <= s.len(),
        forall|k: int| i <= k < j ==> is_digit_char(s[k]),
        j == s.len() || !is_digit_char(s[j]),
    ensures
        digits_len_from(s, i) == j - i,
    decreases j - i,
{
    if i < j {
        lemma_digits_run(s, i + 1, j);
    }
}

/// Reading one more digit multiplies the value by ten and adds the digit.
proof fn lemma_num_value_snoc(s: Seq<char>, i: int, k: int)
    requires
        0 <= i <= k < s.len(),
    ensures
        num_value(s.subrange(i, k + 1)) == num_value(s.subrange(i, k)) * 10 + digit_val(s[k]),
{
    let t = s.subrange(i, k + 1);
    assert(t.drop_last() =~= s.subrange(i, k));
    assert(t.last() == s[k]);
}

/// The value of a digit string never shrinks as the string is extended.
proof fn lemma_num_value_prefix_le(s: Seq<char>, i: int, k: int, j: int)
    requires
        0 <= i <= k <= j <= s.len(),
    ensures
        num_value(s.subrange(i, k)) <= num_value(s.subrange(i, j)),
    decreases j - k,
{
    if k < j {
        lemma_num_value_prefix_le(s, i, k, j - 1);
        lemma_num_value_snoc(s, i, j - 1);
    }
}

/// Rejected duration text: not in the grammar, or its value does not fit
/// the microsecond interval representation.
#[derive(Debug)]
pub struct MalformedDurationError {
    pub message: String,
}

/// Whether the character of `s` at `i` is a decimal digit.
fn is_digit_at(s: &str, i: usize) -> (r: bool)
    requires
        i < s@.len(),
    ensures
        r == is_digit_char(s@[i as int]),
{
    let u = s.get_char(i) as u32;
    48 <= u && u <= 57
}

/// `decode` turns duration text into its microsecond count. It succeeds
/// exactly on the strings of the grammar whose value fits the interval
/// type, and then returns precisely the sum of the terms in microseconds.
pub fn decode(s: &str) -> (r: Result<i64, MalformedDurationError>)
    ensures
        match r {
            Ok(v) => decodes_to(s@, v),
            Err(_) => !(duration_micros(s@) matches Some(n) && n <= i64::MAX),
        },
{
    let ghost sq = s@;
    let n = s.unicode_len();
    if n == 0 {
        return Err(MalformedDurationError { message: String::from_str("empty duration") });
    }
    let mut i: usize = 0;
    let mut acc: u64 = 0;
    while i < n
        invariant
            0 <= i <= n,
            n == sq.len(),
            sq == s@,
            acc <= i64::MAX as u64,
            n > 0,
            parse_from(sq, 0) == match parse_from(sq, i as int) {
                Option::None => Option::<nat>::None,
                Option::Some(v) => Option::Some((acc + v) as nat),
            },
        decreases n - i,
    {
        let ghost i0 = i as int;
        // Scan the digit run that must start the next term.
        let mut j: usize = i;
        while j < n && is_digit_at(s, j)
            invariant
                i <= j <= n,
                n == sq.len(),
                sq == s@,
                forall|k: int| i0 <= k < j ==> is_digit_char(sq[k]),
            decreases n - j,
        {
            j += 1;
        }
        proof {
            lemma_digits_run(sq, i0, j as int);
        }
        if j == i {
            // No digits where a term must start.
            assert(parse_from(sq, i0) is None);
            return Err(
                MalformedDurationError { message: String::from_str("expected a number") },
            );
        }
        // Value of the digit run, with saturation noted once it cannot fit.
        let mut val: u128 = 0;
        let mut too_big = false;
        let mut k: usize = i;
        while k < j
            invariant
                i <= k <= j <= n,
                n == sq.len(),
                sq == s@,
                forall|m: int| i0 <= m < j ==> is_digit_char(sq[m]),
                i0 == i as int,
                !too_big ==> val == num_value(sq.subrange(i0, k as int)) && val <= i64::MAX as u128,
                too_big ==> num_value(sq.subrange(i0, j as int)) > i64::MAX,
            decreases j - k,
        {
            if !too_big {
                let c = s.get_char(k);
                let d: u32 = c as u32 - 48;
                let nv: u128 = val * 10 + d as u128;
                proof {
                    lemma_num_value_snoc(sq, i0, k as int);
                }
                if nv > i64::MAX as u128 {
                    too_big = true;
                    proof {
                        lemma_num_value_prefix_le(sq, i0, k as int + 1, j as int);
                    }
                } else {
                    val = nv;
                }
            }
            k += 1;
        }
        let ghost num = num_value(sq.subrange(i0, j as int));
        // The unit token that must follow the digits.
        if j == n {
            assert(unit_from(sq, j as int) is None);
            assert(parse_from(sq, i0) is None);
            return Err(MalformedDurationError { message: String::from_str("expected a unit") });
        }
        let c1 = s.get_char(j);
        let two = j + 1 < n && s.get_char(j + 1) == 's';
        let ul: usize;
        let mult: u64;
        if c1 == 'm' && two {
            ul = 2;
            mult = MICROS_PER_MILLI;
        } else if c1 == 'u' && two {
            ul = 2;
            mult = 1;
        } else if c1 == 'w' {
            ul = 1;
            mult = MICROS_PER_WEEK;
        } else if c1 == 'd' {
            ul = 1;
            mult = MICROS_PER_DAY;
        } else if c1 == 'h' {
            ul = 1;
            mult = MICROS_PER_HOUR;
        } else if c1 == 'm' {
            ul = 1;
            mult = MICROS_PER_MINUTE;
        } else if c1 == 's' {
            ul = 1;
            mult = MICROS_PER_SECOND;
        } else {
            assert(unit_from(sq, j as int) is None);
            assert(parse_from(sq, i0) is None);
            return Err(MalformedDurationError { message: String::from_str("unknown unit") });
        }
        assert(unit_from(sq, j as int) == Some((ul as int, mult)));
        // One unfolding of the grammar at the start of this term.
        assert(parse_from(sq, i0) == match parse_from(sq, j + ul) {
            Option::None => Option::<nat>::None,
            Option::Some(rest) => Option::Some((num * mult as nat + rest) as nat),
        });
        if too_big {
            // The number alone exceeds what the interval type can hold.
            proof {
                if parse_from(sq, i0) is Some {
                    let rest = parse_from(sq, (j + ul) as int).unwrap();
                    assert(num * mult as nat >= num * 1) by (nonlinear_arith)
                        requires mult >= 1
                    ;
                }
            }
            return Err(MalformedDurationError { message: String::from_str("duration too large") });
        }
        proof {
            assert(val * (mult as u128) <= (i64::MAX as u128) * (MICROS_PER_WEEK as u128))
                by (nonlinear_arith)
                requires
                    val <= i64::MAX as u128,
                    mult as u128 <= MICROS_PER_WEEK as u128,
            ;
        }
        let term: u128 = val * mult as u128;
        let nacc: u128 = acc as u128 + term;
        if nacc > i64::MAX as u128 {
            // The running sum exceeds what the interval type can hold.
            return Err(MalformedDurationError { message: String::from_str("duration too large") });
        }
        acc = nacc as u64;
        i = j + ul;
    }
    assert(parse_from(sq, i as int) == Some(0nat));
    Ok(acc as i64)
}

/// The decimal digit character for a value below ten.
pub open spec fn digit_char(d: nat) -> char {
    if d == 0 {
        '0'
    } else if d == 1 {
        '1'
    } else if d == 2 {
        '2'
    } else if d == 3 {
        '3'
    } else if d == 4 {
        '4'
    } else if d == 5 {
        '5'
    } else if d == 6 {
        '6'
    } else if d == 7 {
        '7'
    } else if d == 8 {
        '8'
    } else {
        '9'
    }
}

/// The decimal digit string of `n`, most significant digit first, with
/// no leading zero except for `n == 0` itself.
pub open spec fn dec_digits(n: nat) -> Seq<char>
    decreases n,
{
    if n < 10 {
        seq![digit_char(n)]
    } else {
        dec_digits(n / 10).push(digit_char(n % 10))
    }
}

/// One term of the canonical text: the digits of `n` followed by the
/// unit, or nothing at all when `n` is zero.
pub open spec fn component(n: nat, unit: Seq<char>) -> Seq<char> {
    if n == 0 {
        Seq::empty()
    } else {
        dec_digits(n) + unit
    }
}

/// The canonical text of a microsecond count: its greedy decomposition
/// into weeks, days, hours, minutes, seconds, milliseconds and
/// microseconds, largest unit first, zero terms omitted; `0s` for zero.
pub open spec fn encode_spec(v: nat) -> Seq<char> {
    if v == 0 {
        seq!['0', 's']
    } else {
        let r1 = v % (MICROS_PER_WEEK as nat);
        let r2 = r1 % (MICROS_PER_DAY as nat);
        let r3 = r2 % (MICROS_PER_HOUR as nat);
        let r4 = r3 % (MICROS_PER_MINUTE as nat);
        let r5 = r4 % (MICROS_PER_SECOND as nat);
        component(v / (MICROS_PER_WEEK as nat), seq!['w']) + component(
            r1 / (MICROS_PER_DAY as nat),
            seq!['d'],
        ) + component(r2 / (MICROS_PER_HOUR as nat), seq!['h']) + component(
            r3 / (MICROS_PER_MINUTE as nat),
            seq!['m'],
        ) + component(r4 / (MICROS_PER_SECOND as nat), seq!['s']) + component(
            r5 / (MICROS_PER_MILLI as nat),
            seq!['m', 's'],
        ) + component(r5 % (MICROS_PER_MILLI as nat), seq!['u', 's'])
    }
}

/// Append one decimal digit character to `out`.
fn push_digit(out: &mut String, d: u64)
    requires
        d < 10,
    ensures
        final(out)@ == old(out)@ + seq![digit_char(d as nat)],
{
    if d == 0 {
        proof {
            reveal_strlit("0");
            assert("0"@ =~= seq!['0']);
        }
        out.append("0");
    } else if d == 1 {
        proof {
            reveal_strlit("1");
            assert("1"@ =~= seq!['1']);
        }
        out.append("1");
    } else if d == 2 {
        proof {
            reveal_strlit("2");
            assert("2"@ =~= seq!['2']);
        }
        out.append("2");
    } else if d == 3 {
        proof {
            reveal_strlit("3");
            assert("3"@ =~= seq!['3']);
        }
        out.append("3");
    } else if d == 4 {
        proof {
            reveal_strlit("4");
            assert("4"@ =~= seq!['4']);
        }
        out.append("4");
    } else if d == 5 {
        proof {
            reveal_strlit("5");
            assert("5"@ =~= seq!['5']);
        }
        out.append("5");
    } else if d == 6 {
        proof {
            reveal_strlit("6");
            assert("6"@ =~= seq!['6']);
        }
        out.append("6");
    } else if d == 7 {
        proof {
            reveal_strlit("7");
            assert("7"@ =~= seq!['7']);
        }
        out.append("7");
    } else if d == 8 {
        proof {
            reveal_strlit("8");
            assert("8"@ =~= seq!['8']);
        }
        out.append("8");
    } else {
        proof {
            reveal_strlit("9");
            assert("9"@ =~= seq!['9']);
        }
        out.append("9");
    }
}

/// Append the decimal digit string of `n` to `out`.
fn push_decimal(out: &mut String, n: u64)
    ensures
        final(out)@ == old(out)@ + dec_digits(n as nat),
    decreases n,
{
    if n < 10 {
        push_digit(out, n);
    } else {
        push_decimal(out, n / 10);
        push_digit(out, n % 10);
        proof {
            assert(dec_digits(n as nat) =~= dec_digits(n as nat / 10) + seq![
                digit_char(n as nat % 10),
            ]);
            assert(out@ =~= old(out)@ + dec_digits(n as nat));
        }
    }
}

/// Append one term of the canonical text to `out`.
fn push_component(out: &mut String, n: u64, unit: &str)
    ensures
        final(out)@ == old(out)@ + component(n as nat, unit@),
{
    if n > 0 {
        push_decimal(out, n);
        out.append(unit);
        proof {
            assert(out@ =~= old(out)@ + component(n as nat, unit@));
        }
    } else {
        proof {
            assert(out@ =~= old(out)@ + component(n as nat, unit@));
        }
    }
}

/// `encode` renders a microsecond count as canonical duration text. The
/// result is a function of the count alone: equal counts always yield
/// the same text.
pub fn encode(us: i64) -> (r: String)
    requires
        0 <= us,
    ensures
        r@ == encode_spec(us as nat),
{
    let v: u64 = us as u64;
    if v == 0 {
        proof {
            reveal_strlit("0s");
            assert("0s"@ =~= seq!['0', 's']);
        }
        return String::from_str("0s");
    }
    let mut out = String::new();
    let r1 = v % MICROS_PER_WEEK;
    let r2 = r1 % MICROS_PER_DAY;
    let r3 = r2 % MICROS_PER_HOUR;
    let r4 = r3 % MICROS_PER_MINUTE;
    let r5 = r4 % MICROS_PER_SECOND;
    proof {
        reveal_strlit("w");
        reveal_strlit("d");
        reveal_strlit("h");
        reveal_strlit("m");
        reveal_strlit("s");
        reveal_strlit("ms");
        reveal_strlit("us");
        assert("w"@ =~= seq!['w']);
        assert("d"@ =~= seq!['d']);
        assert("h"@ =~= seq!['h']);
        assert("m"@ =~= seq!['m']);
        assert("s"@ =~= seq!['s']);
        assert("ms"@ =~= seq!['m', 's']);
        assert("us"@ =~= seq!['u', 's']);
    }
    push_component(&mut out, v / MICROS_PER_WEEK, "w");
    push_component(&mut out, r1 / MICROS_PER_DAY, "d");
    push_component(&mut out, r2 / MICROS_PER_HOUR, "h");
    push_component(&mut out, r3 / MICROS_PER_MINUTE, "m");
    push_component(&mut out, r4 / MICROS_PER_SECOND, "s");
    push_component(&mut out, r5 / MICROS_PER_MILLI, "ms");
    push_component(&mut out, r5 % MICROS_PER_MILLI, "us");
    proof {
        assert(out@ =~= encode_spec(us as nat));
    }
    out
}

/// Every character of `dec_digits(n)` is a decimal digit, and there is
/// at least one.
proof fn lemma_dec_digits_all_digits(n: nat)
    ensures
        dec_digits(n).len() >= 1,
        forall|k: int| 0 <= k < dec_digits(n).len() ==> is_digit_char(dec_digits(n)[k]),
    decreases n,
{
    if n >= 10 {
        lemma_dec_digits_all_digits(n / 10);
    }
}

/// Reading a digit character back gives the digit.
proof fn lemma_digit_char_val(d: nat)
    requires
        d < 10,
    ensures
        is_digit_char(digit_char(d)),
        digit_val(digit_char(d)) == d,
{
}

/// The decimal digit string of `n` reads back as `n`.
proof fn lemma_dec_digits_value(n: nat)
    ensures
        num_value(dec_digits(n)) == n,
    decreases n,
{
    if n < 10 {
        lemma_digit_char_val(n);
        let t = dec_digits(n);
        assert(t.drop_last() =~= Seq::<char>::empty());
        assert(t.last() == digit_char(n));
        assert(num_value(t) == num_value(t.drop_last()) * 10 + digit_val(t.last()));
        assert(num_value(t) == n);
    } else {
        lemma_dec_digits_value(n / 10);
        lemma_digit_char_val(n % 10);
        let t = dec_digits(n);
        assert(t.drop_last() =~= dec_digits(n / 10));
        assert(num_value(t) == (n / 10) * 10 + digit_val(digit_char(n % 10)));
        vstd::arithmetic::div_mod::lemma_fundamental_div_mod(n as int, 10);
    }
}

/// A digit run looks the same from inside `s` and from the suffix of `s`
/// cut at `i`.
proof fn lemma_digits_len_align(s: Seq<char>, i: int, k: int)
    requires
        0 <= i <= s.len(),
        0 <= k <= s.len() - i,
    ensures
        digits_len_from(s, i + k) == digits_len_from(s.subrange(i, s.len() as int), k),
    decreases s.len() - i - k,
{
    if i + k < s.len() && is_digit_char(s[i + k]) {
        lemma_digits_len_align(s, i, k + 1);
    }
}

/// The grammar's value at index `i` of `s` is the value of the suffix of
/// `s` that starts at `i`, read from its own start.
proof fn lemma_parse_shift(s: Seq<char>, i: int)
    requires
        0 <= i <= s.len(),
    ensures
        parse_from(s, i) == parse_from(s.subrange(i, s.len() as int), 0),
    decreases s.len() - i,
{
    let t = s.subrange(i, s.len() as int);
    if i == s.len() {
        assert(t.len() == 0);
    } else {
        lemma_digits_len_align(s, i, 0);
        lemma_digits_len_from_bounds(s, i);
        let d = digits_len_from(s, i);
        if d != 0 {
            // The unit token, if any, is made of the same characters.
            if i + d < s.len() {
                assert(t[d] == s[i + d]);
            }
            if i + d + 1 < s.len() {
                assert(t[d + 1] == s[i + d + 1]);
            }
            assert(unit_from(s, i + d) == unit_from(t, d));
            match unit_from(s, i + d) {
                Option::None => {},
                Option::Some(u) => {
                    lemma_parse_shift(s, i + d + u.0);
                    lemma_parse_shift(t, d + u.0);
                    assert(t.subrange(d + u.0, t.len() as int) =~= s.subrange(
                        i + d + u.0,
                        s.len() as int,
                    ));
                    assert(t.subrange(0, d) =~= s.subrange(i, i + d));
                },
            }
        }
    }
}

/// A unit token of the grammar: its text and its weight in microseconds.
pub open spec fn unit_token(unit: Seq<char>, mult: u64) -> bool {
    ||| unit == seq!['w'] && mult == MICROS_PER_WEEK
    ||| unit == seq!['d'] && mult == MICROS_PER_DAY
    ||| unit == seq!['h'] && mult == MICROS_PER_HOUR
    ||| unit == seq!['m'] && mult == MICROS_PER_MINUTE
    ||| unit == seq!['s'] && mult == MICROS_PER_SECOND
    ||| unit == seq!['m', 's'] && mult == MICROS_PER_MILLI
    ||| unit == seq!['u', 's'] && mult == 1
}

/// One term of the grammar, followed by more text that starts with a
/// digit or is empty, parses as that term plus the rest.
proof fn lemma_parse_term(digits: Seq<char>, unit: Seq<char>, mult: u64, rest: Seq<char>)
    requires
        digits.len() >= 1,
        forall|k: int| 0 <= k < digits.len() ==> is_digit_char(digits[k]),
        unit_token(unit, mult),
        rest.len() == 0 || is_digit_char(rest[0]),
    ensures
        parse_from(digits + unit + rest, 0) == match parse_from(rest, 0) {
            Option::None => Option::<nat>::None,
            Option::Some(r) => Option::Some((num_value(digits) * mult + r) as nat),
        },
{
    let s = digits + unit + rest;
    let ld = digits.len() as int;
    let lu = unit.len() as int;
    assert(forall|k: int| 0 <= k < ld ==> s[k] == digits[k]);
    assert(s[ld] == unit[0]);
    assert(!is_digit_char(unit[0]));
    lemma_digits_run(s, 0, ld);
    // The unit token is found right after the digits.
    if lu == 2 {
        assert(s[ld + 1] == unit[1]);
    }
    if ld + lu < s.len() {
        assert(s[ld + lu] == rest[0]);
    }
    assert(unit_from(s, ld) == Some((lu, mult)));
    lemma_parse_shift(s, ld + lu);
    assert(s.subrange(ld + lu, s.len() as int) =~= rest);
    assert(s.subrange(0, ld) =~= digits);
}

/// Canonical text always decodes, and decodes to the count it encodes:
/// for every microsecond count `v`, `duration_micros(encode_spec(v))` is
/// exactly `v`. Together with the contracts of `encode` and `decode`,
/// decoding an encoded interval gives back the stored count.
/// The canonical components of `v`, assembled right-associated.
spec fn enc_cat(n1: nat, n2: nat, n3: nat, n4: nat, n5: nat, n6: nat, n7: nat) -> Seq<char> {
    component(n1, seq!['w']) + (component(n2, seq!['d']) + (component(n3, seq!['h']) + (component(
        n4,
        seq!['m'],
    ) + (component(n5, seq!['s']) + (component(n6, seq!['m', 's']) + (component(n7, seq!['u', 's'])
        + Seq::<char>::empty()))))))
}

/// The microsecond count of components with those coefficients.
spec fn enc_sum(n1: nat, n2: nat, n3: nat, n4: nat, n5: nat, n6: nat, n7: nat) -> nat {
    (n1 * (MICROS_PER_WEEK as nat) + n2 * (MICROS_PER_DAY as nat) + n3 * (MICROS_PER_HOUR as nat)
        + n4 * (MICROS_PER_MINUTE as nat) + n5 * (MICROS_PER_SECOND as nat) + n6 * (
    MICROS_PER_MILLI as nat) + n7) as nat
}

/// Assembled components parse back to the sum they stand for.
proof fn lemma_components_parse(n1: nat, n2: nat, n3: nat, n4: nat, n5: nat, n6: nat, n7: nat)
    ensures
        parse_from(enc_cat(n1, n2, n3, n4, n5, n6, n7), 0) == Some(
            enc_sum(n1, n2, n3, n4, n5, n6, n7),
        ),
{
    let ms = MICROS_PER_MILLI as nat;
    let sec = MICROS_PER_SECOND as nat;
    let m = MICROS_PER_MINUTE as nat;
    let h = MICROS_PER_HOUR as nat;
    let dd = MICROS_PER_DAY as nat;
    let w = MICROS_PER_WEEK as nat;
    let t7 = Seq::<char>::empty();
    let t6 = component(n7, seq!['u', 's']) + t7;
    let t5 = component(n6, seq!['m', 's']) + t6;
    let t4 = component(n5, seq!['s']) + t5;
    let t3 = component(n4, seq!['m']) + t4;
    let t2 = component(n3, seq!['h']) + t3;
    let t1 = component(n2, seq!['d']) + t2;
    let t0 = component(n1, seq!['w']) + t1;
    assert(parse_from(t7, 0) == Some(0nat));
    lemma_component_parse(n7, seq!['u', 's'], 1, t7, 0);
    let s6 = (n7 * 1 + 0) as nat;
    lemma_component_parse(n6, seq!['m', 's'], MICROS_PER_MILLI, t6, s6);
    let s5 = (n6 * ms + s6) as nat;
    lemma_component_parse(n5, seq!['s'], MICROS_PER_SECOND, t5, s5);
    let s4 = (n5 * sec + s5) as nat;
    lemma_component_parse(n4, seq!['m'], MICROS_PER_MINUTE, t4, s4);
    let s3 = (n4 * m + s4) as nat;
    lemma_component_parse(n3, seq!['h'], MICROS_PER_HOUR, t3, s3);
    let s2 = (n3 * h + s3) as nat;
    lemma_component_parse(n2, seq!['d'], MICROS_PER_DAY, t2, s2);
    let s1 = (n2 * dd + s2) as nat;
    lemma_component_parse(n1, seq!['w'], MICROS_PER_WEEK, t1, s1);
    let s0 = (n1 * w + s1) as nat;
    assert(parse_from(t0, 0) == Some(s0));
    assert(s0 == enc_sum(n1, n2, n3, n4, n5, n6, n7));
}

/// For a positive count the canonical text is the assembly of its greedy
/// components.
proof fn lemma_encode_spec_cat(v: nat)
    requires
        v > 0,
    ensures
        encode_spec(v) == enc_cat(
            v / (MICROS_PER_WEEK as nat),
            v % (MICROS_PER_WEEK as nat) / (MICROS_PER_DAY as nat),
            v % (MICROS_PER_WEEK as nat) % (MICROS_PER_DAY as nat) / (MICROS_PER_HOUR as nat),
            v % (MICROS_PER_WEEK as nat) % (MICROS_PER_DAY as nat) % (MICROS_PER_HOUR as nat) / (
            MICROS_PER_MINUTE as nat),
            v % (MICROS_PER_WEEK as nat) % (MICROS_PER_DAY as nat) % (MICROS_PER_HOUR as nat) % (
            MICROS_PER_MINUTE as nat) / (MICROS_PER_SECOND as nat),
            v % (MICROS_PER_WEEK as nat) % (MICROS_PER_DAY as nat) % (MICROS_PER_HOUR as nat) % (
            MICROS_PER_MINUTE as nat) % (MICROS_PER_SECOND as nat) / (MICROS_PER_MILLI as nat),
            v % (MICROS_PER_WEEK as nat) % (MICROS_PER_DAY as nat) % (MICROS_PER_HOUR as nat) % (
            MICROS_PER_MINUTE as nat) % (MICROS_PER_SECOND as nat) % (MICROS_PER_MILLI as nat),
        ),
{
    let n1 = v / (MICROS_PER_WEEK as nat);
    let r1 = v % (MICROS_PER_WEEK as nat);
    let n2 = r1 / (MICROS_PER_DAY as nat);
    let r2 = r1 % (MICROS_PER_DAY as nat);
    let n3 = r2 / (MICROS_PER_HOUR as nat);
    let r3 = r2 % (MICROS_PER_HOUR as nat);
    let n4 = r3 / (MICROS_PER_MINUTE as nat);
    let r4 = r3 % (MICROS_PER_MINUTE as nat);
    let n5 = r4 / (MICROS_PER_SECOND as nat);
    let r5 = r4 % (MICROS_PER_SECOND as nat);
    let n6 = r5 / (MICROS_PER_MILLI as nat);
    let n7 = r5 % (MICROS_PER_MILLI as nat);
    assert(encode_spec(v) =~= enc_cat(n1, n2, n3, n4, n5, n6, n7));
}

/// The greedy components of `v` sum back to `v`.
proof fn lemma_greedy_sum(v: nat)
    ensures
        enc_sum(
            v / (MICROS_PER_WEEK as nat),
            v % (MICROS_PER_WEEK as nat) / (MICROS_PER_DAY as nat),
            v % (MICROS_PER_WEEK as nat) % (MICROS_PER_DAY as nat) / (MICROS_PER_HOUR as nat),
            v % (MICROS_PER_WEEK as nat) % (MICROS_PER_DAY as nat) % (MICROS_PER_HOUR as nat) / (
            MICROS_PER_MINUTE as nat),
            v % (MICROS_PER_WEEK as nat) % (MICROS_PER_DAY as nat) % (MICROS_PER_HOUR as nat) % (
            MICROS_PER_MINUTE as nat) / (MICROS_PER_SECOND as nat),
            v % (MICROS_PER_WEEK as nat) % (MICROS_PER_DAY as nat) % (MICROS_PER_HOUR as nat) % (
            MICROS_PER_MINUTE as nat) % (MICROS_PER_SECOND as nat) / (MICROS_PER_MILLI as nat),
            v % (MICROS_PER_WEEK as nat) % (MICROS_PER_DAY as nat) % (MICROS_PER_HOUR as nat) % (
            MICROS_PER_MINUTE as nat) % (MICROS_PER_SECOND as nat) % (MICROS_PER_MILLI as nat),
        ) == v,
{
    let n1 = v / (MICROS_PER_WEEK as nat);
    let r1 = v % (MICROS_PER_WEEK as nat);
    let n2 = r1 / (MICROS_PER_DAY as nat);
    let r2 = r1 % (MICROS_PER_DAY as nat);
    let n3 = r2 / (MICROS_PER_HOUR as nat);
    let r3 = r2 % (MICROS_PER_HOUR as nat);
    let n4 = r3 / (MICROS_PER_MINUTE as nat);
    let r4 = r3 % (MICROS_PER_MINUTE as nat);
    let n5 = r4 / (MICROS_PER_SECOND as nat);
    let r5 = r4 % (MICROS_PER_SECOND as nat);
    let n6 = r5 / (MICROS_PER_MILLI as nat);
    let n7 = r5 % (MICROS_PER_MILLI as nat);
    vstd::arithmetic::div_mod::lemma_fundamental_div_mod(v as int, MICROS_PER_WEEK as int);
    vstd::arithmetic::div_mod::lemma_fundamental_div_mod(r1 as int, MICROS_PER_DAY as int);
    vstd::arithmetic::div_mod::lemma_fundamental_div_mod(r2 as int, MICROS_PER_HOUR as int);
    vstd::arithmetic::div_mod::lemma_fundamental_div_mod(r3 as int, MICROS_PER_MINUTE as int);
    vstd::arithmetic::div_mod::lemma_fundamental_div_mod(r4 as int, MICROS_PER_SECOND as int);
    vstd::arithmetic::div_mod::lemma_fundamental_div_mod(r5 as int, MICROS_PER_MILLI as int);
    assert(r5 == n6 * (MICROS_PER_MILLI as nat) + n7);
    assert(r4 == n5 * (MICROS_PER_SECOND as nat) + r5);
    assert(r3 == n4 * (MICROS_PER_MINUTE as nat) + r4);
    assert(r2 == n3 * (MICROS_PER_HOUR as nat) + r3);
    assert(r1 == n2 * (MICROS_PER_DAY as nat) + r2);
    assert(v == n1 * (MICROS_PER_WEEK as nat) + r1);
}

/// Canonical text always decodes, and decodes to the count it encodes:
/// for every microsecond count `v`, `duration_micros(encode_spec(v))` is
/// exactly `v`. Together with the contracts of `encode` and `decode`,
/// decoding an encoded interval gives back the stored count.
pub proof fn lemma_encode_round_trip(v: nat)
    ensures
        duration_micros(encode_spec(v)) == Some(v),
{
    if v == 0 {
        let s = encode_spec(0);
        assert(s == seq!['0', 's']);
        assert(is_digit_char(s[0]) && !is_digit_char(s[1]));
        lemma_digits_run(s, 0, 1);
        assert(unit_from(s, 1) == Some((1int, MICROS_PER_SECOND)));
        assert(parse_from(s, 2) == Some(0nat));
        assert(s.subrange(0, 1) =~= seq!['0']);
        assert(seq!['0'].drop_last() =~= Seq::<char>::empty());
        assert(num_value(Seq::<char>::empty()) == 0);
        assert(seq!['0'].last() == '0');
        assert(digit_val('0') == 0);
        assert(num_value(seq!['0']) == 0);
        assert(num_value(s.subrange(0, 1)) * (MICROS_PER_SECOND as nat) == 0);
        assert(parse_from(s, 0) == Some(0nat));
    } else {
        let n1 = v / (MICROS_PER_WEEK as nat);
        let n2 = v % (MICROS_PER_WEEK as nat) / (MICROS_PER_DAY as nat);
        let n3 = v % (MICROS_PER_WEEK as nat) % (MICROS_PER_DAY as nat) / (MICROS_PER_HOUR as nat);
        let n4 = v % (MICROS_PER_WEEK as nat) % (MICROS_PER_DAY as nat) % (MICROS_PER_HOUR as nat)
            / (MICROS_PER_MINUTE as nat);
        let n5 = v % (MICROS_PER_WEEK as nat) % (MICROS_PER_DAY as nat) % (MICROS_PER_HOUR as nat)
            % (MICROS_PER_MINUTE as nat) / (MICROS_PER_SECOND as nat);
        let n6 = v % (MICROS_PER_WEEK as nat) % (MICROS_PER_DAY as nat) % (MICROS_PER_HOUR as nat)
            % (MICROS_PER_MINUTE as nat) % (MICROS_PER_SECOND as nat) / (MICROS_PER_MILLI as nat);
        let n7 = v % (MICROS_PER_WEEK as nat) % (MICROS_PER_DAY as nat) % (MICROS_PER_HOUR as nat)
            % (MICROS_PER_MINUTE as nat) % (MICROS_PER_SECOND as nat) % (MICROS_PER_MILLI as nat);
        lemma_encode_spec_cat(v);
        lemma_components_parse(n1, n2, n3, n4, n5, n6, n7);
        lemma_greedy_sum(v);
        assert(parse_from(encode_spec(v), 0) == Some(v));
        // A positive count yields at least one term, so the text cannot
        // be empty: an empty text would parse to zero.
        if encode_spec(v).len() == 0 {
            assert(parse_from(encode_spec(v), 0) == Some(0nat));
        }
    }
}

/// A component of the canonical text, prepended to a tail that parses to
/// `rest_val`, parses to the component's value plus `rest_val`.
proof fn lemma_component_parse(n: nat, unit: Seq<char>, mult: u64, tail: Seq<char>, rest_val: nat)
    requires
        unit_token(unit, mult),
        parse_from(tail, 0) == Some(rest_val),
        tail.len() == 0 || is_digit_char(tail[0]),
    ensures
        parse_from(component(n, unit) + tail, 0) == Some((n * mult + rest_val) as nat),
        (component(n, unit) + tail).len() == 0 || is_digit_char((component(n, unit) + tail)[0]),
{
    if n == 0 {
        assert(component(n, unit) + tail =~= tail);
    } else {
        lemma_dec_digits_all_digits(n);
        lemma_dec_digits_value(n);
        lemma_parse_term(dec_digits(n), unit, mult, tail);
        assert(component(n, unit) + tail =~= dec_digits(n) + unit + tail);
    }
}

} // verus!
