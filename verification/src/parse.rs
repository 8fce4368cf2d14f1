//! Re-parsing of one rendered value line, the renderer's inverse on
//! literals.
//!
//! The base dialect's tokenizer reads a quoted token as a string, a
//! decimal token as a number, and any other bare token as a string.
//! `parse_value` follows that rule, and the round-trip law below shows
//! that rendering a literal value yields a line that parses back to an
//! equal value.

use vstd::prelude::*;
use vstd::string::{StrSliceExecFns, StringExecFns};
use crate::value::{ExpressionValue, ValueM};
use crate::render::{has_space, spec_dec_int, spec_dec_nat, digit_char, str_text, value_text};

verus! {

/// Whether `c` is a decimal digit.
pub open spec fn is_digit(c: char) -> bool {
    c == '0' || c == '1' || c == '2' || c == '3' || c == '4' || c == '5' || c == '6' || c == '7'
        || c == '8' || c == '9'
}

/// The value of a decimal digit.
pub open spec fn digit_val(c: char) -> nat {
    if c == '0' { 0 }
    else if c == '1' { 1 }
    else if c == '2' { 2 }
    else if c == '3' { 3 }
    else if c == '4' { 4 }
    else if c == '5' { 5 }
    else if c == '6' { 6 }
    else if c == '7' { 7 }
    else if c == '8' { 8 }
    else { 9 }
}

/// A non-empty run of decimal digits.
pub open spec fn is_digits(t: Seq<char>) -> bool {
    t.len() > 0 && forall|i: int| 0 <= i < t.len() ==> is_digit(#[trigger] t[i])
}

/// The number a run of digits denotes.
pub open spec fn dec_val_u(t: Seq<char>) -> nat
    decreases t.len(),
{
    if t.len() == 0 {
        0
    } else {
        dec_val_u(t.drop_last()) * 10 + digit_val(t.last())
    }
}

/// A decimal number token: an optional minus sign, then at most
/// nineteen digits (every rendered machine number fits).
pub open spec fn is_dec_text(t: Seq<char>) -> bool {
    (is_digits(t) && t.len() <= 19) || (t.len() >= 2 && t[0] == '-' && is_digits(t.drop_first())
        && t.len() <= 20)
}

/// The integer a decimal token denotes.
pub open spec fn dec_val(t: Seq<char>) -> int {
    if t.len() > 0 && t[0] == '-' {
        -(dec_val_u(t.drop_first()) as int)
    } else {
        dec_val_u(t) as int
    }
}

/// What one value line parses to: a quoted token is a string, a
/// decimal token in machine range is a number, any other bare token is
/// a string; a stray quote or space, or an out-of-range number, parses
/// to nothing.
pub open spec fn spec_parse_value(t: Seq<char>) -> Option<ValueM> {
    if t.len() >= 2 && t[0] == '"' && t[t.len() - 1] == '"'
        && !t.subrange(1, t.len() - 1).contains('"') {
        Some(ValueM::StrV(t.subrange(1, t.len() - 1)))
    } else if is_dec_text(t) {
        if i64::MIN <= dec_val(t) <= i64::MAX {
            Some(ValueM::NumV(dec_val(t)))
        } else {
            None
        }
    } else if t.contains('"') || t.contains(' ') {
        None
    } else {
        Some(ValueM::StrV(t))
    }
}

/// Powers of ten.
pub open spec fn pow10(k: nat) -> nat
    decreases k,
{
    if k == 0 {
        1
    } else {
        10 * pow10((k - 1) as nat)
    }
}

proof fn lemma_pow10_pos(k: nat)
    ensures
        pow10(k) >= 1,
    decreases k,
{
    if k > 0 {
        lemma_pow10_pos((k - 1) as nat);
    }
}

proof fn lemma_pow10_mono(a: nat, b: nat)
    requires
        a <= b,
    ensures
        pow10(a) <= pow10(b),
        pow10(a) >= 1,
    decreases b,
{
    lemma_pow10_pos(a);
    if a < b {
        lemma_pow10_mono(a, (b - 1) as nat);
        lemma_pow10_pos((b - 1) as nat);
        assert(pow10(b) == 10 * pow10((b - 1) as nat));
    }
}

proof fn lemma_pow10_19()
    ensures
        pow10(19) == 10000000000000000000,
{
    reveal_with_fuel(pow10, 21);
}

/// The digits a natural number renders to denote it back, are digits,
/// and are at most `k` long when the number lies below the `k`-th
/// power of ten.
proof fn lemma_dec_nat_props(n: nat, k: nat)
    requires
        n < pow10(k),
        k >= 1,
    ensures
        is_digits(spec_dec_nat(n)),
        dec_val_u(spec_dec_nat(n)) == n,
        spec_dec_nat(n).len() <= k,
    decreases n,
{
    if n < 10 {
        let t = spec_dec_nat(n);
        assert(t == seq![digit_char(n)]);
        assert(t[0] == digit_char(n));
        assert(t.last() == digit_char(n));
        assert(is_digit(digit_char(n)));
        assert(digit_val(digit_char(n)) == n);
        assert(t.drop_last() =~= Seq::<char>::empty());
        assert(dec_val_u(Seq::<char>::empty()) == 0);
        assert(dec_val_u(t) == digit_val(digit_char(n)));
        assert(is_digits(t));
        lemma_pow10_pos(k);
    } else {
        assert(k >= 2) by {
            if k == 1 {
                assert(pow10(1nat) == 10) by {
                    reveal_with_fuel(pow10, 2);
                }
            }
        }
        assert(pow10(k) == 10 * pow10((k - 1) as nat));
        assert(n / 10 < pow10((k - 1) as nat)) by (nonlinear_arith)
            requires
                n < 10 * pow10((k - 1) as nat),
                n >= 10,
        ;
        assert(n / 10 < n) by (nonlinear_arith)
            requires
                n >= 10,
        ;
        lemma_dec_nat_props(n / 10, (k - 1) as nat);
        let t = spec_dec_nat(n);
        let h = spec_dec_nat(n / 10);
        assert(t == h.push(digit_char(n % 10)));
        assert(t.drop_last() =~= h);
        assert(t.last() == digit_char(n % 10));
        assert(n % 10 < 10);
        assert(digit_val(digit_char(n % 10)) == n % 10);
        assert(dec_val_u(t) == (n / 10) * 10 + n % 10);
        assert((n / 10) * 10 + n % 10 == n);
        assert forall|i: int| 0 <= i < t.len() implies is_digit(#[trigger] t[i]) by {
            if i < h.len() {
                assert(t[i] == h[i]);
            } else {
                assert(t[i] == digit_char(n % 10));
                assert(is_digit(digit_char(n % 10)));
            }
        }
    }
}

/// Rendering a machine number yields a decimal token that parses back
/// to the same number.
pub proof fn lemma_number_round_trip(n: int)
    requires
        i64::MIN <= n <= i64::MAX,
    ensures
        spec_parse_value(spec_dec_int(n)) == Some(ValueM::NumV(n)),
{
    lemma_pow10_19();
    if n >= 0 {
        let t = spec_dec_int(n);
        lemma_dec_nat_props(n as nat, 19);
        assert(t == spec_dec_nat(n as nat));
        assert(is_digit(t[0]));
        assert(t[0] != '"');
        assert(t[0] != '-');
        assert(is_dec_text(t));
        assert(dec_val(t) == n);
    } else {
        let m = (-n) as nat;
        lemma_dec_nat_props(m, 19);
        let d = spec_dec_nat(m);
        let t = spec_dec_int(n);
        assert(t == seq!['-'] + d);
        assert(t[0] == '-');
        assert(t.drop_first() =~= d);
        assert(t.len() == d.len() + 1);
        assert(is_dec_text(t));
        assert(dec_val(t) == -(dec_val_u(d) as int));
        assert(dec_val(t) == n);
    }
}

/// Rendering a string value that holds no quote character, and that
/// is not itself a bare decimal token, yields a token that parses back
/// to the same string.
pub proof fn lemma_string_round_trip(s: Seq<char>)
    requires
        !s.contains('"'),
        s.contains(' ') || !is_dec_text(s),
    ensures
        spec_parse_value(str_text(s)) == Some(ValueM::StrV(s)),
{
    if s.contains(' ') {
        let t = seq!['"'] + s + seq!['"'];
        assert(str_text(s) == t);
        assert(t.len() == s.len() + 2);
        assert(t[0] == '"');
        assert(t[t.len() - 1] == '"');
        assert(t.subrange(1, t.len() - 1) =~= s);
        assert(!t.subrange(1, t.len() - 1).contains('"'));
    } else {
        let t = s;
        assert(str_text(s) == t);
        if t.len() >= 2 && t[0] == '"' {
            assert(s.contains('"'));
        }
        assert(!(t.len() >= 2 && t[0] == '"' && t[t.len() - 1] == '"'
            && !t.subrange(1, t.len() - 1).contains('"')));
        assert(!is_dec_text(t));
        assert(!t.contains('"'));
        assert(!t.contains(' '));
    }
}

/// Round-trip law for literals: a string value without quote
/// characters that is no bare decimal token, and any machine number,
/// render to a line that re-parses to an equal value.
pub proof fn lemma_literal_round_trip(v: ValueM)
    requires
        (v matches ValueM::NumV(n) && i64::MIN <= n <= i64::MAX)
            || (v matches ValueM::StrV(s) && !s.contains('"')
                && (s.contains(' ') || !is_dec_text(s))),
    ensures
        spec_parse_value(value_text(v)) == Some(v),
{
    match v {
        ValueM::NumV(n) => {
            lemma_number_round_trip(n);
        },
        ValueM::StrV(s) => {
            lemma_string_round_trip(s);
        },
        _ => {},
    }
}

/// Whether the text contains a quote character.
fn has_quote(s: &str) -> (b: bool)
    ensures
        b == s@.contains('"'),
{
    let n = s.unicode_len();
    let mut i: usize = 0;
    while i < n
        invariant
            n == s@.len(),
            i <= n,
            forall|j: int| 0 <= j < i ==> s@[j] != '"',
        decreases n - i,
    {
        if s.get_char(i) == '"' {
            proof {
                assert(s@.contains('"'));
            }
            return true;
        }
        i = i + 1;
    }
    false
}

/// The value of one digit character.
fn digit_of(c: char) -> (d: u64)
    requires
        is_digit(c),
    ensures
        d == digit_val(c),
        d < 10,
{
    if c == '0' { 0 }
    else if c == '1' { 1 }
    else if c == '2' { 2 }
    else if c == '3' { 3 }
    else if c == '4' { 4 }
    else if c == '5' { 5 }
    else if c == '6' { 6 }
    else if c == '7' { 7 }
    else if c == '8' { 8 }
    else { 9 }
}

/// Whether the text is a decimal token.
fn is_dec_check(t: &str) -> (b: bool)
    ensures
        b == is_dec_text(t@),
{
    let n = t.unicode_len();
    if n == 0 {
        return false;
    }
    let neg = t.get_char(0) == '-';
    let start: usize = if neg { 1 } else { 0 };
    if n == start {
        proof {
            assert(!is_digits(t@.drop_first()));
        }
        return false;
    }
    if neg && n > 20 || !neg && n > 19 {
        proof {
            assert(!is_digit('-'));
            if !neg && is_digits(t@) {
                assert(is_digit(t@[0]));
            }
        }
        return false;
    }
    let mut i: usize = start;
    while i < n
        invariant
            n == t@.len(),
            start <= i <= n,
            neg == (t@[0] == '-'),
            start == (if neg { 1int } else { 0int }),
            forall|j: int| start <= j < i ==> is_digit(#[trigger] t@[j]),
        decreases n - i,
    {
        let c = t.get_char(i);
        let ok = c == '0' || c == '1' || c == '2' || c == '3' || c == '4' || c == '5'
            || c == '6' || c == '7' || c == '8' || c == '9';
        if !ok {
            proof {
                assert(!is_digit(t@[i as int]));
                if neg {
                    assert(t@.drop_first()[i - 1 as int] == t@[i as int]);
                    assert(!is_digits(t@.drop_first()));
                    assert(!is_digit('-'));
                } else {
                    assert(!is_digits(t@));
                    assert(!is_digit('-'));
                }
            }
            return false;
        }
        i = i + 1;
    }
    proof {
        if neg {
            assert forall|j: int| 0 <= j < t@.drop_first().len()
                implies is_digit(#[trigger] t@.drop_first()[j]) by {
                assert(t@.drop_first()[j] == t@[j + 1]);
            }
            assert(is_digits(t@.drop_first()));
        } else {
            assert(is_digits(t@));
            if t@[0] == '-' {
                assert(!is_digit('-'));
            }
        }
    }
    true
}

/// Parse a decimal token to a machine number; `None` when it lies
/// outside the machine range.
fn parse_i64(t: &str) -> (r: Option<i64>)
    requires
        is_dec_text(t@),
    ensures
        (match r {
            Some(v) => i64::MIN <= dec_val(t@) <= i64::MAX && v as int == dec_val(t@),
            None => !(i64::MIN <= dec_val(t@) <= i64::MAX),
        }),
{
    let n = t.unicode_len();
    let neg = t.get_char(0) == '-';
    let start: usize = if neg { 1 } else { 0 };
    proof {
        if neg {
            assert(t@.subrange(1, n as int) =~= t@.drop_first());
        } else {
            assert(t@.subrange(0, n as int) =~= t@);
        }
        lemma_pow10_19();
    }
    let ghost digits = t@.subrange(start as int, n as int);
    let mut mag: u64 = 0;
    let mut i: usize = start;
    proof {
        assert(t@.subrange(start as int, start as int) =~= Seq::<char>::empty());
        assert(pow10(0) == 1);
        assert(!is_digit('-'));
        if neg {
            assert(is_digits(t@.drop_first()));
            assert forall|j: int| start <= j < n implies is_digit(#[trigger] t@[j]) by {
                assert(t@.drop_first()[j - 1] == t@[j]);
            }
        } else {
            if !is_digits(t@) {
                assert(t@[0] == '-');
            }
            assert(is_digits(t@));
        }
    }
    while i < n
        invariant
            n == t@.len(),
            start <= i <= n,
            n - start <= 19,
            digits == t@.subrange(start as int, n as int),
            forall|j: int| start <= j < n ==> is_digit(#[trigger] t@[j]),
            mag == dec_val_u(t@.subrange(start as int, i as int)),
            mag < pow10((i - start) as nat),
        decreases n - i,
    {
        let c = t.get_char(i);
        let d = digit_of(c);
        proof {
            let k = (i - start) as nat;
            lemma_pow10_mono((k + 1) as nat, 19);
            lemma_pow10_19();
            assert(pow10((k + 1) as nat) == 10 * pow10(k));
            assert(mag * 10 + d < 10 * pow10(k)) by (nonlinear_arith)
                requires
                    mag < pow10(k),
                    d < 10,
            ;
            assert(t@.subrange(start as int, i + 1 as int).drop_last()
                =~= t@.subrange(start as int, i as int));
            assert(t@.subrange(start as int, i + 1 as int).last() == t@[i as int]);
        }
        mag = mag * 10 + d;
        i = i + 1;
    }
    proof {
        assert(t@.subrange(start as int, n as int) =~= digits);
        if neg {
            assert(dec_val(t@) == -(dec_val_u(digits) as int));
        } else {
            assert(t@[0] != '-');
            assert(dec_val(t@) == dec_val_u(t@) as int);
        }
    }
    if neg {
        if mag > 9223372036854775808u64 {
            None
        } else if mag == 9223372036854775808u64 {
            Some(i64::MIN)
        } else {
            Some(-(mag as i64))
        }
    } else {
        if mag > 9223372036854775807u64 {
            None
        } else {
            Some(mag as i64)
        }
    }
}

/// Parse one rendered value line; exactly what `spec_parse_value`
/// says.
pub fn parse_value(t: &str) -> (r: Option<ExpressionValue>)
    ensures
        (match r {
            Some(v) => spec_parse_value(t@) == Some(v@),
            None => spec_parse_value(t@) is None,
        }),
{
    let n = t.unicode_len();
    if n >= 2 && t.get_char(0) == '"' && t.get_char(n - 1) == '"' {
        let inner = t.substring_char(1, n - 1);
        if has_quote(inner) {
            proof {
                assert(t@.contains('"'));
                assert(!is_dec_text(t@));
            }
            None
        } else {
            Some(ExpressionValue::Str(String::from_str(inner)))
        }
    } else if is_dec_check(t) {
        match parse_i64(t) {
            Some(v) => Some(ExpressionValue::Num(v)),
            None => None,
        }
    } else if has_quote(t) || has_space(t) {
        None
    } else {
        Some(ExpressionValue::Str(t.to_owned()))
    }
}

} // verus!
