//! Decimal text at the boundary: validating and parsing dollar-amount
//! strings, and one-way fixed-precision formatting with two fractional
//! digits for display and persistence.

use crate::rational::{q_ratio, Q, Rat, RebalanceError};
use vstd::prelude::*;

verus! {

/// A decimal digit.
pub open spec fn is_digit(c: char) -> bool {
    '0' <= c <= '9'
}

/// The value of a decimal digit.
pub open spec fn digit_val(c: char) -> int {
    c as int - '0' as int
}

/// Every character is a decimal digit.
pub open spec fn all_digits(s: Seq<char>) -> bool {
    forall|i: int| 0 <= i < s.len() ==> is_digit(#[trigger] s[i])
}

/// The number the digit string stands for, most significant first.
pub open spec fn digits_val(s: Seq<char>) -> int
    decreases s.len(),
{
    if s.len() == 0 {
        0
    } else {
        digits_val(s.drop_last()) * 10 + digit_val(s.last())
    }
}

/// A dollar amount: digits, then optionally a dot, then exactly two more
/// digits.
pub open spec fn is_amount(s: Seq<char>) -> bool {
    ||| (s.len() >= 3 && all_digits(s))
    ||| (s.len() >= 4 && s[s.len() - 3] == '.' && all_digits(s.subrange(0, s.len() - 3))
        && all_digits(s.subrange(s.len() - 2, s.len() as int)))
}

/// The amount's digits with the dot removed: the amount in cents.
pub open spec fn stripped(s: Seq<char>) -> Seq<char> {
    if s.len() >= 4 && s[s.len() - 3] == '.' {
        s.subrange(0, s.len() - 3) + s.subrange(s.len() - 2, s.len() as int)
    } else {
        s + seq!['0', '0']
    }
}

/// The whole cents a dollar-amount string stands for.
pub open spec fn amount_cents(s: Seq<char>) -> int {
    digits_val(stripped(s))
}

/// A digit string stands for a number at least zero, and no prefix stands
/// for a larger number than the whole.
pub proof fn lemma_digits_val_mono(s: Seq<char>, k: int)
    requires
        all_digits(s),
        0 <= k <= s.len(),
    ensures
        digits_val(s) >= digits_val(s.take(k)) >= 0,
    decreases s.len() - k,
{
    if k == 0 {
        assert(s.take(0) =~= Seq::<char>::empty());
        lemma_digits_val_nonneg(s);
    } else if k == s.len() {
        assert(s.take(k) =~= s);
        lemma_digits_val_nonneg(s);
    } else {
        lemma_digits_val_mono(s, k + 1);
        assert(s.take(k + 1).drop_last() =~= s.take(k));
        assert(s.take(k + 1).last() == s[k]);
        lemma_digits_val_nonneg(s.take(k));
        assert(digits_val(s.take(k + 1)) == digits_val(s.take(k)) * 10 + digit_val(s[k]));
        assert(digits_val(s.take(k)) * 10 >= digits_val(s.take(k))) by (nonlinear_arith)
            requires
                digits_val(s.take(k)) >= 0,
        ;
    }
}

/// A digit string never stands for a negative number.
pub proof fn lemma_digits_val_nonneg(s: Seq<char>)
    requires
        all_digits(s),
    ensures
        digits_val(s) >= 0,
    decreases s.len(),
{
    if s.len() > 0 {
        assert(forall|i: int| 0 <= i < s.drop_last().len() ==> s.drop_last()[i] == s[i]);
        lemma_digits_val_nonneg(s.drop_last());
        assert(s.last() == s[s.len() - 1]);
        assert(digits_val(s.drop_last()) * 10 >= 0) by (nonlinear_arith)
            requires
                digits_val(s.drop_last()) >= 0,
        ;
    }
}

/// Whether the string is a well-formed dollar amount.
pub fn validate_amount(s: &str) -> (r: bool)
    ensures
        r == is_amount(s@),
{
    let n = s.unicode_len();
    if n < 3 {
        return false;
    }
    let dotted = n >= 4 && s.get_char(n - 3) == '.';
    let mut i: usize = 0;
    while i < n
        invariant
            n == s@.len(),
            i <= n,
            n >= 3,
            dotted == (n >= 4 && s@[n - 3] == '.'),
            forall|j: int| 0 <= j < i && !(dotted && j == n - 3) ==> is_digit(#[trigger] s@[j]),
        decreases n - i,
    {
        let c = s.get_char(i);
        if dotted && i == n - 3 {
        } else if !('0' <= c && c <= '9') {
            assert(!is_digit(s@[i as int]));
            if dotted {
                assert(i != n - 3);
                if i < n - 3 {
                    assert(s@.subrange(0, n - 3)[i as int] == s@[i as int]);
                } else {
                    assert(s@.subrange(n - 2, n as int)[i - (n - 2)] == s@[i as int]);
                }
                assert(!is_amount(s@));
            } else {
                assert(!is_amount(s@));
            }
            return false;
        }
        i += 1;
    }
    if dotted {
        assert(all_digits(s@.subrange(0, n - 3))) by {
            assert(forall|j: int|
                0 <= j < n - 3 ==> s@.subrange(0, n - 3)[j] == s@[j] && is_digit(#[trigger] s@[j]));
        }
        assert(all_digits(s@.subrange(n - 2, n as int))) by {
            assert(forall|j: int|
                0 <= j < 2 ==> s@.subrange(n - 2, n as int)[j] == s@[j + n - 2] && is_digit(
                    #[trigger] s@[j + n - 2],
                ));
        }
        assert(is_amount(s@));
    } else {
        assert(all_digits(s@));
    }
    true
}

/// Parse a dollar-amount string into an exact rational number of dollars.
///
/// `InvalidInput` exactly on strings that do not match the amount shape;
/// `Overflow` exactly when the amount in cents does not fit the machine
/// representation.
pub fn parse_amount(s: &str) -> (r: Result<Rat, RebalanceError>)
    ensures
        r is Ok <==> is_amount(s@) && amount_cents(s@) <= i64::MAX,
        r matches Ok(x) ==> x@ == q_ratio(amount_cents(s@), 100) && x.inv() && x@.n >= 0,
        !is_amount(s@) ==> r == Err::<Rat, RebalanceError>(RebalanceError::InvalidInput),
        is_amount(s@) && amount_cents(s@) > i64::MAX ==> r == Err::<Rat, RebalanceError>(
            RebalanceError::Overflow,
        ),
{
    if !validate_amount(s) {
        return Err(RebalanceError::InvalidInput);
    }
    let n = s.unicode_len();
    let dotted = n >= 4 && s.get_char(n - 3) == '.';
    let ghost st = stripped(s@);
    proof {
        if dotted {
            assert(forall|j: int|
                0 <= j < n - 3 ==> st[j] == s@.subrange(0, n - 3)[j] && s@.subrange(0, n - 3)[j]
                    == s@[j]);
            assert(forall|j: int|
                n - 3 <= j < n - 1 ==> st[j] == s@.subrange(n - 2, n as int)[j - (n - 3)]
                    && s@.subrange(n - 2, n as int)[j - (n - 3)] == s@[j + 1]);
            assert(st.len() == n - 1);
            assert(all_digits(st));
        } else {
            assert(forall|j: int| 0 <= j < n ==> st[j] == s@[j]);
            assert(st[n as int] == '0' && st[n + 1] == '0');
            assert(st.len() == n + 2);
            assert(all_digits(st));
        }
    }
    let mut acc: i64 = 0;
    let mut i: usize = 0;
    proof {
        assert(st.take(0) =~= Seq::<char>::empty());
    }
    while i < n
        invariant
            n == s@.len(),
            i <= n,
            n >= 3,
            dotted == (n >= 4 && s@[n - 3] == '.'),
            st == stripped(s@),
            is_amount(s@),
            all_digits(st),
            acc >= 0,
            ({
                let j: int = if dotted && i > n - 3 {
                    i - 1
                } else {
                    i as int
                };
                acc == digits_val(st.take(j))
            }),
        decreases n - i,
    {
        let ghost j: int = if dotted && i > n - 3 {
            i - 1
        } else {
            i as int
        };
        let c = s.get_char(i);
        if dotted && i == n - 3 {
            i += 1;
            continue ;
        }
        assert(st[j] == s@[i as int]);
        assert(is_digit(c));
        let d: i64 = (c as u32 as i64) - ('0' as u32 as i64);
        assert(d == digit_val(c) && 0 <= d <= 9);
        if acc > (i64::MAX - d) / 10 {
            proof {
                assert(digits_val(st.take(j + 1)) == acc * 10 + d) by {
                    assert(st.take(j + 1).drop_last() =~= st.take(j));
                    assert(st.take(j + 1).last() == st[j]);
                };
                assert(acc * 10 + d > i64::MAX) by (nonlinear_arith)
                    requires
                        acc > (i64::MAX - d) / 10,
                        acc >= 0,
                        0 <= d <= 9,
                ;
                lemma_digits_val_mono(st, j + 1);
                assert(amount_cents(s@) > i64::MAX);
            }
            return Err(RebalanceError::Overflow);
        }
        assert(acc * 10 + d <= i64::MAX) by (nonlinear_arith)
            requires
                acc <= (i64::MAX - d) / 10,
                acc >= 0,
                0 <= d <= 9,
        ;
        assert(acc * 10 + d >= 0) by (nonlinear_arith)
            requires
                acc >= 0,
                d >= 0,
        ;
        let new_acc = acc * 10 + d;
        proof {
            assert(st.take(j + 1).drop_last() =~= st.take(j));
            assert(st.take(j + 1).last() == st[j]);
        }
        acc = new_acc;
        i += 1;
    }
    if !dotted {
        proof {
            assert(st =~= s@ + seq!['0', '0']);
            assert(st[n as int] == '0' && st[n + 1] == '0');
            assert(digit_val('0') == 0);
            assert(st.take(n as int) =~= s@);
        }
        if acc > i64::MAX / 100 {
            proof {
                assert(st.take(n + 2) =~= st);
                assert(st.take(n + 1).drop_last() =~= st.take(n as int));
                assert(st.take(n + 1).last() == st[n as int]);
                assert(st.take(n + 2).drop_last() =~= st.take(n + 1));
                assert(st.take(n + 2).last() == st[n + 1]);
                assert(digits_val(st.take(n + 1)) == digits_val(st.take(n as int)) * 10
                    + digit_val(st[n as int]));
                assert(digits_val(st.take(n + 2)) == digits_val(st.take(n + 1)) * 10 + digit_val(
                    st[n + 1],
                ));
                assert(digits_val(st) == (acc * 10 + 0) * 10 + 0);
                assert(digits_val(st) == acc * 100) by (nonlinear_arith)
                    requires
                        digits_val(st) == (acc * 10 + 0) * 10 + 0,
                ;
                assert(acc * 100 > i64::MAX) by (nonlinear_arith)
                    requires
                        acc > i64::MAX / 100,
                        acc >= 0,
                ;
            }
            return Err(RebalanceError::Overflow);
        }
        assert(acc * 100 <= i64::MAX && acc * 100 >= 0) by (nonlinear_arith)
            requires
                0 <= acc <= i64::MAX / 100,
        ;
        proof {
            assert(st.take(n + 2) =~= st);
            assert(st.take(n + 1).drop_last() =~= st.take(n as int));
            assert(st.take(n + 1).last() == st[n as int]);
            assert(st.take(n + 2).drop_last() =~= st.take(n + 1));
            assert(st.take(n + 2).last() == st[n + 1]);
            assert(digits_val(st.take(n + 1)) == digits_val(st.take(n as int)) * 10 + digit_val(
                st[n as int],
            ));
            assert(digits_val(st.take(n + 2)) == digits_val(st.take(n + 1)) * 10 + digit_val(
                st[n + 1],
            ));
            assert(digits_val(st) == (acc * 10 + 0) * 10 + 0);
            assert(digits_val(st) == acc * 100) by (nonlinear_arith)
                requires
                    digits_val(st) == (acc * 10 + 0) * 10 + 0,
            ;
        }
        acc = acc * 100;
    } else {
        proof {
            assert(st.take(st.len() as int) =~= st);
        }
    }
    match Rat::new(acc, 100) {
        Ok(x) => {
            proof {
                crate::rational::lemma_norm(acc as int, 100);
            }
            Ok(x)
        },
        Err(_) => {
            proof {
                assert(false);
            }
            Err(RebalanceError::Overflow)
        },
    }
}

/// The character for a decimal digit.
pub open spec fn digit_char(d: int) -> char {
    if d == 0 {
        '0'
    } else if d == 1 {
        '1'
    } else if d == 2 {
        '2'
    } else if d == 3 {
        '3'
    } else if d == 4 {
        '4'
    } else if d == 5 {
        '5'
    } else if d == 6 {
        '6'
    } else if d == 7 {
        '7'
    } else if d == 8 {
        '8'
    } else {
        '9'
    }
}

/// The decimal digits of a number, most significant first.
pub open spec fn dec_digits(v: nat) -> Seq<char>
    decreases v,
{
    if v < 10 {
        seq![digit_char(v as int)]
    } else {
        dec_digits(v / 10) + seq![digit_char((v % 10) as int)]
    }
}

/// The fixed two-decimal rendering of a number of cents.
pub open spec fn cents_string(cents: nat) -> Seq<char> {
    dec_digits(cents / 100) + seq!['.', digit_char(((cents / 10) % 10) as int), digit_char(
        (cents % 10) as int,
    )]
}

/// A non-negative rational rounded to whole cents, ties away from zero.
pub open spec fn rounded_cents(q: Q) -> int {
    (q.n * 200 + q.d) / (2 * q.d)
}

/// The single character for a digit below ten.
fn digit_str(d: u128) -> (r: &'static str)
    requires
        d < 10,
    ensures
        r@ == seq![digit_char(d as int)],
{
    proof {
        reveal_strlit("0");
        reveal_strlit("1");
        reveal_strlit("2");
        reveal_strlit("3");
        reveal_strlit("4");
        reveal_strlit("5");
        reveal_strlit("6");
        reveal_strlit("7");
        reveal_strlit("8");
        reveal_strlit("9");
    }
    match d {
        0 => "0",
        1 => "1",
        2 => "2",
        3 => "3",
        4 => "4",
        5 => "5",
        6 => "6",
        7 => "7",
        8 => "8",
        _ => "9",
    }
}

/// The decimal rendering of a whole number.
fn dec_string(v: u128) -> (r: String)
    ensures
        r@ == dec_digits(v as nat),
    decreases v,
{
    if v < 10 {
        digit_str(v).to_owned()
    } else {
        let mut head = dec_string(v / 10);
        head.append(digit_str(v % 10));
        head
    }
}

/// Render a non-negative rational as dollars with two decimals, standard
/// rounding: the one-way display form.
pub fn format_dollars(q: &Rat) -> (r: String)
    requires
        q.inv(),
        q@.n >= 0,
    ensures
        r@ == cents_string(rounded_cents(q@) as nat),
        rounded_cents(q@) >= 0,
{
    let cents = rounded(q, 1);
    let whole = cents / 100;
    let ten = (cents / 10) % 10;
    let one = cents % 10;
    let mut out = dec_string(whole);
    proof {
        reveal_strlit(".");
    }
    out.append(".");
    out.append(digit_str(ten));
    out.append(digit_str(one));
    proof {
        assert(out@ =~= cents_string(cents as nat));
    }
    out
}

/// Render a fraction as a percentage with two decimals: the value times one
/// hundred, rounded to hundredths.
pub fn format_percent(q: &Rat) -> (r: String)
    requires
        q.inv(),
        q@.n >= 0,
    ensures
        r@ == cents_string(rounded_cents(Q { n: q@.n * 100, d: q@.d }) as nat),
{
    let cents = rounded(q, 100);
    let whole = cents / 100;
    let ten = (cents / 10) % 10;
    let one = cents % 10;
    let mut out = dec_string(whole);
    proof {
        reveal_strlit(".");
    }
    out.append(".");
    out.append(digit_str(ten));
    out.append(digit_str(one));
    proof {
        assert(out@ =~= cents_string(cents as nat));
    }
    out
}

/// Decimal digits render as digits and read back as the same number.
pub proof fn lemma_dec_digits_val(v: nat)
    ensures
        all_digits(dec_digits(v)),
        dec_digits(v).len() >= 1,
        digits_val(dec_digits(v)) == v,
    decreases v,
{
    if v < 10 {
        assert(dec_digits(v) =~= seq![digit_char(v as int)]);
        assert(is_digit(digit_char(v as int)) && digit_val(digit_char(v as int)) == v);
        assert(dec_digits(v).drop_last() =~= Seq::<char>::empty());
        assert(dec_digits(v).len() == 1 && dec_digits(v)[0] == digit_char(v as int));
        assert(dec_digits(v).last() == digit_char(v as int));
        assert(digits_val(Seq::<char>::empty()) == 0);
        assert(digits_val(dec_digits(v)) == 0 * 10 + digit_val(digit_char(v as int)));
        assert forall|i: int| 0 <= i < dec_digits(v).len() implies is_digit(
            #[trigger] dec_digits(v)[i],
        ) by {
            assert(dec_digits(v)[i] == digit_char(v as int));
        }
    } else {
        lemma_dec_digits_val(v / 10);
        let head = dec_digits(v / 10);
        let c = digit_char((v % 10) as int);
        assert(is_digit(c) && digit_val(c) == v % 10);
        assert((head + seq![c]).drop_last() =~= head);
        assert((head + seq![c]).last() == c);
        assert(forall|i: int| 0 <= i < head.len() ==> (head + seq![c])[i] == head[i]);
        assert((head + seq![c])[head.len() as int] == c);
        assert forall|i: int| 0 <= i < (head + seq![c]).len() implies is_digit(
            #[trigger] (head + seq![c])[i],
        ) by {
            if i < head.len() {
                assert((head + seq![c])[i] == head[i]);
                assert(is_digit(head[i]));
            } else {
                assert((head + seq![c])[i] == c);
            }
        }
        assert(digits_val(head + seq![c]) == digits_val(head) * 10 + digit_val(c));
        vstd::arithmetic::div_mod::lemma_fundamental_div_mod(v as int, 10);
        assert(digits_val(dec_digits(v)) == (v / 10) * 10 + v % 10);
        assert((v as int / 10) * 10 + (v as int) % 10 == v) by (nonlinear_arith)
            requires
                v as int == 10 * (v as int / 10) + (v as int) % 10,
        ;
    }
}

/// The two-decimal rendering of a number of cents is a well-formed dollar
/// amount and reads back as the same number of cents.
pub proof fn lemma_cents_string_round_trip(cents: nat)
    ensures
        is_amount(cents_string(cents)),
        amount_cents(cents_string(cents)) == cents,
{
    let w = dec_digits(cents / 100);
    lemma_dec_digits_val(cents / 100);
    let d1 = digit_char(((cents / 10) % 10) as int);
    let d0 = digit_char((cents % 10) as int);
    let s = cents_string(cents);
    let n = s.len() as int;
    assert(n == w.len() + 3);
    assert(s[n - 3] == '.' && s[n - 2] == d1 && s[n - 1] == d0);
    assert(forall|i: int| 0 <= i < w.len() ==> s[i] == w[i]);
    assert(s.subrange(0, n - 3) =~= w);
    assert(s.subrange(n - 2, n) =~= seq![d1, d0]);
    assert(is_digit(d1) && is_digit(d0));
    assert(all_digits(seq![d1, d0])) by {
        assert(seq![d1, d0][0] == d1 && seq![d1, d0][1] == d0);
    }
    assert(is_amount(s));
    let st = stripped(s);
    assert(st =~= w + seq![d1, d0]);
    assert((w + seq![d1, d0]).drop_last() =~= w + seq![d1]);
    assert((w + seq![d1]).drop_last() =~= w);
    assert((w + seq![d1, d0]).last() == d0 && (w + seq![d1]).last() == d1);
    assert(digit_val(d1) == (cents / 10) % 10 && digit_val(d0) == cents % 10);
    assert(digits_val(w + seq![d1]) == digits_val(w) * 10 + digit_val(d1));
    assert(digits_val(w + seq![d1, d0]) == digits_val(w + seq![d1]) * 10 + digit_val(d0));
    assert(digits_val(st) == ((cents / 100) * 10 + (cents / 10) % 10) * 10 + cents % 10);
    let ci = cents as int;
    vstd::arithmetic::div_mod::lemma_fundamental_div_mod(ci, 10);
    vstd::arithmetic::div_mod::lemma_fundamental_div_mod(ci / 10, 10);
    vstd::arithmetic::div_mod::lemma_div_denominator(ci, 10, 10);
    assert(((ci / 100) * 10 + (ci / 10) % 10) * 10 + ci % 10 == ci) by (nonlinear_arith)
        requires
            ci == 10 * (ci / 10) + ci % 10,
            ci / 10 == 10 * ((ci / 10) / 10) + (ci / 10) % 10,
            (ci / 10) / 10 == ci / 100,
    ;
}

/// Persisting and reloading keeps a value to the cent: the two-decimal
/// rendering of a non-negative rational parses back to its rounded cents,
/// and exactly to the value itself when that value is a whole number of
/// cents.
pub proof fn lemma_display_round_trip(q: Q)
    requires
        crate::rational::q_wf(q),
        q.n >= 0,
    ensures
        is_amount(cents_string(rounded_cents(q) as nat)),
        amount_cents(cents_string(rounded_cents(q) as nat)) == rounded_cents(q),
        rounded_cents(q) >= 0,
        (q.n * 100) % q.d == 0 ==> crate::rational::q_eqv(
            q_ratio(amount_cents(cents_string(rounded_cents(q) as nat)), 100),
            q,
        ),
{
    assert(q.n * 200 + q.d >= 1 && 2 * q.d >= 2) by (nonlinear_arith)
        requires
            q.n >= 0,
            q.d >= 1,
    ;
    vstd::arithmetic::div_mod::lemma_div_pos_is_pos(q.n * 200 + q.d, 2 * q.d);
    lemma_cents_string_round_trip(rounded_cents(q) as nat);
    if (q.n * 100) % q.d == 0 {
        let k = (q.n * 100) / q.d;
        vstd::arithmetic::div_mod::lemma_fundamental_div_mod(q.n * 100, q.d);
        assert(q.n * 100 == k * q.d) by (nonlinear_arith)
            requires
                q.n * 100 == q.d * k + (q.n * 100) % q.d,
                (q.n * 100) % q.d == 0,
        ;
        assert(q.n * 200 + q.d == (2 * k + 1) * q.d) by (nonlinear_arith)
            requires
                q.n * 100 == k * q.d,
        ;
        assert(k >= 0) by (nonlinear_arith)
            requires
                q.n * 100 == k * q.d,
                q.n >= 0,
                q.d >= 1,
        ;
        vstd::arithmetic::div_mod::lemma_div_denominator(((2 * k + 1) * q.d) as int, q.d, 2);
        vstd::arithmetic::div_mod::lemma_div_by_multiple(2 * k + 1, q.d);
        assert(((2 * k + 1) * q.d) / q.d == 2 * k + 1) by {
            assert((2 * k + 1) * q.d == ((2 * k + 1) as int) * q.d);
        }
        vstd::arithmetic::div_mod::lemma_fundamental_div_mod_converse(2 * k + 1, 2, k, 1);
        assert(rounded_cents(q) == k);
        let parsed = q_ratio(k, 100);
        crate::rational::lemma_norm(k, 100);
        assert(parsed.n * 100 == k * parsed.d);
        assert(parsed.n * q.d == q.n * parsed.d) by (nonlinear_arith)
            requires
                parsed.n * 100 == k * parsed.d,
                q.n * 100 == k * q.d,
                parsed.d >= 1,
                q.d >= 1,
        ;
    }
}

/// Round `q * scale` to whole cents, ties away from zero.
fn rounded(q: &Rat, scale: u64) -> (cents: u128)
    requires
        q.inv(),
        q@.n >= 0,
        1 <= scale <= 10000,
    ensures
        cents == rounded_cents(Q { n: q@.n * scale, d: q@.d }),
{
    let a: u128 = q.n as u128;
    let sc: u128 = scale as u128;
    let num0: u128 = a * 200;
    assert(num0 * sc <= 0xffff_ffff_ffff_ffff_0000u128 * 10000) by (nonlinear_arith)
        requires
            num0 <= 0xffff_ffff_ffff_ffff_0000u128,
            sc <= 10000,
    ;
    let num: u128 = num0 * sc + (q.d as u128);
    let den: u128 = 2 * (q.d as u128);
    proof {
        assert((q.n as int) * scale * 200 == a * 200 * sc) by (nonlinear_arith)
            requires
                a == q.n,
                sc == scale,
        ;
        assert(num == (q.n as int) * scale * 200 + q.d);
        assert(Q { n: q@.n * scale, d: q@.d }.n * 200 + Q { n: q@.n * scale, d: q@.d }.d == num);
    }
    num / den
}

} // verus!
