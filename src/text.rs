//! Decimal text: digits, their values, and the text of a natural number.
use vstd::arithmetic::div_mod::lemma_div_denominator;
use vstd::prelude::*;

use crate::fixed::{lemma_pow10_38, lemma_pow10_monotone, lemma_pow10_positive, pow10, pow10_i64};

verus! {

pub open spec fn is_digit(c: char) -> bool {
    '0' <= c && c <= '9'
}

/// The value of a digit character.
pub open spec fn digit_value(c: char) -> int {
    c as int - '0' as int
}

/// The character of a digit value below ten.
pub open spec fn digit_char(d: int) -> char {
    if d == 0 {
        '0'
    } else if d == 1 {
        '1'
    } else if d == 2 {
        '2'
    } else if d == 3 {
        '3'
    } else if d == 4 {
        '4'
    } else if d == 5 {
        '5'
    } else if d == 6 {
        '6'
    } else if d == 7 {
        '7'
    } else if d == 8 {
        '8'
    } else {
        '9'
    }
}

pub open spec fn all_digits(s: Seq<char>) -> bool {
    forall|i: int| 0 <= i < s.len() ==> is_digit(#[trigger] s[i])
}

/// The natural number that a run of digits denotes.
pub open spec fn digits_value(s: Seq<char>) -> int
    decreases s.len(),
{
    if s.len() == 0 {
        0
    } else {
        digits_value(s.drop_last()) * 10 + digit_value(s.last())
    }
}

/// The `w` lowest decimal digits of `n`, most significant first.
pub open spec fn padded_text(n: nat, w: nat) -> Seq<char>
    decreases w,
{
    if w == 0 {
        Seq::empty()
    } else {
        padded_text(n / 10, (w - 1) as nat).push(digit_char((n % 10) as int))
    }
}

/// The decimal text of `n`, without leading zeros.
pub open spec fn nat_text(n: nat) -> Seq<char>
    decreases n,
{
    if n < 10 {
        seq![digit_char(n as int)]
    } else {
        nat_text(n / 10).push(digit_char((n % 10) as int))
    }
}

/// The number of digits in the text of `n`.
pub open spec fn digit_count(n: nat) -> nat
    decreases n,
{
    if n < 10 {
        1
    } else {
        1 + digit_count(n / 10)
    }
}

/// `s` with every `_` left out.
pub open spec fn strip_underscores(s: Seq<char>) -> Seq<char>
    decreases s.len(),
{
    if s.len() == 0 {
        s
    } else if s.last() == '_' {
        strip_underscores(s.drop_last())
    } else {
        strip_underscores(s.drop_last()).push(s.last())
    }
}

pub proof fn lemma_digit_round_trip(c: char)
    requires
        is_digit(c),
    ensures
        digit_char(digit_value(c)) == c,
        0 <= digit_value(c) < 10,
{
}

pub proof fn lemma_nat_text_padded(n: nat)
    ensures
        nat_text(n) == padded_text(n, digit_count(n)),
    decreases n,
{
    if n < 10 {
        assert(n / 10 == 0);
        assert(padded_text(n / 10, 0) == Seq::<char>::empty());
        assert(nat_text(n) =~= padded_text(n, 1));
    } else {
        lemma_nat_text_padded(n / 10);
    }
}

pub proof fn lemma_digit_count_bound(n: nat, k: nat)
    requires
        n < pow10(k),
        k >= 1,
    ensures
        1 <= digit_count(n) <= k,
    decreases n,
{
    if n >= 10 {
        if k == 1 {
            assert(pow10(1) == 10) by {
                reveal_with_fuel(pow10, 2);
            }
        } else {
            assert(pow10(k) == 10 * pow10((k - 1) as nat));
            lemma_digit_count_bound(n / 10, (k - 1) as nat);
        }
    }
}

/// The `i`-th character of `padded_text(n, w)` is digit `w - 1 - i` of `n`.
pub proof fn lemma_padded_index(n: nat, w: nat, i: int)
    requires
        0 <= i < w,
    ensures
        padded_text(n, w)[i] == digit_char(((n / pow10((w - 1 - i) as nat)) % 10) as int),
        padded_text(n, w).len() == w,
    decreases w,
{
    lemma_padded_len(n, w);
    if i < w - 1 {
        lemma_padded_index(n / 10, (w - 1) as nat, i);
        let e = (w - 2 - i) as nat;
        lemma_pow10_positive(e);
        lemma_div_denominator(n as int, 10, pow10(e) as int);
        assert(pow10((w - 1 - i) as nat) == 10 * pow10(e));
    } else {
        assert(pow10(0) == 1);
        assert(n / pow10(0) == n);
    }
}

pub proof fn lemma_padded_len(n: nat, w: nat)
    ensures
        padded_text(n, w).len() == w,
    decreases w,
{
    if w > 0 {
        lemma_padded_len(n / 10, (w - 1) as nat);
    }
}

/// The one-character text of a digit value.
fn digit_str(d: u64) -> (r: &'static str)
    requires
        d < 10,
    ensures
        r@ == seq![digit_char(d as int)],
{
    if d == 0 {
        proof {
            reveal_strlit("0");
        }
        "0"
    } else if d == 1 {
        proof {
            reveal_strlit("1");
        }
        "1"
    } else if d == 2 {
        proof {
            reveal_strlit("2");
        }
        "2"
    } else if d == 3 {
        proof {
            reveal_strlit("3");
        }
        "3"
    } else if d == 4 {
        proof {
            reveal_strlit("4");
        }
        "4"
    } else if d == 5 {
        proof {
            reveal_strlit("5");
        }
        "5"
    } else if d == 6 {
        proof {
            reveal_strlit("6");
        }
        "6"
    } else if d == 7 {
        proof {
            reveal_strlit("7");
        }
        "7"
    } else if d == 8 {
        proof {
            reveal_strlit("8");
        }
        "8"
    } else {
        proof {
            reveal_strlit("9");
        }
        "9"
    }
}

/// Appends the `w` lowest decimal digits of `n` to `out`.
pub fn push_padded(out: &mut String, n: u64, w: u32)
    requires
        w <= 19,
    ensures
        final(out)@ == old(out)@ + padded_text(n as nat, w as nat),
{
    let ghost start = out@;
    let mut i: u32 = 0;
    while i < w
        invariant
            i <= w <= 19,
            out@ == start + padded_text(n as nat, w as nat).take(i as int),
        decreases w - i,
    {
        proof {
            lemma_padded_index(n as nat, w as nat, i as int);
            lemma_pow10_monotone((w - 1 - i) as nat, 18);
        }
        proof {
            lemma_pow10_positive((w - 1 - i) as nat);
        }
        let e = pow10_i64(w - 1 - i) as u64;
        let d = (n / e) % 10;
        out.append(digit_str(d));
        assert(padded_text(n as nat, w as nat).take(i + 1) =~= padded_text(n as nat, w as nat).take(
            i as int,
        ).push(digit_char(d as int)));
        i = i + 1;
    }
    proof {
        lemma_padded_len(n as nat, w as nat);
    }
    assert(padded_text(n as nat, w as nat).take(w as int) =~= padded_text(n as nat, w as nat));
}

/// The number of digits in the text of `n`.
fn digit_count_u64(n: u64) -> (r: u32)
    requires
        n < 10_000_000_000_000_000_000,
    ensures
        r == digit_count(n as nat),
        r <= 19,
{
    proof {
        reveal_with_fuel(pow10, 20);
        lemma_digit_count_bound(n as nat, 19);
    }
    let mut m = n;
    let mut c: u32 = 1;
    while m >= 10
        invariant
            c + digit_count(m as nat) - 1 == digit_count(n as nat),
            digit_count(n as nat) <= 19,
            c >= 1,
        decreases m,
    {
        m = m / 10;
        c = c + 1;
    }
    c
}

/// Appends the decimal text of `n` to `out`.
pub fn push_nat(out: &mut String, n: u64)
    requires
        n < 10_000_000_000_000_000_000,
    ensures
        final(out)@ == old(out)@ + nat_text(n as nat),
{
    proof {
        lemma_nat_text_padded(n as nat);
    }
    let w = digit_count_u64(n);
    push_padded(out, n, w);
}

/// The length of the sign of a number text: one for a leading `-` or `+`.
pub open spec fn sign_len(t: Seq<char>) -> int {
    if t.len() > 0 && (t[0] == '-' || t[0] == '+') {
        1
    } else {
        0
    }
}

/// The sign of a number text, as a factor.
pub open spec fn text_sign(t: Seq<char>) -> int {
    if t.len() > 0 && t[0] == '-' {
        -1
    } else {
        1
    }
}

/// The end of the run of digits of `t` that starts at `i`.
pub open spec fn digits_end(t: Seq<char>, i: int) -> int
    decreases t.len() - i,
{
    if i < 0 || i >= t.len() || !is_digit(t[i]) {
        i
    } else {
        digits_end(t, i + 1)
    }
}

/// Where the integer digits of a number text end.
pub open spec fn int_end(t: Seq<char>) -> int {
    digits_end(t, sign_len(t))
}

pub open spec fn has_point(t: Seq<char>) -> bool {
    int_end(t) < t.len() && t[int_end(t)] == '.'
}

/// Where the fraction digits of a number text start.
pub open spec fn frac_start(t: Seq<char>) -> int {
    if has_point(t) {
        int_end(t) + 1
    } else {
        int_end(t)
    }
}

pub open spec fn frac_end(t: Seq<char>) -> int {
    digits_end(t, frac_start(t))
}

pub open spec fn has_exponent(t: Seq<char>) -> bool {
    frac_end(t) < t.len() && (t[frac_end(t)] == 'e' || t[frac_end(t)] == 'E')
}

pub open spec fn exp_sign_len(t: Seq<char>) -> int {
    if has_exponent(t) && frac_end(t) + 1 < t.len() && (t[frac_end(t) + 1] == '-' || t[
        frac_end(t) + 1
    ] == '+') {
        1
    } else {
        0
    }
}

pub open spec fn exp_negative(t: Seq<char>) -> bool {
    exp_sign_len(t) == 1 && t[frac_end(t) + 1] == '-'
}

/// Where the exponent digits of a number text start.
pub open spec fn exp_start(t: Seq<char>) -> int {
    if has_exponent(t) {
        frac_end(t) + 1 + exp_sign_len(t)
    } else {
        frac_end(t)
    }
}

pub open spec fn exp_end(t: Seq<char>) -> int {
    digits_end(t, exp_start(t))
}

/// Whether `t` reads `[+-]?digits*(.digits*)?([eE][+-]?digits)?` with at least
/// one digit before the exponent.
pub open spec fn is_number_text(t: Seq<char>) -> bool {
    &&& (int_end(t) > sign_len(t) || frac_end(t) > frac_start(t))
    &&& exp_end(t) == t.len()
    &&& (has_exponent(t) ==> exp_end(t) > exp_start(t))
}

pub open spec fn int_digits(t: Seq<char>) -> Seq<char> {
    t.subrange(sign_len(t), int_end(t))
}

pub open spec fn frac_digits(t: Seq<char>) -> Seq<char> {
    t.subrange(frac_start(t), frac_end(t))
}

pub open spec fn exp_digits(t: Seq<char>) -> Seq<char> {
    t.subrange(exp_start(t), exp_end(t))
}

/// `s` without its trailing `0` digits.
pub open spec fn trim_trailing_zeros(s: Seq<char>) -> Seq<char>
    decreases s.len(),
{
    if s.len() > 0 && s.last() == '0' {
        trim_trailing_zeros(s.drop_last())
    } else {
        s
    }
}

/// The digits of a number text before its exponent, without trailing zeros.
pub open spec fn mantissa_digits(t: Seq<char>) -> Seq<char> {
    trim_trailing_zeros(int_digits(t) + frac_digits(t))
}

/// The digits of a number text before its exponent and without trailing
/// zeros, read as one integer.
pub open spec fn number_mantissa(t: Seq<char>) -> int {
    digits_value(mantissa_digits(t))
}

/// The power of ten that the mantissa is multiplied by.
pub open spec fn number_shift(t: Seq<char>) -> int {
    (if exp_negative(t) {
        -digits_value(exp_digits(t))
    } else {
        digits_value(exp_digits(t))
    }) - frac_digits(t).len() + ((int_digits(t) + frac_digits(t)).len() - mantissa_digits(
        t,
    ).len())
}

/// The precision a number text asks for: the digits after the `.`.
pub open spec fn number_precision(t: Seq<char>) -> nat {
    frac_digits(t).len()
}

/// The sizes that reading a number text is bounded by: a mantissa, without
/// trailing zeros, below `10^37`, and an exponent and a fraction of fewer than
/// 100000.
pub open spec fn within_limits(t: Seq<char>) -> bool {
    &&& number_mantissa(t) < pow10(37)
    &&& digits_value(exp_digits(t)) < 100000
    &&& frac_digits(t).len() < 100000
}

pub proof fn lemma_digits_value_concat(a: Seq<char>, c: Seq<char>)
    ensures
        digits_value(a + c) == digits_value(a) * pow10(c.len()) + digits_value(c),
    decreases c.len(),
{
    if c.len() == 0 {
        assert(a + c =~= a);
        assert(pow10(0) == 1);
    } else {
        lemma_digits_value_concat(a, c.drop_last());
        assert((a + c).drop_last() =~= a + c.drop_last());
        assert((a + c).last() == c.last());
        let x = digits_value(a);
        let y = pow10((c.len() - 1) as nat);
        let z = digits_value(c.drop_last());
        assert(pow10(c.len()) == 10 * y);
        assert((x * y + z) * 10 == x * (10 * y) + z * 10) by (nonlinear_arith);
    }
}

pub proof fn lemma_digits_value_bound(s: Seq<char>)
    requires
        all_digits(s),
    ensures
        0 <= digits_value(s) < pow10(s.len()),
    decreases s.len(),
{
    if s.len() > 0 {
        let r = s.drop_last();
        assert(all_digits(r)) by {
            assert forall|i: int| 0 <= i < r.len() implies is_digit(#[trigger] r[i]) by {
                assert(r[i] == s[i]);
            }
        }
        lemma_digits_value_bound(r);
        assert(is_digit(s[s.len() - 1]));
        assert(pow10(s.len()) == 10 * pow10((s.len() - 1) as nat));
    }
}

/// The characters of `s` with every `_` left out.
pub fn strip_underscores_exec(s: &str) -> (r: Vec<char>)
    ensures
        r@ == strip_underscores(s@),
{
    let n = s.unicode_len();
    let mut out: Vec<char> = Vec::new();
    let mut i: usize = 0;
    while i < n
        invariant
            i <= n == s@.len(),
            out@ == strip_underscores(s@.take(i as int)),
        decreases n - i,
    {
        let c = s.get_char(i);
        assert(s@.take(i + 1).drop_last() =~= s@.take(i as int));
        if c != '_' {
            out.push(c);
        }
        i = i + 1;
    }
    assert(s@.take(n as int) =~= s@);
    out
}

pub fn is_digit_exec(c: char) -> (r: bool)
    ensures
        r == is_digit(c),
{
    c >= '0' && c <= '9'
}

pub fn digit_value_exec(c: char) -> (r: u64)
    requires
        is_digit(c),
    ensures
        r == digit_value(c),
        r < 10,
{
    ((c as u32) - ('0' as u32)) as u64
}


proof fn lemma_all_digits_drop_last(s: Seq<char>)
    requires
        all_digits(s),
        s.len() > 0,
    ensures
        all_digits(s.drop_last()),
        is_digit(s.last()),
{
    assert forall|i: int| 0 <= i < s.drop_last().len() implies is_digit(#[trigger] s.drop_last()[i]) by {
        assert(s.drop_last()[i] == s[i]);
    }
}

/// The `w` digits of a run of `w` digits print back as that run.
pub proof fn lemma_padded_of_digits(s: Seq<char>)
    requires
        all_digits(s),
    ensures
        padded_text(digits_value(s) as nat, s.len()) == s,
    decreases s.len(),
{
    if s.len() > 0 {
        let r = s.drop_last();
        lemma_all_digits_drop_last(s);
        lemma_padded_of_digits(r);
        lemma_digits_value_bound(r);
        let d = digit_value(s.last());
        lemma_digit_round_trip(s.last());
        let v = digits_value(s);
        assert(v / 10 == digits_value(r) && v % 10 == d);
        assert(s =~= r.push(s.last()));
    }
}

/// A run of digits without a redundant leading zero is the text of its value.
pub proof fn lemma_nat_text_of_digits(s: Seq<char>)
    requires
        all_digits(s),
        s.len() >= 1,
        s.len() == 1 || s[0] != '0',
    ensures
        nat_text(digits_value(s) as nat) == s,
        s.len() > 1 ==> digits_value(s) >= 10,
    decreases s.len(),
{
    let r = s.drop_last();
    lemma_all_digits_drop_last(s);
    lemma_digits_value_bound(r);
    lemma_digit_round_trip(s.last());
    let d = digit_value(s.last());
    let v = digits_value(s);
    if s.len() == 1 {
        assert(r.len() == 0);
        assert(v == d);
        assert(nat_text(v as nat) =~= s);
    } else {
        assert(r[0] == s[0]);
        lemma_nat_text_of_digits(r);
        if r.len() == 1 {
            lemma_digit_round_trip(r[0]);
            assert(r.drop_last().len() == 0);
            assert(digits_value(r.drop_last()) == 0);
            assert(r.last() == r[0]);
            assert(digits_value(r) == digit_value(r[0]));
            assert(digits_value(r) >= 1);
        }
        assert(v / 10 == digits_value(r) && v % 10 == d);
        assert(s =~= r.push(s.last()));
    }
}

/// A run of digits from `i` to `j` that stops at `j` ends where `digits_end` says.
pub proof fn lemma_digits_end_at(t: Seq<char>, i: int, j: int)
    requires
        0 <= i <= j <= t.len(),
        forall|x: int| i <= x < j ==> is_digit(#[trigger] t[x]),
        j == t.len() || !is_digit(t[j]),
    ensures
        digits_end(t, i) == j,
    decreases j - i,
{
    if i < j {
        lemma_digits_end_at(t, i + 1, j);
    }
}

/// The end of the run of digits of `t` that starts at `i`, with the run's
/// digits all checked.
pub fn digits_end_exec(t: &Vec<char>, i: usize) -> (r: usize)
    requires
        i <= t.len(),
    ensures
        r == digits_end(t@, i as int),
        i <= r <= t.len(),
        all_digits(t@.subrange(i as int, r as int)),
{
    let n = t.len();
    let mut j = i;
    while j < n && is_digit_exec(t[j])
        invariant
            i <= j <= n == t.len(),
            digits_end(t@, i as int) == digits_end(t@, j as int),
            forall|x: int| i <= x < j ==> is_digit(#[trigger] t@[x]),
        decreases n - j,
    {
        j = j + 1;
    }
    assert(all_digits(t@.subrange(i as int, j as int))) by {
        assert forall|x: int| 0 <= x < j - i implies is_digit(
            #[trigger] t@.subrange(i as int, j as int)[x],
        ) by {
            assert(t@.subrange(i as int, j as int)[x] == t@[i + x]);
        }
    }
    j
}

/// `v` held below `cap`: `cap` stands for every value at least `cap`.
pub open spec fn capped(v: int, cap: int) -> int {
    if v < cap {
        v
    } else {
        cap
    }
}

/// Reads the digits of `t` from `from` to `to` after the capped value `acc`
/// of the digits before them.
pub fn accumulate_digits(t: &Vec<char>, from: usize, to: usize, acc: u128, cap: u128, Ghost(
    before,
): Ghost<int>) -> (r: u128)
    requires
        from <= to <= t.len(),
        all_digits(t@.subrange(from as int, to as int)),
        1 <= cap <= pow10(37),
        before >= 0,
        acc == capped(before, cap as int),
    ensures
        r == capped(
            before * pow10((to - from) as nat) + digits_value(t@.subrange(from as int, to as int)),
            cap as int,
        ),
{
    let mut r = acc;
    let mut j = from;
    proof {
        lemma_pow10_38();
        assert(t@.subrange(from as int, from as int) =~= Seq::<char>::empty());
        assert(pow10(0) == 1);
        assert(before * pow10(0) == before);
        assert(pow10(38) == 10 * pow10(37));
    }
    while j < to
        invariant
            from <= j <= to <= t.len(),
            all_digits(t@.subrange(from as int, to as int)),
            1 <= cap <= pow10(37),
            pow10(37) == 10_000_000_000_000_000_000_000_000_000_000_000_000,
            before >= 0,
            r == capped(
                before * pow10((j - from) as nat) + digits_value(
                    t@.subrange(from as int, j as int),
                ),
                cap as int,
            ),
        decreases to - j,
    {
        let ghost prev = t@.subrange(from as int, j as int);
        let ghost old_true = before * pow10((j - from) as nat) + digits_value(prev);
        assert(t@.subrange(from as int, to as int)[j - from] == t@[j as int]);
        let d = digit_value_exec(t[j]);
        assert(t@.subrange(from as int, j + 1).drop_last() =~= prev);
        assert(t@.subrange(from as int, j + 1).last() == t@[j as int]);
        proof {
            assert(all_digits(prev)) by {
                assert forall|x: int| 0 <= x < prev.len() implies is_digit(#[trigger] prev[x]) by {
                    assert(prev[x] == t@.subrange(from as int, to as int)[x]);
                }
            }
            lemma_digits_value_bound(prev);
            lemma_pow10_positive((j - from) as nat);
            let b = before;
            let pw = pow10((j - from) as nat);
            assert(pow10((j + 1 - from) as nat) == 10 * pw);
            assert((b * pw + digits_value(prev)) * 10 + d == b * (10 * pw) + (digits_value(prev)
                * 10 + d)) by (nonlinear_arith);
            assert(b * pw >= 0) by (nonlinear_arith)
                requires
                    b >= 0,
                    pw >= 1,
            ;
        }
        if r < cap {
            let nv = r * 10 + d as u128;
            r = if nv < cap {
                nv
            } else {
                cap
            };
        }
        j = j + 1;
    }
    r
}

pub proof fn lemma_padded_digits(n: nat, w: nat)
    ensures
        all_digits(padded_text(n, w)),
    decreases w,
{
    if w > 0 {
        lemma_padded_digits(n / 10, (w - 1) as nat);
        let r = padded_text(n / 10, (w - 1) as nat);
        let t = padded_text(n, w);
        assert forall|i: int| 0 <= i < t.len() implies is_digit(#[trigger] t[i]) by {
            if i < r.len() {
                assert(t[i] == r[i]);
            }
        }
    }
}

pub proof fn lemma_nat_text_digits(n: nat)
    ensures
        all_digits(nat_text(n)),
{
    lemma_nat_text_padded(n);
    lemma_padded_digits(n, digit_count(n));
}

/// Dropping trailing zeros keeps a prefix, and divides the value by a power of ten.
pub proof fn lemma_trim_trailing_zeros(s: Seq<char>)
    requires
        all_digits(s),
    ensures
        trim_trailing_zeros(s).len() <= s.len(),
        trim_trailing_zeros(s) =~= s.take(trim_trailing_zeros(s).len() as int),
        digits_value(s) == digits_value(trim_trailing_zeros(s)) * pow10(
            (s.len() - trim_trailing_zeros(s).len()) as nat,
        ),
    decreases s.len(),
{
    if s.len() > 0 && s.last() == '0' {
        let r = s.drop_last();
        lemma_all_digits_drop_last(s);
        lemma_trim_trailing_zeros(r);
        let tr = trim_trailing_zeros(r);
        assert(tr =~= s.take(tr.len() as int));
        let k = (r.len() - tr.len()) as nat;
        assert(pow10(k + 1) == 10 * pow10(k));
        assert((s.len() - tr.len()) as nat == k + 1);
        let x = digits_value(tr);
        let y = pow10(k);
        assert(s.drop_last() == r);
        assert(digit_value(s.last()) == 0);
        assert(digits_value(s) == digits_value(r) * 10);
        assert((x * y) * 10 == x * (10 * y)) by (nonlinear_arith);
        assert(trim_trailing_zeros(s) == tr);
        assert(digits_value(s) == x * pow10(k + 1));
    } else {
        assert(s =~= s.take(s.len() as int));
        assert(trim_trailing_zeros(s) == s);
        let x = digits_value(s);
        let one = pow10(0);
        assert(x * one == x) by (nonlinear_arith)
            requires
                one == 1,
        ;
    }
}

/// The length of `trim_trailing_zeros(v)`.
pub fn trimmed_len(v: &Vec<char>) -> (r: usize)
    ensures
        r == trim_trailing_zeros(v@).len(),
{
    let mut k = v.len();
    assert(v@.take(k as int) =~= v@);
    while k > 0 && v[k - 1] == '0'
        invariant
            k <= v.len(),
            trim_trailing_zeros(v@.take(k as int)) == trim_trailing_zeros(v@),
        decreases k,
    {
        assert(v@.take(k as int).drop_last() =~= v@.take(k - 1));
        k = k - 1;
    }
    if k > 0 {
        assert(v@.take(k as int).last() == v@[k - 1]);
    }
    k
}

/// The digits of `t` from `a` to `b`, then from `c` to `d`, in one vector.
pub fn join_ranges(t: &Vec<char>, a: usize, b: usize, c: usize, d: usize) -> (r: Vec<char>)
    requires
        a <= b <= t.len(),
        c <= d <= t.len(),
    ensures
        r@ == t@.subrange(a as int, b as int) + t@.subrange(c as int, d as int),
{
    let mut r: Vec<char> = Vec::new();
    let mut i = a;
    while i < b
        invariant
            a <= i <= b <= t.len(),
            r@ == t@.subrange(a as int, i as int),
        decreases b - i,
    {
        r.push(t[i]);
        i = i + 1;
        assert(r@ =~= t@.subrange(a as int, i as int));
    }
    let mut j = c;
    while j < d
        invariant
            a <= b <= t.len(),
            c <= j <= d <= t.len(),
            r@ == t@.subrange(a as int, b as int) + t@.subrange(c as int, j as int),
        decreases d - j,
    {
        r.push(t[j]);
        j = j + 1;
        assert(r@ =~= t@.subrange(a as int, b as int) + t@.subrange(c as int, j as int));
    }
    r
}

} // verus!
