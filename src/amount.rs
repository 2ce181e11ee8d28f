//! Cleaning, parsing and adding the four amount components of a row.
//!
//! Amounts are decimals rather than binary floating point: `0.1` and `0.2`
//! add up to `0.3`, and a total that nets to zero is exactly zero. Each
//! component keeps its first `MAX_DIGITS` significant digits, so a longer
//! number is read by its value, rounded toward zero.
use vstd::prelude::*;

use crate::table::cell_view;

verus! {

/// A character that survives cleaning: an ASCII digit, `.` or `-`.
pub open spec fn is_amount_char(c: char) -> bool {
    ('0' <= c && c <= '9') || c == '.' || c == '-'
}

/// The text left once every character other than an ASCII digit, `.` or `-`
/// has been dropped, the rest kept in order.
pub open spec fn clean_spec(s: Seq<char>) -> Seq<char>
    decreases s.len(),
{
    if s.len() == 0 {
        s
    } else if is_amount_char(s.last()) {
        clean_spec(s.drop_last()).push(s.last())
    } else {
        clean_spec(s.drop_last())
    }
}

/// Keeps only the ASCII digits, `.` and `-` of `text`, in order
/// (`"$1,250.00 "` becomes `"1250.00"`).
pub fn clean_numeric_text(text: &str) -> (r: String)
    ensures
        r@ == clean_spec(text@),
{
    let n = text.unicode_len();
    let mut out = String::new();
    let mut i: usize = 0;
    while i < n
        invariant
            n == text@.len(),
            i <= n,
            out@ == clean_spec(text@.take(i as int)),
        decreases n - i,
    {
        let c = text.get_char(i);
        assert(text@.take(i + 1).drop_last() =~= text@.take(i as int));
        if ('0' <= c && c <= '9') || c == '.' || c == '-' {
            let piece = text.substring_char(i, i + 1);
            out.append(piece);
            assert(piece@ =~= seq![c]);
        }
        i = i + 1;
    }
    assert(text@.take(n as int) =~= text@);
    out
}


/// Ten to the power `n`.
pub open spec fn pow10(n: nat) -> int
    decreases n,
{
    if n == 0 {
        1
    } else {
        10 * pow10((n - 1) as nat)
    }
}

/// An ASCII decimal digit.
pub open spec fn is_digit(c: char) -> bool {
    '0' <= c && c <= '9'
}

/// The number of ASCII digits in `s`.
pub open spec fn digit_count(s: Seq<char>) -> nat
    decreases s.len(),
{
    if s.len() == 0 {
        0
    } else if is_digit(s.last()) {
        digit_count(s.drop_last()) + 1
    } else {
        digit_count(s.drop_last())
    }
}

/// The number of `.` characters in `s`.
pub open spec fn point_count(s: Seq<char>) -> nat
    decreases s.len(),
{
    if s.len() == 0 {
        0
    } else if s.last() == '.' {
        point_count(s.drop_last()) + 1
    } else {
        point_count(s.drop_last())
    }
}

/// The digits of `s`, read in order as one base-ten integer (any `.` skipped).
pub open spec fn digits_value(s: Seq<char>) -> int
    decreases s.len(),
{
    if s.len() == 0 {
        0
    } else if is_digit(s.last()) {
        10 * digits_value(s.drop_last()) + (s.last() as int - '0' as int)
    } else {
        digits_value(s.drop_last())
    }
}

/// The number of digits that follow a `.` in `s`.
pub open spec fn fraction_digits(s: Seq<char>) -> nat
    decreases s.len(),
{
    if s.len() == 0 {
        0
    } else if is_digit(s.last()) && point_count(s.drop_last()) > 0 {
        fraction_digits(s.drop_last()) + 1
    } else {
        fraction_digits(s.drop_last())
    }
}

/// Whether `s` opens with a minus sign.
pub open spec fn has_sign(s: Seq<char>) -> bool {
    s.len() > 0 && s[0] == '-'
}

/// `s` without its leading minus sign, if it has one.
pub open spec fn unsigned_part(s: Seq<char>) -> Seq<char> {
    if has_sign(s) {
        s.drop_first()
    } else {
        s
    }
}

/// The most significant digits that a component amount keeps; the digits
/// after them are dropped, rounding the amount toward zero.
pub const MAX_DIGITS: usize = 18;

/// A decimal number written as an optional `-`, then digits with at most one
/// `.` among them, with at least one digit (`"12"`, `"-0.5"`, `".5"`, `"5."`).
pub open spec fn is_number_text(s: Seq<char>) -> bool {
    let u = unsigned_part(s);
    &&& forall|i: int| 0 <= i < u.len() ==> is_digit(#[trigger] u[i]) || u[i] == '.'
    &&& point_count(u) <= 1
    &&& 1 <= digit_count(u)
}

/// How many trailing digits of `n` must go for it to have at most
/// `MAX_DIGITS` digits.
pub open spec fn excess_digits(n: nat) -> nat
    decreases n,
{
    if n < 1_000_000_000_000_000_000 {
        0
    } else {
        1 + excess_digits(n / 10)
    }
}

/// `n` cut to its first `MAX_DIGITS` digits.
pub open spec fn significant(n: nat) -> nat
    decreases n,
{
    if n < 1_000_000_000_000_000_000 {
        n
    } else {
        significant(n / 10)
    }
}

/// A decimal amount: `mantissa` divided by ten to the power `scale`. A
/// negative scale stands for trailing zeros (`5` at scale `-2` is 500).
#[derive(Clone, Copy, Debug, PartialEq, Eq, Structural)]
pub struct Decimal {
    pub mantissa: i128,
    pub scale: i128,
}

impl Decimal {
    /// The amount zero.
    pub open spec fn zero_spec() -> Decimal {
        Decimal { mantissa: 0, scale: 0 }
    }

    /// The amount zero.
    pub fn zero() -> (r: Decimal)
        ensures
            r == Decimal::zero_spec(),
    {
        Decimal { mantissa: 0, scale: 0 }
    }

    /// A value that can stand as one component of a row's amount: at most
    /// `MAX_DIGITS` significant digits, and a scale no larger than a text's
    /// length.
    pub open spec fn is_component(self) -> bool {
        &&& -pow10(MAX_DIGITS as nat) < self.mantissa < pow10(MAX_DIGITS as nat)
        &&& -(u64::MAX as int) <= self.scale <= u64::MAX as int
    }

    /// Whether the amount is exactly zero.
    pub fn is_zero(&self) -> (r: bool)
        ensures
            r == (self.mantissa == 0),
    {
        self.mantissa == 0
    }
}

/// What a text reads as, if it is a number: its first `MAX_DIGITS`
/// significant digits as the mantissa, negated under a leading `-`, at the
/// scale that puts the point where the text has it. A number of more digits
/// is rounded toward zero.
pub open spec fn parse_spec(s: Seq<char>) -> Option<Decimal> {
    if is_number_text(s) {
        let u = unsigned_part(s);
        let n = digits_value(u) as nat;
        let m = if has_sign(s) { -significant(n) } else { significant(n) as int };
        Some(Decimal { mantissa: m as i128, scale: (fraction_digits(u) - excess_digits(n)) as i128 })
    } else {
        None
    }
}

proof fn lemma_pow10_max()
    ensures
        pow10(MAX_DIGITS as nat) == 1_000_000_000_000_000_000,
{
    reveal_with_fuel(pow10, 19);
}

proof fn lemma_pow10_positive(n: nat)
    ensures
        pow10(n) >= 1,
    decreases n,
{
    if n > 0 {
        lemma_pow10_positive((n - 1) as nat);
    }
}

proof fn lemma_pow10_monotone(a: nat, b: nat)
    requires
        a <= b,
    ensures
        pow10(a) <= pow10(b),
    decreases b,
{
    if a < b {
        lemma_pow10_monotone(a, (b - 1) as nat);
        lemma_pow10_positive((b - 1) as nat);
    }
}

/// Counting over a prefix never gives more than counting over the whole.
proof fn lemma_counts_prefix(s: Seq<char>, k: int)
    requires
        0 <= k <= s.len(),
    ensures
        digit_count(s.take(k)) <= digit_count(s),
        point_count(s.take(k)) <= point_count(s),
    decreases s.len(),
{
    if k < s.len() {
        assert(s.drop_last().take(k) =~= s.take(k));
        lemma_counts_prefix(s.drop_last(), k);
    } else {
        assert(s.take(k) =~= s);
    }
}

proof fn lemma_digits_value_bound(s: Seq<char>)
    ensures
        0 <= digits_value(s) < pow10(digit_count(s)),
    decreases s.len(),
{
    if s.len() > 0 {
        lemma_digits_value_bound(s.drop_last());
    }
}

proof fn lemma_significant_bound(n: nat)
    ensures
        significant(n) < pow10(MAX_DIGITS as nat),
        n < pow10(MAX_DIGITS as nat) ==> excess_digits(n) == 0 && significant(n) == n,
    decreases n,
{
    lemma_pow10_max();
    if n >= pow10(MAX_DIGITS as nat) {
        lemma_significant_bound(n / 10);
    }
}

/// Reads `text` as a decimal number (see `is_number_text`), keeping its first
/// `MAX_DIGITS` significant digits; `None` where it is no number, so that the
/// caller can count it as absent.
pub fn parse_amount(text: &str) -> (r: Option<Decimal>)
    ensures
        r == parse_spec(text@),
        r matches Some(d) ==> d.is_component(),
{
    let n = text.unicode_len();
    let ghost s = text@;
    let negative = n > 0 && text.get_char(0) == '-';
    let start: usize = if negative { 1 } else { 0 };
    let ghost u = unsigned_part(s);
    assert(u =~= s.subrange(start as int, n as int));
    proof {
        lemma_pow10_max();
    }
    let mut mant: i128 = 0;
    let mut dropped: usize = 0;
    let mut digits: usize = 0;
    let mut points: usize = 0;
    let mut frac: usize = 0;
    let mut i: usize = start;
    while i < n
        invariant
            n == s.len(),
            s == text@,
            u =~= s.subrange(start as int, n as int),
            u == unsigned_part(s),
            start <= i <= n,
            pow10(MAX_DIGITS as nat) == 1_000_000_000_000_000_000,
            forall|j: int| 0 <= j < i - start ==> is_digit(#[trigger] u[j]) || u[j] == '.',
            points == point_count(u.take(i - start)),
            points <= 1,
            digits == digit_count(u.take(i - start)),
            digits_value(u.take(i - start)) >= 0,
            mant == significant(digits_value(u.take(i - start)) as nat),
            dropped == excess_digits(digits_value(u.take(i - start)) as nat),
            dropped > 0 ==> digits_value(u.take(i - start)) >= pow10(MAX_DIGITS as nat),
            frac == fraction_digits(u.take(i - start)),
            frac <= digits <= i - start,
            dropped <= digits,
        decreases n - i,
    {
        let c = text.get_char(i);
        let ghost k = i - start;
        let ghost before = digits_value(u.take(k)) as nat;
        assert(u[k] == c);
        assert(u.take(k + 1).drop_last() =~= u.take(k));
        assert(u.take(k + 1).last() == c);
        if '0' <= c && c <= '9' {
            let d = (c as u32 - '0' as u32) as i128;
            let ghost after = digits_value(u.take(k + 1)) as nat;
            assert(after == 10 * before + d);
            assert(after / 10 == before);
            proof {
                lemma_significant_bound(before);
            }
            if dropped == 0 && mant < 100_000_000_000_000_000 {
                mant = mant * 10 + d;
                proof {
                    lemma_significant_bound(after);
                }
            } else {
                assert(after >= pow10(MAX_DIGITS as nat));
                dropped = dropped + 1;
            }
            digits = digits + 1;
            if points > 0 {
                frac = frac + 1;
            }
        } else if c == '.' {
            if points == 1 {
                proof {
                    assert(point_count(u.take(k + 1)) == point_count(u.take(k)) + 1);
                    lemma_counts_prefix(u, k + 1);
                }
                return None;
            }
            points = points + 1;
        } else {
            assert(!(is_digit(unsigned_part(s)[k]) || unsigned_part(s)[k] == '.'));
            return None;
        }
        i = i + 1;
    }
    assert(u.take(n - start) =~= u);
    if digits == 0 {
        return None;
    }
    proof {
        lemma_significant_bound(digits_value(u) as nat);
    }
    let m = if negative { -mant } else { mant };
    Some(Decimal { mantissa: m, scale: frac as i128 - dropped as i128 })
}

/// A cell read as a number: an absent cell, or one that is no number once
/// cleaned, gives `None`.
pub open spec fn coerce_spec(cell: Option<Seq<char>>) -> Option<Decimal> {
    match cell {
        Some(t) => parse_spec(clean_spec(t)),
        None => None,
    }
}

/// Cleans a cell and reads it as a number. A null cell stays absent, and so
/// does a cell that is no number once cleaned; nothing fails here.
pub fn coerce_cell(cell: &Option<String>) -> (r: Option<Decimal>)
    ensures
        r == coerce_spec(cell_view(*cell)),
        r matches Some(d) ==> d.is_component(),
{
    match cell {
        Some(t) => {
            let cleaned = clean_numeric_text(t.as_str());
            parse_amount(cleaned.as_str())
        },
        None => None,
    }
}

/// An absent component counts as zero.
pub open spec fn fill_spec(v: Option<Decimal>) -> Decimal {
    match v {
        Some(d) => d,
        None => Decimal::zero_spec(),
    }
}

/// Turns an absent component into zero, and leaves a present one as it is.
pub fn fill_absent(v: Option<Decimal>) -> (r: Decimal)
    ensures
        r == fill_spec(v),
{
    match v {
        Some(d) => d,
        None => Decimal::zero(),
    }
}

/// The finest scale among `x` and the scale of `d`, where only non-zero
/// amounts count.
pub open spec fn finer(x: Option<i128>, d: Decimal) -> Option<i128> {
    if d.mantissa == 0 {
        x
    } else {
        match x {
            Some(v) => Some(if v >= d.scale { v } else { d.scale }),
            None => Some(d.scale),
        }
    }
}

/// The coarsest scale among `x` and the scale of `d`, where only non-zero
/// amounts count.
pub open spec fn coarser(x: Option<i128>, d: Decimal) -> Option<i128> {
    if d.mantissa == 0 {
        x
    } else {
        match x {
            Some(v) => Some(if v <= d.scale { v } else { d.scale }),
            None => Some(d.scale),
        }
    }
}

/// The scale of a sum of four amounts: the finest of their scales, but no
/// more than `MAX_DIGITS` finer than the coarsest (zero amounts aside).
pub open spec fn sum_scale(a: Decimal, b: Decimal, c: Decimal, d: Decimal) -> i128 {
    let fine = finer(finer(finer(finer(None, a), b), c), d);
    let coarse = coarser(coarser(coarser(coarser(None, a), b), c), d);
    match (fine, coarse) {
        (Some(f), Some(k)) => if f <= k + MAX_DIGITS {
            f
        } else {
            (k + MAX_DIGITS) as i128
        },
        _ => 0,
    }
}

/// `m` divided by `p`, rounded toward zero.
pub open spec fn div_toward_zero(m: int, p: int) -> int {
    if m >= 0 {
        m / p
    } else {
        -((-m) / p)
    }
}

/// The mantissa that `d` has at `scale`: exact at a scale at least as fine as
/// its own, rounded toward zero at a coarser one.
pub open spec fn aligned(d: Decimal, scale: int) -> int {
    if d.scale <= scale {
        d.mantissa * pow10((scale - d.scale) as nat)
    } else {
        div_toward_zero(d.mantissa as int, pow10((d.scale - scale) as nat))
    }
}

/// The sum of four amounts at their `sum_scale`: exact where their scales
/// lie within `MAX_DIGITS` of each other, else the finest digits of the
/// smallest are dropped.
pub open spec fn sum_spec(a: Decimal, b: Decimal, c: Decimal, d: Decimal) -> Decimal {
    let s = sum_scale(a, b, c, d) as int;
    Decimal {
        mantissa: (aligned(a, s) + aligned(b, s) + aligned(c, s) + aligned(d, s)) as i128,
        scale: s as i128,
    }
}

fn finer_exec(x: Option<i128>, d: Decimal) -> (r: Option<i128>)
    ensures
        r == finer(x, d),
{
    if d.mantissa == 0 {
        x
    } else {
        match x {
            Some(v) => Some(if v >= d.scale { v } else { d.scale }),
            None => Some(d.scale),
        }
    }
}

fn coarser_exec(x: Option<i128>, d: Decimal) -> (r: Option<i128>)
    ensures
        r == coarser(x, d),
{
    if d.mantissa == 0 {
        x
    } else {
        match x {
            Some(v) => Some(if v <= d.scale { v } else { d.scale }),
            None => Some(d.scale),
        }
    }
}

/// Ten to the power `n`, for `n` up to `MAX_DIGITS`.
fn pow10_exec(n: u32) -> (r: i128)
    requires
        n <= MAX_DIGITS,
    ensures
        r == pow10(n as nat),
        1 <= r <= pow10(MAX_DIGITS as nat),
{
    let mut r: i128 = 1;
    let mut i: u32 = 0;
    proof {
        lemma_pow10_max();
    }
    while i < n
        invariant
            i <= n <= MAX_DIGITS,
            r == pow10(i as nat),
            pow10(MAX_DIGITS as nat) == 1_000_000_000_000_000_000,
        decreases n - i,
    {
        proof {
            lemma_pow10_monotone((i + 1) as nat, MAX_DIGITS as nat);
            assert(pow10((i + 1) as nat) == 10 * pow10(i as nat));
            lemma_pow10_positive(i as nat);
        }
        r = r * 10;
        i = i + 1;
    }
    proof {
        lemma_pow10_positive(n as nat);
        lemma_pow10_monotone(n as nat, MAX_DIGITS as nat);
    }
    r
}

/// The mantissa of `d` at `scale` (see `aligned`).
fn align(d: Decimal, scale: i128) -> (r: i128)
    requires
        d.is_component(),
        -(u64::MAX as int) <= scale <= u64::MAX as int + MAX_DIGITS,
        d.mantissa != 0 && d.scale <= scale ==> scale - d.scale <= MAX_DIGITS,
    ensures
        r == aligned(d, scale as int),
        -1_000_000_000_000_000_000_000_000_000_000_000_000 < r
            < 1_000_000_000_000_000_000_000_000_000_000_000_000,
{
    proof {
        lemma_pow10_max();
    }
    let m = d.mantissa;
    if m == 0 {
        proof {
            if d.scale > scale {
                lemma_pow10_positive((d.scale - scale) as nat);
            }
        }
        return 0;
    }
    if d.scale <= scale {
        let f = pow10_exec((scale - d.scale) as u32);
        proof {
            lemma_aligned_bound(d, scale as int);
        }
        m * f
    } else {
        let shift = d.scale - scale;
        let mag: i128 = if m >= 0 { m } else { -m };
        if shift > MAX_DIGITS as i128 {
            proof {
                lemma_pow10_monotone(MAX_DIGITS as nat, shift as nat);
                let p = pow10(shift as nat);
                let x = mag as int;
                assert(0 <= x < p ==> x / p == 0) by (nonlinear_arith);
            }
            0
        } else {
            let p = pow10_exec(shift as u32);
            proof {
                let x = mag as int;
                let q = p as int;
                assert(0 <= x && 1 <= q ==> 0 <= x / q <= x) by (nonlinear_arith);
            }
            if m >= 0 {
                mag / p
            } else {
                -(mag / p)
            }
        }
    }
}

/// Adds four component amounts at their `sum_scale`.
pub fn add_components(a: Decimal, b: Decimal, c: Decimal, d: Decimal) -> (r: Decimal)
    requires
        a.is_component(),
        b.is_component(),
        c.is_component(),
        d.is_component(),
    ensures
        r == sum_spec(a, b, c, d),
{
    let fine = finer_exec(finer_exec(finer_exec(finer_exec(None, a), b), c), d);
    let coarse = coarser_exec(coarser_exec(coarser_exec(coarser_exec(None, a), b), c), d);
    let s: i128 = match (fine, coarse) {
        (Some(f), Some(k)) => if f <= k + MAX_DIGITS as i128 {
            f
        } else {
            k + MAX_DIGITS as i128
        },
        _ => 0,
    };
    assert(s == sum_scale(a, b, c, d));
    let total = align(a, s) + align(b, s) + align(c, s) + align(d, s);
    Decimal { mantissa: total, scale: s }
}

/// A row's amount: its four components cleaned, read, with absent ones as
/// zero, and added.
pub open spec fn row_amount_spec(
    total: Option<Seq<char>>,
    tip: Option<Seq<char>>,
    tax: Option<Seq<char>>,
    fee: Option<Seq<char>>,
) -> Decimal {
    sum_spec(
        fill_spec(coerce_spec(total)),
        fill_spec(coerce_spec(tip)),
        fill_spec(coerce_spec(tax)),
        fill_spec(coerce_spec(fee)),
    )
}

/// The amount of a row from its total, tip, tax and fee cells.
pub fn row_amount(
    total: &Option<String>,
    tip: &Option<String>,
    tax: &Option<String>,
    fee: &Option<String>,
) -> (r: Decimal)
    ensures
        r == row_amount_spec(cell_view(*total), cell_view(*tip), cell_view(*tax), cell_view(*fee)),
{
    let a = fill_absent(coerce_cell(total));
    let b = fill_absent(coerce_cell(tip));
    let c = fill_absent(coerce_cell(tax));
    let d = fill_absent(coerce_cell(fee));
    proof {
        lemma_pow10_max();
    }
    add_components(a, b, c, d)
}


/// The character of a decimal digit.
pub open spec fn digit_char(d: int) -> char {
    if d == 0 {
        '0'
    } else if d == 1 {
        '1'
    } else if d == 2 {
        '2'
    } else if d == 3 {
        '3'
    } else if d == 4 {
        '4'
    } else if d == 5 {
        '5'
    } else if d == 6 {
        '6'
    } else if d == 7 {
        '7'
    } else if d == 8 {
        '8'
    } else {
        '9'
    }
}

/// The base-ten digits of `n`, most significant first, without leading zeros.
pub open spec fn nat_digits(n: nat) -> Seq<char>
    decreases n,
{
    if n < 10 {
        seq![digit_char(n as int)]
    } else {
        nat_digits(n / 10).push(digit_char((n % 10) as int))
    }
}

/// `ds` with zeros put in front until it is `width` long.
pub open spec fn zero_padded(ds: Seq<char>, width: nat) -> Seq<char> {
    if ds.len() >= width {
        ds
    } else {
        Seq::new((width - ds.len()) as nat, |i: int| '0') + ds
    }
}

/// The absolute value of `m`.
pub open spec fn magnitude(m: int) -> nat {
    if m < 0 {
        (-m) as nat
    } else {
        m as nat
    }
}

/// The digits of an amount with at least one before the point.
pub open spec fn padded_digits(d: Decimal) -> Seq<char> {
    zero_padded(nat_digits(magnitude(d.mantissa as int)), (d.scale + 1) as nat)
}

/// An amount as text: `-` when it is negative, the digits, and a `.` before
/// the last `scale` of them (`950` at scale 2 is `"9.50"`, `-5` at scale 1 is
/// `"-0.5"`), or `-scale` zeros after them at a negative scale (`5` at scale
/// -2 is `"500"`).
pub open spec fn decimal_text(d: Decimal) -> Seq<char> {
    let p = padded_digits(d);
    let k = p.len() - d.scale;
    let body = if d.scale < 0 {
        if d.mantissa == 0 {
            seq!['0']
        } else {
            nat_digits(magnitude(d.mantissa as int)) + Seq::new((-d.scale) as nat, |i: int| '0')
        }
    } else if d.scale == 0 {
        p
    } else {
        p.take(k) + seq!['.'] + p.skip(k)
    };
    if d.mantissa < 0 {
        seq!['-'] + body
    } else {
        body
    }
}

fn digit_of(d: u128) -> (c: char)
    requires
        d < 10,
    ensures
        c == digit_char(d as int),
{
    if d == 0 {
        '0'
    } else if d == 1 {
        '1'
    } else if d == 2 {
        '2'
    } else if d == 3 {
        '3'
    } else if d == 4 {
        '4'
    } else if d == 5 {
        '5'
    } else if d == 6 {
        '6'
    } else if d == 7 {
        '7'
    } else if d == 8 {
        '8'
    } else {
        '9'
    }
}

/// The one-character text of a digit character.
fn digit_text(c: char) -> (r: &'static str)
    requires
        is_digit(c),
    ensures
        r@ == seq![c],
{
    proof {
        reveal_strlit("0");
        reveal_strlit("1");
        reveal_strlit("2");
        reveal_strlit("3");
        reveal_strlit("4");
        reveal_strlit("5");
        reveal_strlit("6");
        reveal_strlit("7");
        reveal_strlit("8");
        reveal_strlit("9");
    }
    if c == '0' {
        "0"
    } else if c == '1' {
        "1"
    } else if c == '2' {
        "2"
    } else if c == '3' {
        "3"
    } else if c == '4' {
        "4"
    } else if c == '5' {
        "5"
    } else if c == '6' {
        "6"
    } else if c == '7' {
        "7"
    } else if c == '8' {
        "8"
    } else {
        "9"
    }
}

proof fn lemma_nat_digits_are_digits(n: nat)
    ensures
        forall|i: int| 0 <= i < nat_digits(n).len() ==> is_digit(#[trigger] nat_digits(n)[i]),
    decreases n,
{
    if n >= 10 {
        lemma_nat_digits_are_digits(n / 10);
        let front = nat_digits(n / 10);
        assert forall|i: int| 0 <= i < nat_digits(n).len() implies is_digit(
            #[trigger] nat_digits(n)[i],
        ) by {
            if i < front.len() {
                assert(nat_digits(n)[i] == front[i]);
            }
        }
    }
}

/// The digits of `n`, most significant first.
fn digits_of(n: u128) -> (r: Vec<char>)
    ensures
        r@ == nat_digits(n as nat),
{
    let mut rest = n;
    let mut out: Vec<char> = Vec::new();
    while rest >= 10
        invariant
            nat_digits(n as nat) == nat_digits(rest as nat) + out@,
        decreases rest,
    {
        let c = digit_of(rest % 10);
        let ghost before = out@;
        out.insert(0, c);
        assert(nat_digits(rest as nat) == nat_digits((rest / 10) as nat).push(c));
        assert(nat_digits(rest as nat) + before =~= nat_digits((rest / 10) as nat) + out@);
        rest = rest / 10;
    }
    let c = digit_of(rest);
    let ghost before = out@;
    out.insert(0, c);
    assert(nat_digits(rest as nat) + before =~= out@);
    out
}

impl Decimal {
    /// The amount as decimal text (see `decimal_text`).
    pub fn to_text(&self) -> (r: String)
        ensures
            r@ == decimal_text(*self),
    {
        let m = self.mantissa;
        let mag: u128 = if m < 0 {
            ((-(m + 1)) as u128) + 1
        } else {
            m as u128
        };
        assert(mag as nat == magnitude(m as int));
        let mut p = digits_of(mag);
        proof {
            lemma_nat_digits_are_digits(mag as nat);
            reveal_strlit("-");
            reveal_strlit(".");
            reveal_strlit("0");
        }
        let mut out = String::new();
        if m < 0 {
            out.append("-");
        }
        let ghost sign: Seq<char> = out@;
        assert(sign =~= (if m < 0 { seq!['-'] } else { Seq::<char>::empty() }));
        if self.scale < 0 {
            return self.text_with_trailing_zeros(p, out);
        }
        let ghost width: int = self.scale + 1;
        let ghost ds = p@;
        while (p.len() as i128) <= self.scale
            invariant
                width == self.scale + 1,
                ds.len() <= p.len(),
                p.len() <= width || p.len() == ds.len(),
                p@ == Seq::new((p.len() - ds.len()) as nat, |i: int| '0') + ds,
                forall|i: int| 0 <= i < p@.len() ==> is_digit(#[trigger] p@[i]),
            decreases width - p.len(),
        {
            p.insert(0, '0');
            assert(p@ =~= Seq::new((p.len() - ds.len()) as nat, |i: int| '0') + ds);
        }
        assert(p@ =~= padded_digits(*self));
        let ghost pd = p@;
        let ghost sign: Seq<char> = out@;
        let k: usize = p.len() - self.scale as usize;
        let mut j: usize = 0;
        while j < k
            invariant
                p@ == pd,
                k <= pd.len(),
                j <= k,
                forall|i: int| 0 <= i < pd.len() ==> is_digit(#[trigger] pd[i]),
                out@ == sign + pd.take(j as int),
            decreases k - j,
        {
            out.append(digit_text(p[j]));
            assert(pd.take(j + 1) =~= pd.take(j as int).push(pd[j as int]));
            j = j + 1;
        }
        if self.scale == 0 {
            assert(pd.take(k as int) =~= pd);
            return out;
        }
        out.append(".");
        let ghost head: Seq<char> = out@;
        assert(head == sign + pd.take(k as int) + seq!['.']);
        while j < p.len()
            invariant
                p@ == pd,
                k <= j <= pd.len(),
                forall|i: int| 0 <= i < pd.len() ==> is_digit(#[trigger] pd[i]),
                out@ == head + pd.subrange(k as int, j as int),
            decreases pd.len() - j,
        {
            out.append(digit_text(p[j]));
            assert(pd.subrange(k as int, j + 1) =~= pd.subrange(k as int, j as int).push(pd[j as int]));
            j = j + 1;
        }
        assert(pd.subrange(k as int, pd.len() as int) =~= pd.skip(k as int));
        assert(out@ =~= decimal_text(*self));
        out
    }

    /// The text of an amount at a negative scale: its digits, then `-scale`
    /// zeros (or `"0"` for zero), after `out`.
    fn text_with_trailing_zeros(&self, p: Vec<char>, out: String) -> (r: String)
        requires
            self.scale < 0,
            p@ == nat_digits(magnitude(self.mantissa as int)),
            out@ == (if self.mantissa < 0 { seq!['-'] } else { Seq::<char>::empty() }),
        ensures
            r@ == decimal_text(*self),
    {
        let mut out = out;
        let ghost sign = out@;
        proof {
            lemma_nat_digits_are_digits(magnitude(self.mantissa as int));
            reveal_strlit("0");
        }
        if self.mantissa == 0 {
            out.append("0");
            return out;
        }
        let mut j: usize = 0;
        while j < p.len()
            invariant
                p@ == nat_digits(magnitude(self.mantissa as int)),
                forall|i: int| 0 <= i < p@.len() ==> is_digit(#[trigger] p@[i]),
                j <= p@.len(),
                out@ == sign + p@.take(j as int),
            decreases p@.len() - j,
        {
            out.append(digit_text(p[j]));
            assert(p@.take(j + 1) =~= p@.take(j as int).push(p@[j as int]));
            j = j + 1;
        }
        assert(p@.take(p@.len() as int) =~= p@);
        let mut z: i128 = self.scale;
        while z < 0
            invariant
                self.scale <= z <= 0,
                out@ == sign + p@ + Seq::new((z - self.scale) as nat, |i: int| '0'),
            decreases 0 - z,
        {
            proof {
                reveal_strlit("0");
            }
            let ghost before = out@;
            out.append("0");
            assert(out@ =~= before.push('0'));
            assert(Seq::new((z + 1 - self.scale) as nat, |i: int| '0') =~= Seq::new(
                (z - self.scale) as nat,
                |i: int| '0',
            ).push('0'));
            assert(sign + p@ + Seq::new((z + 1 - self.scale) as nat, |i: int| '0') =~= (sign + p@
                + Seq::new((z - self.scale) as nat, |i: int| '0')).push('0'));
            z = z + 1;
        }
        assert(out@ =~= decimal_text(*self));
        out
    }
}


/// Cleaning is idempotent: a cleaned text is left as it is by a second
/// cleaning.
pub proof fn lemma_clean_idempotent(s: Seq<char>)
    ensures
        clean_spec(clean_spec(s)) == clean_spec(s),
    decreases s.len(),
{
    if s.len() > 0 {
        lemma_clean_idempotent(s.drop_last());
        let t = clean_spec(s.drop_last());
        if is_amount_char(s.last()) {
            assert(t.push(s.last()).drop_last() =~= t);
        }
    }
}

/// A text made only of digits, `.` and `-` is left as it is by cleaning.
pub proof fn lemma_clean_keeps_amount_text(s: Seq<char>)
    requires
        forall|i: int| 0 <= i < s.len() ==> is_amount_char(#[trigger] s[i]),
    ensures
        clean_spec(s) == s,
    decreases s.len(),
{
    if s.len() > 0 {
        assert(is_amount_char(s[s.len() - 1]));
        lemma_clean_keeps_amount_text(s.drop_last());
        assert(s.drop_last().push(s.last()) =~= s);
    }
}

/// On cells that already hold plain decimal numbers of at most `MAX_DIGITS`
/// digits, a row's amount is their exact sum: each is read as its digits at
/// the scale of its digits after the point, and each of the non-zero ones,
/// written at the amount's scale, adds up to the amount's mantissa.
pub proof fn lemma_plain_amounts_add_up(
    total: Seq<char>,
    tip: Seq<char>,
    tax: Seq<char>,
    fee: Seq<char>,
)
    requires
        is_number_text(total) && digit_count(unsigned_part(total)) <= MAX_DIGITS,
        is_number_text(tip) && digit_count(unsigned_part(tip)) <= MAX_DIGITS,
        is_number_text(tax) && digit_count(unsigned_part(tax)) <= MAX_DIGITS,
        is_number_text(fee) && digit_count(unsigned_part(fee)) <= MAX_DIGITS,
    ensures
        ({
            let r = row_amount_spec(Some(total), Some(tip), Some(tax), Some(fee));
            let (a, b, c, d) = (
                parse_spec(total).unwrap(),
                parse_spec(tip).unwrap(),
                parse_spec(tax).unwrap(),
                parse_spec(fee).unwrap(),
            );
            &&& a == exact_reading(total) && b == exact_reading(tip)
            &&& c == exact_reading(tax) && d == exact_reading(fee)
            &&& a.mantissa != 0 ==> a.scale <= r.scale
            &&& b.mantissa != 0 ==> b.scale <= r.scale
            &&& c.mantissa != 0 ==> c.scale <= r.scale
            &&& d.mantissa != 0 ==> d.scale <= r.scale
            &&& r.mantissa == a.mantissa * pow10((r.scale - a.scale) as nat) + b.mantissa * pow10(
                (r.scale - b.scale) as nat,
            ) + c.mantissa * pow10((r.scale - c.scale) as nat) + d.mantissa * pow10(
                (r.scale - d.scale) as nat,
            )
        }),
{
    lemma_plain_reading(total);
    lemma_plain_reading(tip);
    lemma_plain_reading(tax);
    lemma_plain_reading(fee);
    let (a, b, c, d) = (
        parse_spec(total).unwrap(),
        parse_spec(tip).unwrap(),
        parse_spec(tax).unwrap(),
        parse_spec(fee).unwrap(),
    );
    let s = sum_scale(a, b, c, d) as int;
    lemma_plain_term(a, s);
    lemma_plain_term(b, s);
    lemma_plain_term(c, s);
    lemma_plain_term(d, s);
    lemma_sum_fits(a, b, c, d);
}

/// Reading a number of more than `MAX_DIGITS` digits rounds it toward zero
/// and no further: the digits kept, followed by as many zeros as were
/// dropped, are at most the number and less than one unit of the last digit
/// kept below it; and where digits were dropped, all `MAX_DIGITS` are kept,
/// so the error is under one part in ten to the power `MAX_DIGITS - 1`.
pub proof fn lemma_reading_rounds_toward_zero(n: nat)
    ensures
        significant(n) * pow10(excess_digits(n)) <= n < (significant(n) + 1) * pow10(
            excess_digits(n),
        ),
        excess_digits(n) > 0 ==> pow10((MAX_DIGITS - 1) as nat) <= significant(n),
    decreases n,
{
    lemma_pow10_max();
    reveal_with_fuel(pow10, 18);
    if n >= pow10(MAX_DIGITS as nat) {
        let q = n / 10;
        lemma_reading_rounds_toward_zero(q);
        let sg = significant(q) as int;
        let e = excess_digits(q);
        let p = pow10(e);
        assert(pow10(e + 1) == 10 * p);
        assert(sg * p <= q < (sg + 1) * p);
        assert(q * 10 <= n < q * 10 + 10);
        assert(sg * p <= q && q * 10 <= n ==> sg * (10 * p) <= n) by (nonlinear_arith);
        assert(q < (sg + 1) * p && n < q * 10 + 10 ==> n < (sg + 1) * (10 * p)) by (
        nonlinear_arith);
        lemma_significant_bound(q);
    }
}

/// A number text read with nothing dropped: all its digits, negated under a
/// leading `-`, at the scale of its digits after the point.
pub open spec fn exact_reading(s: Seq<char>) -> Decimal {
    let u = unsigned_part(s);
    let m = if has_sign(s) { -digits_value(u) } else { digits_value(u) };
    Decimal { mantissa: m as i128, scale: fraction_digits(u) as i128 }
}

proof fn lemma_plain_reading(s: Seq<char>)
    requires
        is_number_text(s),
        digit_count(unsigned_part(s)) <= MAX_DIGITS,
    ensures
        clean_spec(s) == s,
        parse_spec(s) == Some(exact_reading(s)),
        exact_reading(s).is_component(),
        0 <= exact_reading(s).scale <= MAX_DIGITS,
{
    let u = unsigned_part(s);
    lemma_number_text_is_clean(s);
    lemma_digits_value_bound(u);
    lemma_pow10_monotone(digit_count(u), MAX_DIGITS as nat);
    lemma_pow10_max();
    lemma_fraction_digits_bound(u);
    lemma_significant_bound(digits_value(u) as nat);
}

proof fn lemma_plain_term(d: Decimal, s: int)
    requires
        d.mantissa != 0 ==> d.scale <= s,
    ensures
        aligned(d, s) == d.mantissa * pow10((s - d.scale) as nat),
{
    if d.mantissa == 0 && d.scale > s {
        lemma_pow10_positive((d.scale - s) as nat);
    }
}

proof fn lemma_number_text_is_clean(s: Seq<char>)
    requires
        is_number_text(s),
    ensures
        clean_spec(s) == s,
{
    let u = unsigned_part(s);
    assert forall|i: int| 0 <= i < s.len() implies is_amount_char(#[trigger] s[i]) by {
        if has_sign(s) {
            if i > 0 {
                assert(s[i] == u[i - 1]);
            }
        } else {
            assert(s[i] == u[i]);
        }
    }
    lemma_clean_keeps_amount_text(s);
}

proof fn lemma_fraction_digits_bound(s: Seq<char>)
    ensures
        fraction_digits(s) <= digit_count(s),
    decreases s.len(),
{
    if s.len() > 0 {
        lemma_fraction_digits_bound(s.drop_last());
    }
}

proof fn lemma_sum_fits(a: Decimal, b: Decimal, c: Decimal, d: Decimal)
    requires
        a.is_component(),
        b.is_component(),
        c.is_component(),
        d.is_component(),
        0 <= a.scale <= MAX_DIGITS,
        0 <= b.scale <= MAX_DIGITS,
        0 <= c.scale <= MAX_DIGITS,
        0 <= d.scale <= MAX_DIGITS,
    ensures
        ({
            let s = sum_scale(a, b, c, d) as int;
            &&& a.mantissa != 0 ==> a.scale <= s
            &&& b.mantissa != 0 ==> b.scale <= s
            &&& c.mantissa != 0 ==> c.scale <= s
            &&& d.mantissa != 0 ==> d.scale <= s
            &&& sum_spec(a, b, c, d).mantissa == aligned(a, s) + aligned(b, s) + aligned(c, s)
                + aligned(d, s)
            &&& sum_spec(a, b, c, d).scale == s
        }),
{
    let s = sum_scale(a, b, c, d) as int;
    assert(0 <= s <= MAX_DIGITS);
    if a.mantissa != 0 {
        lemma_aligned_bound(a, s);
    }
    if b.mantissa != 0 {
        lemma_aligned_bound(b, s);
    }
    if c.mantissa != 0 {
        lemma_aligned_bound(c, s);
    }
    if d.mantissa != 0 {
        lemma_aligned_bound(d, s);
    }
    lemma_plain_term(a, s);
    lemma_plain_term(b, s);
    lemma_plain_term(c, s);
    lemma_plain_term(d, s);
}

proof fn lemma_aligned_bound(d: Decimal, s: int)
    requires
        d.is_component(),
        d.scale <= s <= d.scale + MAX_DIGITS,
    ensures
        -1_000_000_000_000_000_000_000_000_000_000_000_000 < aligned(d, s)
            < 1_000_000_000_000_000_000_000_000_000_000_000_000,
{
    lemma_pow10_max();
    lemma_pow10_positive((s - d.scale) as nat);
    lemma_pow10_monotone((s - d.scale) as nat, MAX_DIGITS as nat);
    let x: int = 1_000_000_000_000_000_000;
    let m = d.mantissa as int;
    let g = pow10((s - d.scale) as nat);
    assert(-x < m < x && 1 <= g <= x ==> -(x * x) < m * g < x * x) by (nonlinear_arith);
}

} // verus!
