//! Numbers as text.
use vstd::prelude::*;

verus! {

/// `String::push` of std.
///
/// Trusted: the character comes after those that were there.
pub assume_specification[ String::push ](s: &mut String, c: char)
    ensures
        final(s)@ == old(s)@.push(c),
;

/// The decimal digit `d`.
pub open spec fn digit(d: int) -> char
    recommends
        0 <= d < 10,
{
    (48 + d) as char
}

/// `n` in decimal.
pub open spec fn decimal(n: nat) -> Seq<char>
    decreases n,
{
    if n < 10 {
        seq![digit(n as int)]
    } else {
        decimal(n / 10).push(digit((n % 10) as int))
    }
}

/// `n` in decimal, with a sign if it is negative.
pub open spec fn signed_decimal(n: int) -> Seq<char> {
    if n < 0 {
        seq!['-'] + decimal((-n) as nat)
    } else {
        decimal(n as nat)
    }
}

/// `n` in decimal, with a comma before every three digits that others come before.
pub open spec fn grouped(n: nat) -> Seq<char>
    decreases n,
{
    if n < 1000 {
        decimal(n)
    } else {
        grouped(n / 1000) + seq![
            ',',
            digit((n / 100 % 10) as int),
            digit((n / 10 % 10) as int),
            digit((n % 10) as int),
        ]
    }
}

/// The integer nearest to `num / den`; the even one, if two are.
pub open spec fn half_even(num: int, den: int) -> int {
    let q = num / den;
    let r = num % den;
    if 2 * r < den || (2 * r == den && q % 2 == 0) {
        q
    } else {
        q + 1
    }
}

/// The distance of neighbouring doubles around `n`: numbers have 53 binary digits.
pub open spec fn ulp(n: nat) -> nat
    decreases n,
{
    if n < 0x20_0000_0000_0000 {
        1
    } else {
        2 * ulp(n / 2)
    }
}

/// The double nearest to `n`, which is an integer too.
pub open spec fn nearest_double(n: nat) -> int {
    half_even(n as int, ulp(n) as int) * ulp(n)
}

/// The double nearest to `n`, divided by the power of two `unit` and rounded to tenths:
/// how many tenths there are.
pub open spec fn tenths(n: nat, unit: int) -> int {
    half_even(10 * nearest_double(n), unit)
}

/// The double nearest to `n`, divided by the power of two `unit` and rounded to one
/// decimal.
pub open spec fn one_decimal(n: nat, unit: int) -> Seq<char> {
    decimal((tenths(n, unit) / 10) as nat) + seq!['.', digit(tenths(n, unit) % 10)]
}

/// The largest binary unit that `n` bytes fill.
pub open spec fn size_unit(n: nat) -> int {
    if n >= 0x4000_0000 {
        0x4000_0000
    } else if n >= 0x10_0000 {
        0x10_0000
    } else if n >= 0x400 {
        0x400
    } else {
        1
    }
}

/// A number of bytes in the largest binary unit that it fills: to one decimal, but for
/// bytes.
pub open spec fn byte_size(n: nat) -> Seq<char> {
    let unit = size_unit(n);
    if unit == 0x4000_0000 {
        one_decimal(n, unit) + " GiB"@
    } else if unit == 0x10_0000 {
        one_decimal(n, unit) + " MiB"@
    } else if unit == 0x400 {
        one_decimal(n, unit) + " KiB"@
    } else {
        decimal(n) + " B"@
    }
}

/// The number that [`byte_size`] shows times the unit that it shows, in tenths of a byte.
pub open spec fn shown(n: nat) -> int {
    if size_unit(n) == 1 {
        10 * n as int
    } else {
        tenths(n, size_unit(n)) * size_unit(n)
    }
}

/// `s`, followed by as many spaces as it takes to make it `width` characters long.
pub open spec fn padded(s: Seq<char>, width: nat) -> Seq<char> {
    if s.len() < width {
        s + Seq::new((width - s.len()) as nat, |i: int| ' ')
    } else {
        s
    }
}

fn push_digit(out: &mut String, d: u8)
    requires
        d < 10,
    ensures
        final(out)@ == old(out)@.push(digit(d as int)),
{
    out.push((48 + d) as char);
}

/// Appends `n` in decimal.
pub fn push_decimal(out: &mut String, n: u128)
    ensures
        final(out)@ == old(out)@ + decimal(n as nat),
    decreases n,
{
    if n >= 10 {
        push_decimal(out, n / 10);
    }
    push_digit(out, (n % 10) as u8);
    assert(out@ =~= old(out)@ + decimal(n as nat));
}

/// Appends `n` in decimal, with its sign if it is negative.
pub fn push_signed(out: &mut String, n: i64)
    ensures
        final(out)@ == old(out)@ + signed_decimal(n as int),
{
    if n < 0 {
        out.push('-');
        push_decimal(out, (-(n as i128)) as u128);
        assert(out@ =~= old(out)@ + signed_decimal(n as int));
    } else {
        push_decimal(out, n as u128);
    }
}

fn push_grouped(out: &mut String, n: u64)
    ensures
        final(out)@ == old(out)@ + grouped(n as nat),
    decreases n,
{
    if n < 1000 {
        push_decimal(out, n as u128);
    } else {
        push_grouped(out, n / 1000);
        out.push(',');
        push_digit(out, (n / 100 % 10) as u8);
        push_digit(out, (n / 10 % 10) as u8);
        push_digit(out, (n % 10) as u8);
        assert(out@ =~= old(out)@ + grouped(n as nat));
    }
}

/// `n` with its digits in groups of three.
pub fn with_commas(n: u64) -> (r: String)
    ensures
        r@ == grouped(n as nat),
{
    let mut out: String = String::new();
    push_grouped(&mut out, n);
    assert(out@ =~= grouped(n as nat));
    out
}

fn round_half_even(num: u128, den: u128) -> (r: u128)
    requires
        0 < den,
        den <= 0x1_0000_0000,
    ensures
        r == half_even(num as int, den as int),
{
    let q: u128 = num / den;
    let rest: u128 = num % den;
    if 2 * rest < den || (2 * rest == den && q % 2 == 0) {
        q
    } else {
        assert(q < u128::MAX) by (nonlinear_arith)
            requires
                q == num / den,
                rest == num % den,
                2 * rest >= den,
                den > 0,
        ;
        q + 1
    }
}

fn double_spacing(n: u64) -> (r: u64)
    ensures
        r == ulp(n as nat),
        r == 1 || r * 0x10_0000_0000_0000 <= n,
        r >= 1,
    decreases n,
{
    if n < 0x20_0000_0000_0000 {
        1
    } else {
        2 * double_spacing(n / 2)
    }
}

/// Appends the double nearest to `n`, in units of `unit`, to one decimal.
fn push_one_decimal(out: &mut String, n: u64, unit: u128)
    requires
        0 < unit <= 0x4000_0000,
    ensures
        final(out)@ == old(out)@ + one_decimal(n as nat, unit as int),
{
    let spacing: u64 = double_spacing(n);
    let steps: u128 = round_half_even(n as u128, spacing as u128);
    assert(steps * spacing <= n + spacing) by (nonlinear_arith)
        requires
            steps == n as int / spacing as int || steps == n as int / spacing as int + 1,
            spacing >= 1,
    ;
    let double: u128 = steps * (spacing as u128);
    assert(double == nearest_double(n as nat));
    let tenths: u128 = round_half_even(10 * double, unit);
    push_decimal(out, tenths / 10);
    out.push('.');
    push_digit(out, (tenths % 10) as u8);
    assert(out@ =~= old(out)@ + one_decimal(n as nat, unit as int));
}

/// `n` bytes as a person would write it.
pub fn format_bytes(n: u64) -> (r: String)
    ensures
        r@ == byte_size(n as nat),
{
    let mut out: String = String::new();
    if n >= 0x4000_0000 {
        push_one_decimal(&mut out, n, 0x4000_0000);
        out.append(" GiB");
    } else if n >= 0x10_0000 {
        push_one_decimal(&mut out, n, 0x10_0000);
        out.append(" MiB");
    } else if n >= 0x400 {
        push_one_decimal(&mut out, n, 0x400);
        out.append(" KiB");
    } else {
        push_decimal(&mut out, n as u128);
        out.append(" B");
    }
    assert(out@ =~= byte_size(n as nat));
    out
}

/// Appends `n` bytes in MiB, to one decimal.
pub fn push_mebibytes(out: &mut String, n: u64)
    ensures
        final(out)@ == old(out)@ + one_decimal(n as nat, 0x10_0000),
{
    push_one_decimal(out, n, 0x10_0000);
}

/// Appends `s` and pads it to `width` characters.
pub fn push_padded(out: &mut String, s: &str, width: usize)
    ensures
        final(out)@ == old(out)@ + padded(s@, width as nat),
{
    let len: usize = s.unicode_len();
    out.append(s);
    let mut i: usize = len;
    while i < width
        invariant
            len == s@.len(),
            len <= i,
            i <= width || i == len,
            out@ == old(out)@ + s@ + Seq::new((i - len) as nat, |k: int| ' '),
        decreases width - i,
    {
        out.push(' ');
        i = i + 1;
        assert(out@ =~= old(out)@ + s@ + Seq::new((i - len) as nat, |k: int| ' '));
    }
    assert(out@ =~= old(out)@ + padded(s@, width as nat));
}

proof fn lemma_decimal_has_no_comma(n: nat)
    ensures
        decimal(n).filter(|c: char| c != ',') == decimal(n),
    decreases n,
{
    let keep = |c: char| c != ',';
    reveal(Seq::filter);
    if n >= 10 {
        lemma_decimal_has_no_comma(n / 10);
        assert(decimal(n).drop_last() =~= decimal(n / 10));
        assert(decimal(n).filter(keep) =~= decimal(n));
    } else {
        let d = decimal(n);
        assert(d.drop_last() =~= Seq::<char>::empty());
        assert(d.drop_last().filter(keep) =~= Seq::<char>::empty());
        assert(d.filter(keep) =~= d);
    }
}

/// Grouping the digits of a number adds commas and changes nothing else.
pub proof fn law_commas_only_separate(n: nat)
    ensures
        grouped(n).filter(|c: char| c != ',') == decimal(n),
    decreases n,
{
    let keep = |c: char| c != ',';
    if n < 1000 {
        lemma_decimal_has_no_comma(n);
    } else {
        law_commas_only_separate(n / 1000);
        let a = digit((n / 100 % 10) as int);
        let b = digit((n / 10 % 10) as int);
        let c = digit((n % 10) as int);
        let s0 = grouped(n / 1000);
        let s1 = s0.push(',');
        let s2 = s1.push(a);
        let s3 = s2.push(b);
        let s4 = s3.push(c);
        assert(grouped(n) =~= s4);
        reveal(Seq::filter);
        assert(s1.drop_last() =~= s0);
        assert(s2.drop_last() =~= s1);
        assert(s3.drop_last() =~= s2);
        assert(s4.drop_last() =~= s3);
        assert(s1.filter(keep) == decimal(n / 1000));
        assert(keep(a) && keep(b) && keep(c));
        assert(s2.filter(keep) == s1.filter(keep).push(a));
        assert(s3.filter(keep) == s2.filter(keep).push(b));
        assert(s4.filter(keep) == s3.filter(keep).push(c));
        assert(n / 10 / 10 / 10 == n / 1000);
        assert(n / 10 / 10 % 10 == n / 100 % 10);
        assert(decimal(n) == decimal(n / 10).push(c));
        assert(decimal(n / 10) == decimal(n / 10 / 10).push(b));
        assert(decimal(n / 10 / 10) == decimal(n / 10 / 10 / 10).push(a));
    }
}

/// Sizes below 2^53 are rounded once only: they are doubles as they stand.
pub proof fn law_small_sizes_are_doubles(n: nat)
    requires
        n < 0x20_0000_0000_0000,
    ensures
        nearest_double(n) == n,
{
    let u = ulp(n) as int;
    assert(half_even(n as int, u) == n);
    assert(n * u == n) by (nonlinear_arith)
        requires
            u == 1,
    ;
}

/// The decimal that is shown is at most half a tenth off.
pub proof fn law_rounding_is_close(num: int, den: int)
    requires
        0 < den,
    ensures
        2 * half_even(num, den) * den - den <= 2 * num <= 2 * half_even(num, den) * den + den,
{
    let q = num / den;
    let r = num % den;
    vstd::arithmetic::div_mod::lemma_fundamental_div_mod(num, den);
    assert(2 * (q + 1) * den == 2 * q * den + 2 * den) by (nonlinear_arith);
    assert(2 * q * den == 2 * (den * q)) by (nonlinear_arith);
    assert(0 <= r < den);
}

proof fn lemma_half_even_grows(a: int, b: int, den: int)
    requires
        0 < den,
        0 <= a <= b,
    ensures
        0 <= half_even(a, den) <= half_even(b, den),
{
    vstd::arithmetic::div_mod::lemma_div_is_ordered(a, b, den);
    vstd::arithmetic::div_mod::lemma_div_pos_is_pos(a, den);
    vstd::arithmetic::div_mod::lemma_fundamental_div_mod(a, den);
    vstd::arithmetic::div_mod::lemma_fundamental_div_mod(b, den);
    if a / den == b / den {
        assert(a % den <= b % den);
    }
}

/// Rounding does not carry a number past a multiple of the divisor.
proof fn lemma_half_even_stays(num: int, den: int, k: int)
    requires
        0 < den,
        0 <= k,
        0 <= num,
    ensures
        num <= k * den ==> half_even(num, den) <= k,
        num >= k * den ==> half_even(num, den) >= k,
{
    vstd::arithmetic::div_mod::lemma_div_multiples_vanish(k, den);
    vstd::arithmetic::div_mod::lemma_mod_multiples_basic(k, den);
    assert(den * k == k * den) by (nonlinear_arith);
    assert(0 <= k * den) by (nonlinear_arith)
        requires
            0 <= k,
            0 < den,
    ;
    assert(half_even(k * den, den) == k);
    if num <= k * den {
        lemma_half_even_grows(num, k * den, den);
    }
    if num >= k * den {
        lemma_half_even_grows(k * den, num, den);
    }
}

/// Doubles lie the wider apart the larger they are, by powers of two; around `n` there
/// are between 2^52 and 2^53 of them below it, unless they are all there are.
proof fn lemma_ulp(n: nat, m: nat)
    requires
        n <= m,
    ensures
        0 < ulp(n) <= ulp(m),
        ulp(n) == ulp(m) || 2 * ulp(n) <= ulp(m),
        n < 0x20_0000_0000_0000 * ulp(n),
        ulp(n) == 1 || 0x10_0000_0000_0000 * ulp(n) <= n,
        ulp(m) == 1 || 0x10_0000_0000_0000 * ulp(m) <= m,
    decreases m,
{
    if m >= 0x20_0000_0000_0000 {
        lemma_ulp(n / 2, m / 2);
        if n < 0x20_0000_0000_0000 {
            lemma_ulp(m / 2, m / 2);
        }
    }
}

proof fn lemma_nearest_double_grows(n: nat, m: nat)
    requires
        n <= m,
    ensures
        0 <= nearest_double(n) <= nearest_double(m),
{
    let u = ulp(n) as int;
    let v = ulp(m) as int;
    lemma_ulp(n, m);
    let a = half_even(n as int, u);
    let b = half_even(m as int, v);
    lemma_half_even_grows(0, n as int, u);
    if u == v {
        lemma_half_even_grows(n as int, m as int, u);
        assert(0 <= a * u <= b * u) by (nonlinear_arith)
            requires
                0 <= a <= b,
                0 < u,
        ;
    } else {
        lemma_half_even_stays(n as int, u, 0x20_0000_0000_0000);
        lemma_half_even_stays(m as int, v, 0x10_0000_0000_0000);
        assert(0 <= a * u <= b * v) by (nonlinear_arith)
            requires
                0 <= a <= 0x20_0000_0000_0000,
                b >= 0x10_0000_0000_0000,
                0 < u,
                2 * u <= v,
        ;
    }
}

/// The size that is shown grows with the number of bytes, across the changes of unit too.
pub proof fn law_shown_size_grows(n: nat, m: nat)
    requires
        n <= m,
    ensures
        shown(n) <= shown(m),
{
    let u = size_unit(n);
    let v = size_unit(m);
    lemma_nearest_double_grows(n, m);
    let a = 10 * nearest_double(n);
    let b = 10 * nearest_double(m);
    if n < 0x20_0000_0000_0000 {
        law_small_sizes_are_doubles(n);
    }
    if u == v {
        lemma_half_even_grows(a, b, u);
        assert(half_even(a, u) * u <= half_even(b, u) * u) by (nonlinear_arith)
            requires
                half_even(a, u) <= half_even(b, u),
                0 < u,
        ;
    } else {
        law_small_sizes_are_doubles(v as nat);
        lemma_nearest_double_grows(v as nat, m);
        lemma_half_even_stays(b, v, 10);
        let q: int = if u == 1 {
            v
        } else if u == 0x400 && v == 0x4000_0000 {
            0x10_0000
        } else {
            0x400
        };
        assert(q * u == v) by {
            if u == 1 {
                assert(q * 1 == v);
            } else if u == 0x400 {
                assert(q * 0x400 == v);
            } else {
                assert(q * 0x10_0000 == v);
            }
        }
        assert(10 * q * u == 10 * (q * u)) by (nonlinear_arith);
        lemma_half_even_stays(a, u, 10 * q);
        assert(tenths(m, v) * v >= 10 * v) by (nonlinear_arith)
            requires
                tenths(m, v) >= 10,
                v > 0,
        ;
        assert(tenths(n, u) * u <= 10 * q * u) by (nonlinear_arith)
            requires
                tenths(n, u) <= 10 * q,
                u > 0,
        ;
    }
}

proof fn lemma_power_of_ten(x: int, e: nat)
    requires
        0 <= x,
    ensures
        vstd::arithmetic::power::pow(10, e) > 0,
        vstd::arithmetic::power::pow(10, e + 1) == 10 * vstd::arithmetic::power::pow(10, e),
        x / 10 / vstd::arithmetic::power::pow(10, e) == x / vstd::arithmetic::power::pow(10, e + 1),
{
    reveal(vstd::arithmetic::power::pow);
    vstd::arithmetic::power::lemma_pow_positive(10, e);
    vstd::arithmetic::div_mod::lemma_div_denominator(
        x,
        10,
        vstd::arithmetic::power::pow(10, e),
    );
}

/// The decimal digits of a number stand where they should: counted from the end, digit `i`
/// is the one of the `i`th power of ten.
pub proof fn law_decimal_digits(n: nat, i: nat)
    requires
        i < decimal(n).len(),
    ensures
        decimal(n)[decimal(n).len() - 1 - i] as int == 48 + n as int
            / vstd::arithmetic::power::pow(10, i) % 10,
    decreases n,
{
    if i == 0 {
        vstd::arithmetic::power::lemma_pow0(10);
    } else {
        let e = (i - 1) as nat;
        lemma_power_of_ten(n as int, e);
        law_decimal_digits(n / 10, e);
    }
}

/// There are just enough decimal digits: one more would be a zero in front.
pub proof fn law_decimal_length(n: nat)
    ensures
        decimal(n).len() > 0,
        n < vstd::arithmetic::power::pow(10, decimal(n).len()),
        decimal(n).len() == 1 || n >= vstd::arithmetic::power::pow(
            10,
            (decimal(n).len() - 1) as nat,
        ),
    decreases n,
{
    vstd::arithmetic::power::lemma_pow0(10);
    lemma_power_of_ten(0, 0);
    if n >= 10 {
        law_decimal_length(n / 10);
        let len = decimal(n / 10).len();
        lemma_power_of_ten(0, len);
        lemma_power_of_ten(0, (len - 1) as nat);
    }
}

/// A sign is written just before negative numbers; what follows is the number without it.
pub proof fn law_sign_comes_first(n: int)
    ensures
        n >= 0 ==> signed_decimal(n) == decimal(n as nat),
        n < 0 ==> signed_decimal(n).len() == decimal((-n) as nat).len() + 1 && signed_decimal(n)[0]
            == '-' && signed_decimal(n).skip(1) == decimal((-n) as nat),
{
    if n < 0 {
        assert(signed_decimal(n).skip(1) =~= decimal((-n) as nat));
    }
}

proof fn lemma_first_powers(n: nat)
    ensures
        n as int / vstd::arithmetic::power::pow(10, 0) == n,
        n as int / vstd::arithmetic::power::pow(10, 1) == n / 10,
        n as int / vstd::arithmetic::power::pow(10, 2) == n / 100,
{
    vstd::arithmetic::power::lemma_pow0(10);
    lemma_power_of_ten(n as int, 0);
    lemma_power_of_ten(n as int, 1);
    assert(vstd::arithmetic::power::pow(10, 1) == 10);
    assert(vstd::arithmetic::power::pow(10, 2) == 100);
}

proof fn lemma_three_more(n: nat, e: nat)
    ensures
        (n / 1000) as int / vstd::arithmetic::power::pow(10, e) == n as int
            / vstd::arithmetic::power::pow(10, e + 3),
{
    let x = n as int;
    lemma_power_of_ten(x / 10 / 10, e);
    lemma_power_of_ten(x / 10, e + 1);
    lemma_power_of_ten(x, e + 2);
    assert((n / 1000) as int == x / 10 / 10 / 10);
}

proof fn lemma_same_front(n: nat)
    requires
        n >= 1000,
    ensures
        decimal(n)[0] == decimal(n / 1000)[0],
{
    let m = n / 1000;
    law_decimal_length(m);
    assert(n / 10 / 10 / 10 == m);
    assert(decimal(n / 10 / 10) == decimal(m).push(digit((n / 10 / 10 % 10) as int)));
    assert(decimal(n / 10) == decimal(n / 10 / 10).push(digit((n / 10 % 10) as int)));
    assert(decimal(n) == decimal(n / 10).push(digit((n % 10) as int)));
}

proof fn lemma_three_digits(n: nat)
    requires
        n < 1000,
    ensures
        1 <= decimal(n).len() <= 3,
{
    reveal_with_fuel(decimal, 4);
}

/// Counted from the end, every fourth character of a grouped number is a comma, and the
/// others are its decimal digits; it begins with a digit.
pub proof fn law_groups_of_three(n: nat, j: nat)
    requires
        j < grouped(n).len(),
    ensures
        ({
            let c = grouped(n)[grouped(n).len() - 1 - j];
            if j % 4 == 3 {
                c == ','
            } else {
                c as int == 48 + n as int / vstd::arithmetic::power::pow(10, (j - j / 4) as nat) % 10
            }
        }),
        grouped(n)[0] == decimal(n)[0],
    decreases n,
{
    lemma_first_powers(n);
    if n < 1000 {
        lemma_three_digits(n);
        law_decimal_digits(n, j);
        assert((j - j / 4) as nat == j);
    } else {
        let m = n / 1000;
        lemma_same_front(n);
        lemma_grouped_is_not_empty(m);
        let i = (if j >= 4 {
            j - 4
        } else {
            0
        }) as nat;
        law_groups_of_three(m, i);
        let tail = seq![
            ',',
            digit((n / 100 % 10) as int),
            digit((n / 10 % 10) as int),
            digit((n % 10) as int),
        ];
        let len = grouped(m).len();
        assert(grouped(n) == grouped(m) + tail);
        if j >= 4 {
            let e = (i - i / 4) as nat;
            assert(j / 4 == i / 4 + 1 && j % 4 == i % 4);
            assert((j - j / 4) as nat == e + 3);
            lemma_three_more(n, e);
            assert(grouped(n)[grouped(n).len() - 1 - j] == grouped(m)[len - 1 - i]);
        } else {
            assert((j - j / 4) as nat == j);
            assert(grouped(n)[grouped(n).len() - 1 - j] == tail[3 - j]);
        }
    }
}

proof fn lemma_grouped_is_not_empty(n: nat)
    ensures
        grouped(n).len() > 0,
    decreases n,
{
    if n < 1000 {
        law_decimal_length(n);
    }
}

/// Rounding gives one of the nearest integers, and the even one where two are as near.
pub proof fn law_rounding_is_nearest(num: int, den: int)
    requires
        0 < den,
    ensures
        -den <= 2 * (half_even(num, den) * den - num) <= den,
        2 * (half_even(num, den) * den - num) == den || 2 * (half_even(num, den) * den - num)
            == -den ==> half_even(num, den) % 2 == 0,
{
    let q = num / den;
    vstd::arithmetic::div_mod::lemma_fundamental_div_mod(num, den);
    assert((q + 1) * den == q * den + den) by (nonlinear_arith);
    assert(q * den == den * q) by (nonlinear_arith);
}

/// Neighbouring doubles around a number are a power of two apart: the one for which the
/// number takes 53 binary digits, or one for numbers that take fewer.
pub proof fn law_doubles_have_53_digits(n: nat)
    ensures
        exists|k: nat| ulp(n) == #[trigger] vstd::arithmetic::power2::pow2(k),
        n < 0x20_0000_0000_0000 * ulp(n),
        ulp(n) == 1 || n >= 0x10_0000_0000_0000 * ulp(n),
    decreases n,
{
    if n < 0x20_0000_0000_0000 {
        vstd::arithmetic::power2::lemma2_to64();
        assert(ulp(n) == vstd::arithmetic::power2::pow2(0));
    } else {
        law_doubles_have_53_digits(n / 2);
        let k = choose|k: nat| ulp(n / 2) == #[trigger] vstd::arithmetic::power2::pow2(k);
        vstd::arithmetic::power2::lemma_pow2_unfold(k + 1);
        assert(ulp(n) == vstd::arithmetic::power2::pow2(k + 1));
    }
}

/// The double that stands for a number is one of the nearest, an even one where two are
/// as near.
pub proof fn law_nearest_double_is_nearest(n: nat)
    ensures
        ({
            let u = ulp(n) as int;
            let off = nearest_double(n) - n;
            &&& nearest_double(n) % u == 0
            &&& -u <= 2 * off <= u
            &&& 2 * off == u || 2 * off == -u ==> nearest_double(n) / u % 2 == 0
        }),
{
    let u = ulp(n) as int;
    lemma_ulp(n, n);
    law_rounding_is_nearest(n as int, u);
    lemma_half_even_grows(0, n as int, u);
    let k = half_even(n as int, u);
    vstd::arithmetic::div_mod::lemma_div_multiples_vanish(k, u);
    vstd::arithmetic::div_mod::lemma_mod_multiples_basic(k, u);
    assert(u * k == k * u) by (nonlinear_arith);
}

/// What is shown to one decimal stands for its number in the unit that was asked for,
/// whether the number fills the unit or not: some digits, a point and one digit more,
/// which together are one of the numbers of tenths nearest to the double divided by the
/// unit, and an even one where two are as near.
pub proof fn law_one_decimal_stands_for_its_number(n: nat, unit: int)
    requires
        0 < unit,
    ensures
        exists|a: nat, b: int|
            {
                let off = (10 * a + b) * unit - 10 * nearest_double(n);
                &&& 0 <= b < 10
                &&& one_decimal(n, unit) == #[trigger] decimal(a) + seq!['.', #[trigger] digit(b)]
                &&& -unit <= 2 * off <= unit
                &&& 2 * off == unit || 2 * off == -unit ==> (10 * a + b) % 2 == 0
            },
{
    let t = tenths(n, unit);
    lemma_nearest_double_grows(n, n);
    lemma_half_even_grows(0, 10 * nearest_double(n), unit);
    law_rounding_is_nearest(10 * nearest_double(n), unit);
    let a = (t / 10) as nat;
    let b = t % 10;
    assert(10 * a + b == t);
    assert(one_decimal(n, unit) == decimal(a) + seq!['.', digit(b)]);
}

/// In which unit a size is shown: whole bytes below 1024, and above that to one decimal,
/// in KiB below 2^20 bytes, in MiB below 2^30 bytes, and in GiB from there on.
pub proof fn law_sizes_fill_their_unit(n: nat)
    ensures
        n < 1024 ==> byte_size(n) == decimal(n) + " B"@,
        1024 <= n < 1048576 ==> byte_size(n) == one_decimal(n, 1024) + " KiB"@,
        1048576 <= n < 1073741824 ==> byte_size(n) == one_decimal(n, 1048576) + " MiB"@,
        1073741824 <= n ==> byte_size(n) == one_decimal(n, 1073741824) + " GiB"@,
{
}

/// The size that is shown, taken times its unit, is at most half a tenth of the unit away
/// from the double, and the number of bytes itself below 1024.
pub proof fn law_shown_size_is_close(n: nat)
    ensures
        n < 1024 ==> shown(n) == 10 * n,
        1024 <= n < 1048576 ==> -1024 <= 2 * (shown(n) - 10 * nearest_double(n)) <= 1024,
        1048576 <= n < 1073741824 ==> -1048576 <= 2 * (shown(n) - 10 * nearest_double(n))
            <= 1048576,
        1073741824 <= n ==> -1073741824 <= 2 * (shown(n) - 10 * nearest_double(n)) <= 1073741824,
{
    law_rounding_is_nearest(10 * nearest_double(n), size_unit(n));
}

/// Padding leaves the text as it is and follows it with spaces, up to the width and no
/// further.
pub proof fn law_padding_only_adds_spaces(s: Seq<char>, width: nat)
    ensures
        padded(s, width).len() == (if s.len() < width {
            width
        } else {
            s.len()
        }),
        padded(s, width).take(s.len() as int) == s,
        forall|i: int|
            s.len() <= i < padded(s, width).len() ==> #[trigger] padded(s, width)[i] == ' ',
{
    assert(padded(s, width).take(s.len() as int) =~= s);
}

} // verus!
