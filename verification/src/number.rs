//! Decimal numbers as people type them, read into a whole number of small
//! units.

use vstd::prelude::*;
use crate::text::find_char;

verus! {

/// No amount is larger than this.
pub const LARGEST: u64 = 0x7fff_ffff_ffff_ffff;

pub open spec fn is_digit(c: char) -> bool {
    '0' <= c <= '9'
}

pub open spec fn all_digits(s: Seq<char>) -> bool {
    forall|i: int| 0 <= i < s.len() ==> is_digit(#[trigger] s[i])
}

/// The natural number that the digits of `s` write.
pub open spec fn digits_value(s: Seq<char>) -> nat
    decreases s.len(),
{
    if s.len() == 0 {
        0
    } else {
        digits_value(s.drop_last()) * 10 + (s.last() as int - '0' as int) as nat
    }
}

/// The `k`-th power of ten.
pub open spec fn ten(k: nat) -> nat
    decreases k,
{
    if k == 0 {
        1
    } else {
        10 * ten((k - 1) as nat)
    }
}

pub open spec fn lower_char(c: char) -> char {
    if 'A' <= c <= 'Z' {
        (c as int + 32) as char
    } else {
        c
    }
}

/// `s` with its ASCII letters in lower case.
pub open spec fn lower(s: Seq<char>) -> Seq<char> {
    s.map_values(|c: char| lower_char(c))
}

/// Where `c` first stands in `s`, or the length of `s` where it does not.
pub open spec fn position(s: Seq<char>, c: char) -> int
    decreases s.len(),
{
    if s.len() == 0 || s[0] == c {
        0
    } else {
        1 + position(s.drop_first(), c)
    }
}

pub open spec fn has_sign(s: Seq<char>) -> bool {
    s.len() > 0 && (s[0] == '+' || s[0] == '-')
}

pub open spec fn is_negated(s: Seq<char>) -> bool {
    s.len() > 0 && s[0] == '-'
}

pub open spec fn unsigned(s: Seq<char>) -> Seq<char> {
    if has_sign(s) {
        s.drop_first()
    } else {
        s
    }
}

/// The exponent behind the `e` of a number: an optional sign and digits.
pub open spec fn read_exponent(s: Seq<char>) -> Option<int> {
    let d = unsigned(s);
    if d.len() > 0 && all_digits(d) {
        Some(
            if is_negated(s) {
                -(digits_value(d) as int)
            } else {
                digits_value(d) as int
            },
        )
    } else {
        None
    }
}

/// Digits with at most one point among them and an optional exponent, as the
/// natural number of all digits and the power of ten that it is to be
/// multiplied with.
pub open spec fn read_decimal(s: Seq<char>) -> Option<(nat, int)> {
    let e = position(s, 'e');
    let exponent = if e < s.len() {
        read_exponent(s.skip(e + 1))
    } else {
        Some(0)
    };
    let mantissa = s.take(e);
    let p = position(mantissa, '.');
    let whole = mantissa.take(p);
    let part = if p < mantissa.len() {
        mantissa.skip(p + 1)
    } else {
        Seq::empty()
    };
    if all_digits(whole) && all_digits(part) && whole.len() + part.len() > 0 && exponent is Some {
        Some((digits_value(whole + part), exponent->0 - part.len()))
    } else {
        None
    }
}

/// What a number is worth.
pub enum Amount {
    /// Not a number.
    Undefined,
    /// Less than zero.
    Negative,
    /// A number of units, zero or more.
    Units(u64),
}

/// `m` times ten to the power of `shift`, in units of which one whole has
/// `unit`, rounded down.
pub open spec fn scaled(m: nat, unit: nat, shift: int) -> nat {
    if shift >= 0 {
        m * unit * ten(shift as nat)
    } else {
        m * (unit as nat) / ten((-shift) as nat)
    }
}

pub open spec fn capped(n: nat) -> u64 {
    if n > LARGEST {
        LARGEST
    } else {
        n as u64
    }
}

/// The number that `s` writes, in units of which one whole has `unit`, or
/// nothing where `s` does not write a number.
pub open spec fn read_amount(s: Seq<char>, unit: nat) -> Option<Amount> {
    let body = lower(unsigned(s));
    if body == "inf"@ || body == "infinity"@ {
        Some(
            if is_negated(s) {
                Amount::Negative
            } else {
                Amount::Units(LARGEST)
            },
        )
    } else if body == "nan"@ {
        Some(Amount::Undefined)
    } else {
        match read_decimal(body) {
            None => None,
            Some((m, shift)) => Some(
                if is_negated(s) && m > 0 {
                    Amount::Negative
                } else {
                    Amount::Units(capped(scaled(m, unit, shift)))
                },
            ),
        }
    }
}

pub proof fn lemma_position(s: Seq<char>, c: char, i: int)
    requires
        0 <= i <= s.len(),
        !s.take(i).contains(c),
        i < s.len() ==> s[i] == c,
    ensures
        position(s, c) == i,
    decreases i,
{
    if i > 0 {
        assert(s.take(i)[0] == s[0]);
        assert(s[0] != c);
        let t = s.drop_first();
        assert(s.take(i).drop_first() =~= t.take(i - 1));
        let u = t.take(i - 1);
        if u.contains(c) {
            let j = choose|j: int| 0 <= j < u.len() && u[j] == c;
            assert(s.take(i)[j + 1] == c);
        }
        lemma_position(t, c, i - 1);
    }
}

pub proof fn lemma_position_bound(s: Seq<char>, c: char)
    ensures
        0 <= position(s, c) <= s.len(),
    decreases s.len(),
{
    if s.len() > 0 && s[0] != c {
        lemma_position_bound(s.drop_first(), c);
    }
}

pub proof fn lemma_ten_positive(k: nat)
    ensures
        ten(k) >= 1,
    decreases k,
{
    if k > 0 {
        lemma_ten_positive((k - 1) as nat);
    }
}

pub proof fn lemma_ten_add(a: nat, b: nat)
    ensures
        ten(a + b) == ten(a) * ten(b),
    decreases b,
{
    if b > 0 {
        lemma_ten_add(a, (b - 1) as nat);
        let x = ten(a);
        let y = ten((b - 1) as nat);
        assert(10 * (x * y) == x * (10 * y)) by (nonlinear_arith);
    } else {
        assert(ten(a) * 1 == ten(a));
    }
}

/// The value of digits behind other digits.
pub proof fn lemma_digits_concat(a: Seq<char>, b: Seq<char>)
    requires
        all_digits(a),
        all_digits(b),
    ensures
        digits_value(a + b) == digits_value(a) * ten(b.len()) + digits_value(b),
        all_digits(a + b),
    decreases b.len(),
{
    if b.len() == 0 {
        assert(a + b =~= a);
        assert(digits_value(a) * 1 == digits_value(a));
    } else {
        let c = b.drop_last();
        assert(all_digits(c)) by {
            assert forall|i: int| 0 <= i < c.len() implies is_digit(#[trigger] c[i]) by {
                assert(c[i] == b[i]);
            }
        }
        lemma_digits_concat(a, c);
        assert((a + b).drop_last() =~= a + c);
        let x = digits_value(a);
        let t = ten(c.len());
        let y = digits_value(c);
        assert((x * t + y) * 10 == x * (10 * t) + y * 10) by (nonlinear_arith);
        assert forall|i: int| 0 <= i < (a + b).len() implies is_digit(#[trigger] (a + b)[i]) by {
            if i < a.len() {
                assert((a + b)[i] == a[i]);
            } else {
                assert((a + b)[i] == b[i - a.len()]);
            }
        }
    }
}

pub proof fn lemma_digits_bound(s: Seq<char>)
    requires
        all_digits(s),
    ensures
        digits_value(s) < ten(s.len()),
    decreases s.len(),
{
    if s.len() > 0 {
        let c = s.drop_last();
        assert forall|i: int| 0 <= i < c.len() implies is_digit(#[trigger] c[i]) by {
            assert(c[i] == s[i]);
        }
        lemma_digits_bound(c);
        assert(is_digit(s[s.len() - 1]));
    }
}

proof fn lemma_scaled_large(m: nat, unit: nat, shift: int)
    requires
        m >= 1,
        unit >= 1,
        shift >= 19,
    ensures
        scaled(m, unit, shift) > LARGEST,
{
    let k = (shift - 19) as nat;
    let a = ten(19);
    let b = ten(k);
    let t = ten(shift as nat);
    assert(a > LARGEST) by {
        reveal_with_fuel(ten, 20);
    }
    lemma_ten_add(19, k);
    lemma_ten_positive(k);
    assert(a * b >= a) by (nonlinear_arith)
        requires
            a >= 0,
            b >= 1,
    ;
    let n = m * unit;
    assert(n >= 1) by (nonlinear_arith)
        requires
            n == m * unit,
            m >= 1,
            unit >= 1,
    ;
    assert(n * t >= t) by (nonlinear_arith)
        requires
            n >= 1,
            t >= 0,
    ;
}

proof fn lemma_scaled_small(m: nat, unit: nat, n: nat, shift: int)
    requires
        m < ten(n),
        unit < ten(10),
        shift <= -(n + 10),
    ensures
        scaled(m, unit, shift) == 0,
{
    let k = (-shift) as nat;
    let r = (k - n - 10) as nat;
    lemma_ten_add(n, 10);
    lemma_ten_add(n + 10, r);
    lemma_ten_positive(r);
    lemma_ten_positive(k);
    let a = ten(n);
    let b = ten(10);
    let c = ten(r);
    let t = ten(k);
    assert(m * unit < a * b) by (nonlinear_arith)
        requires
            m < a,
            unit < b,
    ;
    assert(a * b * c >= a * b) by (nonlinear_arith)
        requires
            c >= 1,
    ;
    vstd::arithmetic::div_mod::lemma_basic_div((m * unit) as int, t as int);
}

/// One step of reading a fraction from its last digit to its first.
proof fn lemma_fraction_step(d: nat, r: nat, unit: nat, n: nat)
    ensures
        (r * (unit as nat) / ten(n) + d * unit) / 10 == (d * ten(n) + r) * unit / ten(n + 1),
{
    let t = ten(n);
    lemma_ten_positive(n);
    let x = (r * unit) as int;
    let j = (d * unit) as int;
    vstd::arithmetic::div_mod::lemma_hoist_over_denominator(x, j, t);
    vstd::arithmetic::div_mod::lemma_div_denominator(x + j * t as int, t as int, 10);
    assert(x + j * t == (d * t + r) * unit) by (nonlinear_arith)
        requires
            x == r * unit,
            j == d * unit,
    ;
    assert(t * 10 == ten(n + 1));
}

proof fn lemma_split_amount(a: nat, b: nat, unit: nat, k: nat)
    ensures
        (a * ten(k) + b) * (unit as nat) / ten(k) == a * unit + b * unit / ten(k),
{
    let t = ten(k);
    lemma_ten_positive(k);
    vstd::arithmetic::div_mod::lemma_hoist_over_denominator((b * unit) as int, (a * unit) as int, t);
    assert(b * unit + (a * unit) * t == (a * t + b) * unit) by (nonlinear_arith);
}

/// The natural number that the digits `s[from..to]` write, at most `LARGEST`.
fn whole_value(s: &Vec<char>, from: usize, to: usize) -> (r: u64)
    requires
        from <= to <= s@.len(),
        all_digits(s@.subrange(from as int, to as int)),
    ensures
        r == capped(digits_value(s@.subrange(from as int, to as int))),
{
    let mut v: u64 = 0;
    let ghost d = s@.subrange(from as int, to as int);
    let mut i: usize = from;
    assert(d.take(0) =~= Seq::empty());
    while i < to
        invariant
            from <= i <= to <= s@.len(),
            d == s@.subrange(from as int, to as int),
            all_digits(d),
            v == capped(digits_value(d.take(i - from))),
        decreases to - i,
    {
        let ghost now = d.take(i + 1 - from);
        proof {
            assert(is_digit(d[i - from]));
            assert(s@[i as int] == d[i - from]);
            assert(now.drop_last() =~= d.take(i - from));
            assert(now.last() == s@[i as int]);
        }
        let c = s[i];
        let next: u128 = (v as u128) * 10 + (c as u32 - 48) as u128;
        if next > LARGEST as u128 {
            v = LARGEST;
        } else {
            v = next as u64;
        }
        i += 1;
    }
    assert(d.take(to - from) =~= d);
    v
}

/// The digits `s[from..]` behind a point, in units, rounded down.
fn fraction_value(s: &Vec<char>, from: usize, unit: u64) -> (r: u64)
    requires
        from <= s@.len(),
        all_digits(s@.skip(from as int)),
        0 < unit < 10_000_000_000,
    ensures
        r == digits_value(s@.skip(from as int)) * (unit as nat) / ten((s@.len() - from) as nat),
        r < unit,
{
    let mut f: u64 = 0;
    let mut i: usize = s.len();
    assert(s@.skip(s@.len() as int) =~= Seq::empty());
    assert(0 * unit == 0nat);
    while i > from
        invariant
            from <= i <= s@.len(),
            all_digits(s@.skip(from as int)),
            0 < unit < 10_000_000_000,
            f == digits_value(s@.skip(i as int)) * (unit as nat) / ten((s@.len() - i) as nat),
            f < unit,
        decreases i,
    {
        i -= 1;
        let ghost rest = s@.skip(i + 1);
        let ghost one = s@.subrange(i as int, i + 1);
        proof {
            assert(s@.skip(from as int)[i - from] == s@[i as int]);
            assert(is_digit(s@[i as int]));
            assert(one =~= seq![s@[i as int]]);
            assert(one + rest =~= s@.skip(i as int));
            assert forall|j: int| 0 <= j < rest.len() implies is_digit(#[trigger] rest[j]) by {
                assert(s@.skip(from as int)[i + 1 + j - from] == rest[j]);
            }
            lemma_digits_concat(one, rest);
            assert(one.drop_last() =~= Seq::empty());
            let d = (s@[i as int] as int - '0' as int) as nat;
            reveal_with_fuel(digits_value, 2);
            assert(digits_value(one) == d);
            lemma_fraction_step(d, digits_value(rest), unit as nat, rest.len());
            assert(d * unit <= 9 * unit) by (nonlinear_arith)
                requires
                    d <= 9,
                    unit > 0,
            ;
        }
        let d: u64 = (s[i] as u32 - 48) as u64;
        assert(d * unit <= 9 * unit) by (nonlinear_arith)
            requires
                d <= 9,
                unit > 0,
        ;
        f = (f + d * unit) / 10;
    }
    f
}

fn only_zeros(s: &Vec<char>) -> (r: bool)
    requires
        all_digits(s@),
    ensures
        r == (digits_value(s@) == 0),
{
    let mut i: usize = 0;
    assert(s@.take(0) =~= Seq::empty());
    while i < s.len()
        invariant
            i <= s@.len(),
            all_digits(s@),
            digits_value(s@.take(i as int)) == 0,
        decreases s@.len() - i,
    {
        let ghost now = s@.take(i + 1);
        assert(now.drop_last() =~= s@.take(i as int));
        assert(is_digit(s@[i as int]));
        if s[i] != '0' {
            proof {
                assert(now + s@.skip(i + 1) =~= s@);
                assert forall|j: int| 0 <= j < now.len() implies is_digit(#[trigger] now[j]) by {
                    assert(now[j] == s@[j]);
                }
                let rest = s@.skip(i + 1);
                assert forall|j: int| 0 <= j < rest.len() implies is_digit(#[trigger] rest[j]) by {
                    assert(rest[j] == s@[i + 1 + j]);
                }
                lemma_digits_concat(now, rest);
                lemma_ten_positive(rest.len());
                assert(digits_value(now) >= 1);
                assert(digits_value(now) * ten(rest.len()) >= 1) by (nonlinear_arith)
                    requires
                        digits_value(now) >= 1,
                        ten(rest.len()) >= 1,
                ;
            }
            return false;
        }
        i += 1;
    }
    assert(s@.take(s@.len() as int) =~= s@);
    true
}

/// The number of the digits `s`, times ten to the power of `shift`, in units.
fn scale_digits(s: &Vec<char>, unit: u64, shift: i128) -> (r: u64)
    requires
        all_digits(s@),
        0 < unit < 10_000_000_000,
        s@.len() < 0x1_0000_0000_0000_0000,
        -0x1000_0000_0000_0000_0000_0000_0000 < shift < 0x1000_0000_0000_0000_0000_0000_0000,
    ensures
        r == capped(scaled(digits_value(s@), unit as nat, shift as int)),
{
    let ghost m = digits_value(s@);
    let n: usize = s.len();
    proof {
        lemma_digits_bound(s@);
        assert(ten(10) == 10_000_000_000) by {
            reveal_with_fuel(ten, 11);
        }
        assert(s@.subrange(0, n as int) =~= s@);
        assert(s@.skip(0) =~= s@);
    }
    if shift >= 19 {
        if only_zeros(s) {
            assert(0 * unit == 0nat);
            assert(0 * ten(shift as nat) == 0nat);
            return 0;
        }
        proof {
            lemma_scaled_large(m, unit as nat, shift as int);
        }
        return LARGEST;
    }
    if shift >= 0 {
        let mut a: u64 = whole_value(s, 0, n);
        let mut j: i128 = 0;
        assert(m * 1 == m);
        while j < shift
            invariant
                0 <= j <= shift < 19,
                a == capped(m * ten(j as nat)),
            decreases shift - j,
        {
            assert(m * ten((j + 1) as nat) == 10 * (m * ten(j as nat))) by {
                let t = ten(j as nat);
                assert(m * (10 * t) == 10 * (m * t)) by (nonlinear_arith);
            }
            let next: u128 = (a as u128) * 10;
            if next > LARGEST as u128 {
                a = LARGEST;
            } else {
                a = next as u64;
            }
            j += 1;
        }
        let ghost t = ten(shift as nat);
        assert((a as nat) * unit <= LARGEST * 10_000_000_000) by (nonlinear_arith)
            requires
                a <= LARGEST,
                unit < 10_000_000_000,
        ;
        let product: u128 = (a as u128) * (unit as u128);
        proof {
            assert(m * unit * t == m * t * unit) by (nonlinear_arith);
            if m * t > LARGEST {
                assert(m * t * unit > LARGEST) by (nonlinear_arith)
                    requires
                        m * t > LARGEST,
                        unit >= 1,
                ;
                assert(a * unit >= LARGEST) by (nonlinear_arith)
                    requires
                        a == LARGEST,
                        unit >= 1,
                ;
            }
        }
        if product > LARGEST as u128 {
            return LARGEST;
        }
        return product as u64;
    }
    let k: i128 = -shift;
    if k <= n as i128 {
        let cut: usize = n - (k as usize);
        proof {
            let a = s@.subrange(0, cut as int);
            let b = s@.skip(cut as int);
            assert(a + b =~= s@);
            assert forall|j: int| 0 <= j < a.len() implies is_digit(#[trigger] a[j]) by {
                assert(a[j] == s@[j]);
            }
            assert forall|j: int| 0 <= j < b.len() implies is_digit(#[trigger] b[j]) by {
                assert(b[j] == s@[cut + j]);
            }
            lemma_digits_concat(a, b);
            lemma_split_amount(digits_value(a), digits_value(b), unit as nat, k as nat);
        }
        let a = whole_value(s, 0, cut);
        let f = fraction_value(s, cut, unit);
        assert((a as nat) * unit <= LARGEST * 10_000_000_000) by (nonlinear_arith)
            requires
                a <= LARGEST,
                unit < 10_000_000_000,
        ;
        let total: u128 = (a as u128) * (unit as u128) + f as u128;
        proof {
            let w = digits_value(s@.subrange(0, cut as int));
            if w > LARGEST {
                assert(w * unit > LARGEST) by (nonlinear_arith)
                    requires
                        w > LARGEST,
                        unit >= 1,
                ;
                assert(a * unit >= LARGEST) by (nonlinear_arith)
                    requires
                        a == LARGEST,
                        unit >= 1,
                ;
            }
        }
        if total > LARGEST as u128 {
            return LARGEST;
        }
        return total as u64;
    }
    if k >= n as i128 + 10 {
        proof {
            lemma_scaled_small(m, unit as nat, n as nat, shift as int);
        }
        return 0;
    }
    let mut f: u64 = fraction_value(s, 0, unit);
    let mut j: i128 = n as i128;
    while j < k
        invariant
            n <= j <= k < n + 10,
            n == s@.len(),
            m == digits_value(s@),
            f == m * (unit as nat) / ten(j as nat),
            f < unit,
        decreases k - j,
    {
        proof {
            lemma_ten_positive(j as nat);
            vstd::arithmetic::div_mod::lemma_div_denominator((m * unit) as int, ten(j as nat) as int, 10);
            assert(ten(j as nat) * 10 == ten((j + 1) as nat));
        }
        f = f / 10;
        j += 1;
    }
    f
}

fn lower_of(c: char) -> (r: char)
    ensures
        r == lower_char(c),
{
    if 'A' <= c && c <= 'Z' {
        (c as u8 + 32) as char
    } else {
        c
    }
}

/// `s` with its ASCII letters in lower case.
pub fn lowered(s: &Vec<char>) -> (r: Vec<char>)
    ensures
        r@ == lower(s@),
{
    let mut out: Vec<char> = Vec::new();
    for i in 0..s.len()
        invariant
            out@ == lower(s@).take(i as int),
    {
        out.push(lower_of(s[i]));
        assert(lower(s@).take(i + 1) =~= lower(s@).take(i as int).push(lower(s@)[i as int]));
    }
    assert(lower(s@).take(s@.len() as int) =~= lower(s@));
    out
}

fn only_digits(s: &Vec<char>) -> (r: bool)
    ensures
        r == all_digits(s@),
{
    for i in 0..s.len()
        invariant
            forall|j: int| 0 <= j < i ==> is_digit(#[trigger] s@[j]),
    {
        if !('0' <= s[i] && s[i] <= '9') {
            assert(!is_digit(s@[i as int]));
            return false;
        }
    }
    true
}

/// The characters `s[from..to]`.
pub fn piece(s: &Vec<char>, from: usize, to: usize) -> (r: Vec<char>)
    requires
        from <= to <= s@.len(),
    ensures
        r@ == s@.subrange(from as int, to as int),
{
    let mut out: Vec<char> = Vec::new();
    let mut i: usize = from;
    while i < to
        invariant
            from <= i <= to <= s@.len(),
            out@ == s@.subrange(from as int, i as int),
        decreases to - i,
    {
        out.push(s[i]);
        assert(s@.subrange(from as int, i + 1) =~= s@.subrange(from as int, i as int).push(
            s@[i as int],
        ));
        i += 1;
    }
    out
}

/// Where `c` first stands in `s`, or the length of `s`.
pub fn position_of(s: &Vec<char>, c: char) -> (r: usize)
    ensures
        r == position(s@, c),
        r <= s@.len(),
        r < s@.len() ==> s@[r as int] == c,
{
    match find_char(s, c) {
        Some(i) => {
            proof {
                lemma_position(s@, c, i as int);
            }
            i
        },
        None => {
            proof {
                assert(s@.take(s@.len() as int) =~= s@);
                lemma_position(s@, c, s@.len() as int);
            }
            s.len()
        },
    }
}

fn signed(s: &Vec<char>) -> (r: bool)
    ensures
        r == has_sign(s@),
{
    s.len() > 0 && (s[0] == '+' || s[0] == '-')
}

fn negated(s: &Vec<char>) -> (r: bool)
    ensures
        r == is_negated(s@),
{
    s.len() > 0 && s[0] == '-'
}

fn without_sign(s: &Vec<char>) -> (r: Vec<char>)
    ensures
        r@ == unsigned(s@),
{
    if signed(s) {
        assert(s@.subrange(1, s@.len() as int) =~= s@.drop_first());
        piece(s, 1, s.len())
    } else {
        assert(s@.subrange(0, s@.len() as int) =~= s@);
        piece(s, 0, s.len())
    }
}

/// An exponent that is as good as infinite.
spec fn far() -> int {
    0x100_0000_0000_0000_0000_0000_0000
}

/// Up to `far`, the exponent itself; beyond, a stand-in on the same side.
spec fn stands_for(e: int, x: int) -> bool {
    ||| e == x
    ||| e >= far() && x >= far()
    ||| e <= -far() && x <= -far()
}

fn exponent_value(s: &Vec<char>) -> (r: Option<i128>)
    ensures
        match r {
            Some(x) => read_exponent(s@) is Some && stands_for(read_exponent(s@)->0, x as int)
                && -far() <= x <= far(),
            None => read_exponent(s@) is None,
        },
{
    let d = without_sign(s);
    if d.len() == 0 || !only_digits(&d) {
        return None;
    }
    let mut v: i128 = 0;
    let mut i: usize = 0;
    assert(d@.take(0) =~= Seq::empty());
    while i < d.len()
        invariant
            i <= d@.len(),
            all_digits(d@),
            0 <= v <= far(),
            v == digits_value(d@.take(i as int)) || v == far() && digits_value(d@.take(i as int)) >= far(),
        decreases d@.len() - i,
    {
        let ghost now = d@.take(i + 1);
        assert(now.drop_last() =~= d@.take(i as int));
        assert(is_digit(d@[i as int]));
        let next: i128 = v * 10 + (d[i] as u32 - 48) as i128;
        if next > 0x100_0000_0000_0000_0000_0000_0000 {
            v = 0x100_0000_0000_0000_0000_0000_0000;
        } else {
            v = next;
        }
        i += 1;
    }
    assert(d@.take(d@.len() as int) =~= d@);
    if negated(s) {
        Some(-v)
    } else {
        Some(v)
    }
}

proof fn lemma_far(m: nat, unit: nat, n: nat, shift: int, other: int)
    requires
        m < ten(n),
        0 < unit < ten(10),
        shift == other || shift >= 19 && other >= 19 || shift <= -(n + 10) && other <= -(n + 10),
    ensures
        capped(scaled(m, unit, shift)) == capped(scaled(m, unit, other)),
{
    if shift >= 19 && other >= 19 {
        if m >= 1 {
            lemma_scaled_large(m, unit, shift);
            lemma_scaled_large(m, unit, other);
        } else {
            assert(0 * unit == 0nat);
            assert(0 * ten(shift as nat) == 0nat);
            assert(0 * ten(other as nat) == 0nat);
        }
    } else if shift != other {
        lemma_scaled_small(m, unit, n, shift);
        lemma_scaled_small(m, unit, n, other);
    }
}

/// The digits of a decimal number in units, and whether they are all zero.
fn decimal_value(s: &Vec<char>, unit: u64) -> (r: Option<(u64, bool)>)
    requires
        0 < unit < 10_000_000_000,
    ensures
        match r {
            Some((v, zero)) => {
                &&& read_decimal(s@) is Some
                &&& v == capped(scaled((read_decimal(s@)->0).0, unit as nat, (read_decimal(s@)->0).1))
                &&& zero == ((read_decimal(s@)->0).0 == 0)
            },
            None => read_decimal(s@) is None,
        },
{
    let e = position_of(s, 'e');
    let exponent: i128 = if e < s.len() {
        assert(s@.subrange(e + 1, s@.len() as int) =~= s@.skip(e + 1));
        match exponent_value(&piece(s, e + 1, s.len())) {
            Some(x) => x,
            None => {
                return None;
            },
        }
    } else {
        0
    };
    assert(s@.subrange(0, e as int) =~= s@.take(e as int));
    let mantissa = piece(s, 0, e);
    let p = position_of(&mantissa, '.');
    assert(mantissa@.subrange(0, p as int) =~= mantissa@.take(p as int));
    let mut whole = piece(&mantissa, 0, p);
    let mut part: Vec<char> = Vec::new();
    if p < mantissa.len() {
        assert(mantissa@.subrange(p + 1, mantissa@.len() as int) =~= mantissa@.skip(p + 1));
        part = piece(&mantissa, p + 1, mantissa.len());
    }
    if !only_digits(&whole) || !only_digits(&part) || (whole.len() == 0 && part.len() == 0) {
        return None;
    }
    let digits_behind: usize = part.len();
    let shift: i128 = exponent - digits_behind as i128;
    proof {
        lemma_digits_concat(whole@, part@);
        lemma_digits_bound(whole@ + part@);
        assert(ten(10) == 10_000_000_000) by {
            reveal_with_fuel(ten, 11);
        }
    }
    let ghost exact = (read_decimal(s@)->0).1;
    whole.append(&mut part);
    proof {
        lemma_far(digits_value(whole@), unit as nat, whole@.len(), exact, shift as int);
    }
    let v = scale_digits(&whole, unit, shift);
    let zero = only_zeros(&whole);
    Some((v, zero))
}

fn reads(s: &Vec<char>, word: &str) -> (r: bool)
    ensures
        r == (s@ == word@),
{
    let w = crate::text::chars_of(word);
    if s.len() != w.len() {
        return false;
    }
    for i in 0..s.len()
        invariant
            s@.len() == w@.len(),
            w@ == word@,
            forall|j: int| 0 <= j < i ==> s@[j] == w@[j],
    {
        if s[i] != w[i] {
            return false;
        }
    }
    assert(s@ =~= w@);
    true
}

/// The number that `s` writes, in units of which one whole has `unit`.
///
/// A number has an optional sign, digits with at most one point among them, and
/// an optional exponent; `inf`, `infinity` and `nan` are numbers too. What a
/// unit is too coarse for is rounded down, and what is too large is `LARGEST`.
pub fn amount(s: &Vec<char>, unit: u64) -> (r: Option<Amount>)
    requires
        0 < unit < 10_000_000_000,
    ensures
        r == read_amount(s@, unit as nat),
{
    let body = lowered(&without_sign(s));
    let minus = negated(s);
    if reads(&body, "inf") || reads(&body, "infinity") {
        return Some(
            if minus {
                Amount::Negative
            } else {
                Amount::Units(LARGEST)
            },
        );
    }
    if reads(&body, "nan") {
        return Some(Amount::Undefined);
    }
    match decimal_value(&body, unit) {
        None => None,
        Some((v, zero)) => Some(
            if minus && !zero {
                Amount::Negative
            } else {
                Amount::Units(v)
            },
        ),
    }
}

proof fn lemma_ten_is_power(k: nat)
    ensures
        ten(k) == vstd::arithmetic::power::pow(10, k),
    decreases k,
{
    reveal(vstd::arithmetic::power::pow);
    if k > 0 {
        lemma_ten_is_power((k - 1) as nat);
    }
}

/// Digits are read by place: each digit is worth ten times what the next one is, and
/// the last one is worth what it says.
pub proof fn law_digits_are_read_by_place(a: Seq<char>, b: Seq<char>, c: char)
    requires
        all_digits(a),
        all_digits(b),
        '0' <= c <= '9',
    ensures
        digits_value(seq![c]) == c as int - '0' as int,
        digits_value(a + b) == digits_value(a) * vstd::arithmetic::power::pow(10, b.len())
            + digits_value(b),
        digits_value(a) < vstd::arithmetic::power::pow(10, a.len()),
{
    lemma_digits_concat(a, b);
    lemma_ten_is_power(b.len());
    lemma_ten_is_power(a.len());
    lemma_digits_bound(a);
    let one = seq![c];
    assert(one.drop_last() =~= Seq::empty());
    assert(digits_value(one.drop_last()) == 0);
}

/// A number of digits, with a point and further digits if there are any.
pub open spec fn plain(w: Seq<char>, p: Seq<char>) -> Seq<char> {
    if p.len() == 0 {
        w
    } else {
        w + seq!['.'] + p
    }
}

/// The units in `w` wholes and the part of one that `p` writes behind a point.
pub open spec fn worth(w: Seq<char>, p: Seq<char>, unit: int) -> int {
    digits_value(w) * unit + digits_value(p) * unit / vstd::arithmetic::power::pow(10, p.len())
}

pub proof fn lemma_plain_chars(w: Seq<char>, p: Seq<char>)
    requires
        all_digits(w),
        all_digits(p),
        w.len() + p.len() > 0,
    ensures
        plain(w, p).len() > 0,
        forall|i: int|
            0 <= i < plain(w, p).len() ==> is_digit(#[trigger] plain(w, p)[i]) || plain(w, p)[i]
                == '.',
{
    let s = plain(w, p);
    assert forall|i: int| 0 <= i < s.len() implies is_digit(#[trigger] s[i]) || s[i] == '.' by {
        if p.len() == 0 {
            assert(s[i] == w[i]);
        } else if i < w.len() {
            assert(s[i] == w[i]);
        } else if i > w.len() {
            assert(s[i] == p[i - w.len() - 1]);
        }
    }
}

/// A text of digits, points and letters that stand in no special number is no special
/// number, and has no sign.
pub proof fn lemma_no_special(s: Seq<char>)
    requires
        s.len() > 0,
        is_digit(s[0]) || s[0] == '.',
        forall|i: int| 0 <= i < s.len() ==> !('A' <= #[trigger] s[i] <= 'Z'),
    ensures
        lower(unsigned(s)) == s,
        s != "inf"@,
        s != "infinity"@,
        s != "nan"@,
        !is_negated(s),
{
    reveal_strlit("inf");
    reveal_strlit("infinity");
    reveal_strlit("nan");
    assert(lower(s) =~= s);
}

proof fn lemma_plain_split(w: Seq<char>, p: Seq<char>)
    requires
        all_digits(w),
        all_digits(p),
        w.len() + p.len() > 0,
    ensures
        read_decimal(plain(w, p)) == Some((digits_value(w + p), -(p.len() as int))),
        !plain(w, p).contains('e'),
{
    let s = plain(w, p);
    lemma_plain_chars(w, p);
    assert(!s.contains('e'));
    assert(s.take(s.len() as int) =~= s);
    lemma_position(s, 'e', s.len() as int);
    assert(!w.contains('.')) by {
        if w.contains('.') {
            let i = choose|i: int| 0 <= i < w.len() && w[i] == '.';
            assert(is_digit(w[i]));
        }
    }
    if p.len() == 0 {
        lemma_position(s, '.', s.len() as int);
        assert(w + p =~= w);
        assert(w + Seq::<char>::empty() =~= w);
    } else {
        assert(s.take(w.len() as int) =~= w);
        lemma_position(s, '.', w.len() as int);
        assert(s.skip(w.len() as int + 1) =~= p);
    }
}

/// A decimal number is worth what its digits say by place, rounded down to a whole unit.
pub proof fn law_decimals_are_worth_their_digits(w: Seq<char>, p: Seq<char>, unit: nat)
    requires
        all_digits(w),
        all_digits(p),
        w.len() + p.len() > 0,
        unit > 0,
    ensures
        read_amount(plain(w, p), unit) == Some(
            Amount::Units(capped(worth(w, p, unit as int) as nat)),
        ),
        0 <= worth(w, p, unit as int) - digits_value(w) * unit < unit,
{
    let s = plain(w, p);
    let t = ten(p.len());
    lemma_plain_chars(w, p);
    lemma_no_special(s);
    lemma_plain_split(w, p);
    lemma_digits_concat(w, p);
    lemma_split_amount(digits_value(w), digits_value(p), unit, p.len());
    lemma_ten_is_power(p.len());
    lemma_ten_positive(p.len());
    lemma_digits_bound(p);
    let d = digits_value(p);
    assert(0 <= d * unit < t * unit) by (nonlinear_arith)
        requires
            0 <= d < t,
            unit > 0,
    ;
    vstd::arithmetic::div_mod::lemma_div_is_ordered(0, (d * unit) as int, t as int);
    vstd::arithmetic::div_mod::lemma_multiply_divide_lt((d * unit) as int, t as int, unit as int);
    if p.len() == 0 {
        assert(d == 0);
        assert(digits_value(w + p) * unit * 1 == digits_value(w + p) * unit);
        assert(w + p =~= w);
    }
    let a = digits_value(w) * unit;
    assert(a >= 0) by (nonlinear_arith)
        requires
            a == digits_value(w) * unit,
    ;
}

/// A zero at the end behind the point changes nothing.
pub proof fn law_trailing_zeros_change_nothing(w: Seq<char>, p: Seq<char>, unit: nat)
    requires
        all_digits(w),
        all_digits(p),
        p.len() > 0,
        unit > 0,
    ensures
        read_amount(w + seq!['.'] + p.push('0'), unit) == read_amount(w + seq!['.'] + p, unit),
{
    let q = p.push('0');
    assert forall|i: int| 0 <= i < q.len() implies is_digit(#[trigger] q[i]) by {
        if i < p.len() {
            assert(q[i] == p[i]);
        }
    }
    law_decimals_are_worth_their_digits(w, p, unit);
    law_decimals_are_worth_their_digits(w, q, unit);
    assert(q.drop_last() =~= p);
    let d = digits_value(p) as int;
    let t = ten(p.len()) as int;
    assert(digits_value(q) == d * 10);
    lemma_ten_is_power(p.len());
    lemma_ten_is_power(q.len());
    lemma_ten_positive(p.len());
    let x = d * unit;
    assert(d * 10 * unit == x * 10) by (nonlinear_arith)
        requires
            x == d * unit,
    ;
    vstd::arithmetic::div_mod::lemma_div_multiples_vanish_quotient(10, x, t);
    assert(10 * x == x * 10 && 10 * t == t * 10);
}

/// An exponent moves the point by as many places as it says, to the right, or to the left
/// behind a minus.
pub proof fn law_exponents_move_the_point(w: Seq<char>, d: Seq<char>, unit: nat)
    requires
        all_digits(w),
        all_digits(d),
        w.len() > 0,
        d.len() > 0,
        digits_value(d) > 0,
    ensures
        read_amount(w + seq!['e'] + d, unit) == Some(
            Amount::Units(
                capped(
                    (digits_value(w) * unit * vstd::arithmetic::power::pow(
                        10,
                        digits_value(d),
                    )) as nat,
                ),
            ),
        ),
        read_amount(w + seq!['e', '-'] + d, unit) == Some(
            Amount::Units(
                capped(
                    ((digits_value(w) * unit) as int / vstd::arithmetic::power::pow(
                        10,
                        digits_value(d),
                    )) as nat,
                ),
            ),
        ),
{
    lemma_exponent(w, d, d, unit);
    let m = seq!['-'] + d;
    assert(m.drop_first() =~= d);
    assert(w + seq!['e', '-'] + d =~= w + seq!['e'] + m);
    assert(is_digit(d[0]));
    assert(w + seq!['e'] + d =~= w + seq!['e'] + d);
    lemma_exponent(w, m, d, unit);
    lemma_ten_is_power(digits_value(d));
}

proof fn lemma_exponent(w: Seq<char>, x: Seq<char>, d: Seq<char>, unit: nat)
    requires
        all_digits(w),
        all_digits(d),
        w.len() > 0,
        d.len() > 0,
        x == d && is_digit(d[0]) || x == seq!['-'] + d,
    ensures
        read_amount(w + seq!['e'] + x, unit) == Some(
            Amount::Units(
                capped(
                    scaled(
                        digits_value(w),
                        unit,
                        if x == d {
                            digits_value(d) as int
                        } else {
                            -(digits_value(d) as int)
                        },
                    ),
                ),
            ),
        ),
{
    let s = w + seq!['e'] + x;
    if x == d {
        assert(unsigned(x) =~= d);
    } else {
        assert(x.drop_first() =~= d);
        assert(x[0] == '-');
    }
    assert(is_digit(w[0]) && s[0] == w[0]);
    assert forall|i: int| 0 <= i < s.len() implies !('A' <= #[trigger] s[i] <= 'Z') by {
        if i < w.len() {
            assert(is_digit(w[i]) && s[i] == w[i]);
        } else if i > w.len() {
            let k = i - w.len() - 1;
            assert(s[i] == x[k]);
            if x == d {
                assert(is_digit(d[k]));
            } else if k > 0 {
                assert(x[k] == d[k - 1] && is_digit(d[k - 1]));
            }
        }
    }
    lemma_no_special(s);
    assert(s.take(w.len() as int) =~= w);
    assert forall|c: char| !is_digit(c) implies !w.contains(c) by {
        if w.contains(c) {
            let i = choose|i: int| 0 <= i < w.len() && w[i] == c;
            assert(is_digit(w[i]));
        }
    }
    lemma_position(s, 'e', w.len() as int);
    assert(s.skip(w.len() as int + 1) =~= x);
    assert(w.take(w.len() as int) =~= w);
    lemma_position(w, '.', w.len() as int);
    assert(w + Seq::<char>::empty() =~= w);
}

/// A plus changes nothing, and a minus makes a number negative, unless it is zero.
pub proof fn law_signs_count(w: Seq<char>, p: Seq<char>, unit: nat)
    requires
        all_digits(w),
        all_digits(p),
        w.len() + p.len() > 0,
        unit > 0,
    ensures
        read_amount(seq!['+'] + plain(w, p), unit) == read_amount(plain(w, p), unit),
        digits_value(w + p) > 0 ==> read_amount(seq!['-'] + plain(w, p), unit) == Some(
            Amount::Negative,
        ),
        digits_value(w + p) == 0 ==> read_amount(seq!['-'] + plain(w, p), unit) == read_amount(
            plain(w, p),
            unit,
        ),
{
    let s = plain(w, p);
    lemma_plain_chars(w, p);
    lemma_no_special(s);
    lemma_plain_split(w, p);
    assert((seq!['+'] + s).drop_first() =~= s);
    assert((seq!['-'] + s).drop_first() =~= s);
}

/// Letters count the same in upper and in lower case.
pub proof fn law_case_does_not_matter(s: Seq<char>, unit: nat)
    ensures
        read_amount(lower(s), unit) == read_amount(s, unit),
{
    let t = lower(s);
    if s.len() > 0 {
        assert(t[0] == lower_char(s[0]));
    }
    assert(unsigned(t) =~= lower(unsigned(s)));
    assert(lower(unsigned(t)) =~= lower(unsigned(s)));
}

} // verus!
