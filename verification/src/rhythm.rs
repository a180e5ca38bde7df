use num_bigint::BigUint;
use num_integer::Integer;
use num_rational::Ratio;
use vstd::prelude::*;

verus! {

/// Two to the power `n`.
pub open spec fn two_to(n: nat) -> nat
    decreases n,
{
    if n == 0 {
        1
    } else {
        2 * two_to((n - 1) as nat)
    }
}

/// The value of base-2^32 digits, least significant digit first.
pub open spec fn digits_value(digits: Seq<u32>) -> nat
    decreases digits.len(),
{
    if digits.len() == 0 {
        0
    } else {
        digits[0] as nat + 0x1_0000_0000 * digits_value(digits.drop_first())
    }
}

/// `d` is a positive divisor of `m`.
pub open spec fn divides(d: int, m: int) -> bool {
    d > 0 && m % d == 0
}

/// A divisor of `m` divides every positive multiple of `m`.
pub proof fn lemma_divides_multiple(d: int, m: int, k: int)
    requires
        divides(d, m),
        k > 0,
    ensures
        divides(d, m * k),
{
    vstd::arithmetic::div_mod::lemma_fundamental_div_mod(m, d);
    assert(m * k == (m / d * k) * d) by (nonlinear_arith)
        requires
            m == d * (m / d) + 0,
    ;
    vstd::arithmetic::div_mod::lemma_mod_multiples_basic(m / d * k, d);
}

/// Divisibility is transitive.
pub proof fn lemma_divides_transitive(a: int, b: int, c: int)
    requires
        divides(a, b),
        divides(b, c),
    ensures
        divides(a, c),
{
    vstd::arithmetic::div_mod::lemma_fundamental_div_mod(b, a);
    vstd::arithmetic::div_mod::lemma_fundamental_div_mod(c, b);
    assert(c == (b / a * (c / b)) * a) by (nonlinear_arith)
        requires
            b == a * (b / a) + 0,
            c == b * (c / b) + 0,
    ;
    vstd::arithmetic::div_mod::lemma_mod_multiples_basic(b / a * (c / b), a);
}

/// A positive number divides itself.
pub proof fn lemma_divides_self(d: int)
    requires
        d > 0,
    ensures
        divides(d, d),
{
    vstd::arithmetic::div_mod::lemma_mod_multiples_basic(1, d);
}

/// `an / ad` and `bn / bd` are the same number.
pub open spec fn rat_eq(an: int, ad: int, bn: int, bd: int) -> bool {
    an * bd == bn * ad
}

/// `an / ad` is less than `bn / bd` (denominators positive).
pub open spec fn rat_lt(an: int, ad: int, bn: int, bd: int) -> bool {
    an * bd < bn * ad
}

/// A non-negative rational number of whole notes: a numerator and a
/// denominator, each in base-2^32 digits, least significant digit first.
pub struct WholeNotes {
    pub numer: Vec<u32>,
    pub denom: Vec<u32>,
}

impl WholeNotes {
    pub open spec fn num(&self) -> int {
        digits_value(self.numer@) as int
    }

    pub open spec fn den(&self) -> int {
        digits_value(self.denom@) as int
    }

    /// The denominator is not zero.
    pub open spec fn wf(&self) -> bool {
        self.den() > 0
    }

    /// The same digits.
    pub fn duplicate(&self) -> (copy: WholeNotes)
        ensures
            copy.numer@ == self.numer@,
            copy.denom@ == self.denom@,
    {
        WholeNotes { numer: self.numer.clone(), denom: self.denom.clone() }
    }
}

/// The fraction is in lowest terms: no number above one divides both its
/// numerator and its denominator.
pub open spec fn lowest_terms(r: WholeNotes) -> bool {
    forall|d: int| d > 1 ==> !(#[trigger] divides(d, r.num()) && divides(d, r.den()))
}

/// `Ratio::new` of num-rational on `BigUint::from` numerator and denominator.
/// Claims: the result is the rational `numer / denom`, in lowest terms (as
/// `Ratio::new` reduces it).
#[verifier::external_body]
fn ratio_from_integers(numer: u32, denom: u32) -> (r: WholeNotes)
    requires
        denom != 0,
    ensures
        r.wf(),
        lowest_terms(r),
        rat_eq(r.num(), r.den(), numer as int, denom as int),
        divides(r.den(), denom as int),
{
    let value = Ratio::new(BigUint::from(numer), BigUint::from(denom));
    WholeNotes { numer: value.numer().to_u32_digits(), denom: value.denom().to_u32_digits() }
}

/// Addition of two `Ratio<BigUint>` of num-rational. Claims: the result is the
/// sum of the two rationals, in lowest terms (the sum is made by
/// `Ratio::new`, which reduces it).
#[verifier::external_body]
pub(crate) fn ratio_add(a: &WholeNotes, b: &WholeNotes) -> (r: WholeNotes)
    requires
        a.wf(),
        b.wf(),
    ensures
        r.wf(),
        lowest_terms(r),
        rat_eq(r.num(), r.den(), a.num() * b.den() + b.num() * a.den(), a.den() * b.den()),
        forall|m: int| divides(a.den(), m) && divides(b.den(), m) ==> #[trigger] divides(r.den(), m),
{
    let x = Ratio::new(BigUint::new(a.numer.clone()), BigUint::new(a.denom.clone()));
    let y = Ratio::new(BigUint::new(b.numer.clone()), BigUint::new(b.denom.clone()));
    let value = x + y;
    WholeNotes { numer: value.numer().to_u32_digits(), denom: value.denom().to_u32_digits() }
}

/// Subtraction of two `Ratio<BigUint>` of num-rational, where the second is
/// not greater than the first (otherwise `BigUint` subtraction panics).
/// Claims: the result is the difference of the two rationals.
#[verifier::external_body]
pub(crate) fn ratio_sub(a: &WholeNotes, b: &WholeNotes) -> (r: WholeNotes)
    requires
        a.wf(),
        b.wf(),
        !rat_lt(a.num(), a.den(), b.num(), b.den()),
    ensures
        r.wf(),
        rat_eq(r.num(), r.den(), a.num() * b.den() - b.num() * a.den(), a.den() * b.den()),
        forall|m: int| divides(a.den(), m) && divides(b.den(), m) ==> #[trigger] divides(r.den(), m),
{
    let x = Ratio::new(BigUint::new(a.numer.clone()), BigUint::new(a.denom.clone()));
    let y = Ratio::new(BigUint::new(b.numer.clone()), BigUint::new(b.denom.clone()));
    let value = x - y;
    WholeNotes { numer: value.numer().to_u32_digits(), denom: value.denom().to_u32_digits() }
}

/// Division of a `Ratio<BigUint>` of num-rational by the integer two.
/// Claims: the result is half the rational.
#[verifier::external_body]
fn ratio_halve(a: &WholeNotes) -> (r: WholeNotes)
    requires
        a.wf(),
    ensures
        r.wf(),
        rat_eq(r.num(), r.den(), a.num(), 2 * a.den()),
        divides(r.den(), 2 * a.den()),
{
    let x = Ratio::new(BigUint::new(a.numer.clone()), BigUint::new(a.denom.clone()));
    let value = x / BigUint::from(2u32);
    WholeNotes { numer: value.numer().to_u32_digits(), denom: value.denom().to_u32_digits() }
}

/// `<` on two `Ratio<BigUint>` of num-rational. Claims: true exactly when the
/// first rational is less than the second.
#[verifier::external_body]
pub(crate) fn ratio_less_than(a: &WholeNotes, b: &WholeNotes) -> (r: bool)
    requires
        a.wf(),
        b.wf(),
    ensures
        r == rat_lt(a.num(), a.den(), b.num(), b.den()),
{
    let x = Ratio::new(BigUint::new(a.numer.clone()), BigUint::new(a.denom.clone()));
    let y = Ratio::new(BigUint::new(b.numer.clone()), BigUint::new(b.denom.clone()));
    x < y
}

/// `==` on two `Ratio<BigUint>` of num-rational. Claims: true exactly when the
/// two rationals are the same number.
#[verifier::external_body]
pub(crate) fn ratio_equals(a: &WholeNotes, b: &WholeNotes) -> (r: bool)
    requires
        a.wf(),
        b.wf(),
    ensures
        r == rat_eq(a.num(), a.den(), b.num(), b.den()),
{
    let x = Ratio::new(BigUint::new(a.numer.clone()), BigUint::new(a.denom.clone()));
    let y = Ratio::new(BigUint::new(b.numer.clone()), BigUint::new(b.denom.clone()));
    x == y
}

/// `Integer::div_rem` of num-integer on two `BigUint`. Claims: the quotient
/// and remainder of Euclidean division.
#[verifier::external_body]
pub(crate) fn biguint_div_rem(n: &Vec<u32>, d: &Vec<u32>) -> (r: (Vec<u32>, Vec<u32>))
    requires
        digits_value(d@) > 0,
    ensures
        digits_value(r.0@) == digits_value(n@) / digits_value(d@),
        digits_value(r.1@) == digits_value(n@) % digits_value(d@),
{
    let (q, m) = BigUint::new(n.clone()).div_rem(&BigUint::new(d.clone()));
    (q.to_u32_digits(), m.to_u32_digits())
}

/// Division of a `BigUint` of num-bigint by two. Claims: the floor of half
/// the value.
#[verifier::external_body]
fn biguint_halve(d: &Vec<u32>) -> (r: Vec<u32>)
    ensures
        digits_value(r@) == digits_value(d@) / 2,
{
    (BigUint::new(d.clone()) / BigUint::from(2u32)).to_u32_digits()
}

/// `==` of a `BigUint` of num-bigint with zero. Claims: true exactly when the
/// value is zero.
#[verifier::external_body]
fn biguint_is_zero(d: &Vec<u32>) -> (r: bool)
    ensures
        r == (digits_value(d@) == 0),
{
    BigUint::new(d.clone()) == BigUint::from(0u32)
}


/// Powers of two add their exponents when multiplied.
pub proof fn lemma_two_to_adds(a: nat, b: nat)
    ensures
        two_to(a + b) == two_to(a) * two_to(b),
        two_to(a) >= 1,
    decreases a,
{
    if a > 0 {
        lemma_two_to_adds((a - 1) as nat, b);
        assert(two_to(a + b) == 2 * two_to((a - 1 + b) as nat));
        assert(two_to(a + b) == two_to(a) * two_to(b)) by (nonlinear_arith)
            requires
                two_to(a + b) == 2 * two_to((a - 1 + b) as nat),
                two_to((a - 1 + b) as nat) == two_to((a - 1) as nat) * two_to(b),
                two_to(a) == 2 * two_to((a - 1) as nat),
        ;
    } else {
        assert(two_to(a) == 1);
        assert(a + b == b);
        assert(two_to(a) * two_to(b) == two_to(b)) by (nonlinear_arith)
            requires
                two_to(a) == 1,
        ;
    }
}

/// Two to the power `exponent`, for exponents that fit in 32 bits.
pub fn power_of_two(exponent: u32) -> (p: u32)
    requires
        exponent < 32,
    ensures
        p as nat == two_to(exponent as nat),
        p >= 1,
{
    proof {
        lemma_two_to_adds(exponent as nat, 0);
    }
    proof {
        reveal_with_fuel(two_to, 32);
        assert(two_to(31) == 0x8000_0000);
    }
    let mut p: u32 = 1;
    let mut i: u32 = 0;
    while i < exponent
        invariant
            i <= exponent < 32,
            p as nat == two_to(i as nat),
            two_to(31) == 0x8000_0000,
        decreases exponent - i,
    {
        proof {
            lemma_two_to_adds((i + 1) as nat, (30 - i) as nat);
            lemma_two_to_adds((30 - i) as nat, 0);
            assert((i + 1) as nat + (30 - i) as nat == 31);
            assert(two_to((i + 1) as nat) == 2 * p);
            assert(two_to((i + 1) as nat) <= 0x8000_0000) by (nonlinear_arith)
                requires
                    two_to((i + 1) as nat) * two_to((30 - i) as nat) == 0x8000_0000,
                    two_to((30 - i) as nat) >= 1,
            ;
        }
        p = p * 2;
        i = i + 1;
    }
    p
}

/// `a` and `b` name the same number, and so do `b` and `c`: then `a` and `c` do.
pub proof fn lemma_rat_eq_transitive(an: int, ad: int, bn: int, bd: int, cn: int, cd: int)
    requires
        bd > 0,
        rat_eq(an, ad, bn, bd),
        rat_eq(bn, bd, cn, cd),
    ensures
        rat_eq(an, ad, cn, cd),
{
    assert(an * cd * bd == cn * ad * bd) by (nonlinear_arith)
        requires
            an * bd == bn * ad,
            bn * cd == cn * bd,
    ;
    assert(an * cd == cn * ad) by (nonlinear_arith)
        requires
            an * cd * bd == cn * ad * bd,
            bd > 0,
    ;
}

/// Sums of equal rationals are equal.
pub proof fn lemma_rat_add_congruent(
    an: int, ad: int, bn: int, bd: int, xn: int, xd: int, yn: int, yd: int,
)
    requires
        rat_eq(an, ad, xn, xd),
        rat_eq(bn, bd, yn, yd),
    ensures
        rat_eq(an * bd + bn * ad, ad * bd, xn * yd + yn * xd, xd * yd),
{
    assert(an * bd * (xd * yd) == xn * yd * (ad * bd)) by (nonlinear_arith)
        requires
            an * xd == xn * ad,
    ;
    assert(bn * ad * (xd * yd) == yn * xd * (ad * bd)) by (nonlinear_arith)
        requires
            bn * yd == yn * bd,
    ;
    assert((an * bd + bn * ad) * (xd * yd) == an * bd * (xd * yd) + bn * ad * (xd * yd))
        by (nonlinear_arith);
    assert((xn * yd + yn * xd) * (ad * bd) == xn * yd * (ad * bd) + yn * xd * (ad * bd))
        by (nonlinear_arith);
}

/// The numerator of the length in whole notes of a duration of `2^log2`
/// whole notes with `dots` augmentation dots: `2^log2 * (2 - 2^-dots)`.
pub open spec fn whole_notes_long_num(log2: int, dots: nat) -> int {
    (two_to(dots + 1) - 1) * (if log2 >= 0 { two_to(log2 as nat) as int } else { 1 })
}

/// The denominator that goes with `whole_notes_long_num`.
pub open spec fn whole_notes_long_den(log2: int, dots: nat) -> int {
    two_to(dots) * (if log2 < 0 { two_to((-log2) as nat) as int } else { 1 })
}

/// The length in whole notes of a duration of `2^log2_duration` whole notes
/// with `augmentation_dots` dots, each dot adding half the previous addition.
pub fn whole_notes_long(log2_duration: i8, augmentation_dots: u8) -> (length: WholeNotes)
    requires
        -32 < log2_duration < 32,
    ensures
        length.wf(),
        rat_eq(
            length.num(),
            length.den(),
            whole_notes_long_num(log2_duration as int, augmentation_dots as nat),
            whole_notes_long_den(log2_duration as int, augmentation_dots as nat),
        ),
        divides(length.den(), whole_notes_long_den(log2_duration as int, augmentation_dots as nat)),
        lowest_terms(length),
{
    let ghost bn: int = if log2_duration >= 0 { two_to(log2_duration as nat) as int } else { 1 };
    let ghost bd: int = if log2_duration < 0 { two_to((-log2_duration) as nat) as int } else { 1 };
    let base = if log2_duration >= 0 {
        ratio_from_integers(power_of_two(log2_duration as u32), 1)
    } else {
        ratio_from_integers(1, power_of_two((-log2_duration) as u32))
    };
    proof {
        lemma_two_to_adds((if log2_duration < 0 { -log2_duration } else { 0 }) as nat, 0);
        lemma_two_to_adds((if log2_duration >= 0 { log2_duration } else { 0 }) as nat, 0);
        reveal_with_fuel(two_to, 2);
        assert(bd * two_to(0) == bd);
    }
    let mut whole = base.duplicate();
    let mut dot = base;
    let mut i: u8 = 0;
    while i < augmentation_dots
        invariant
            i <= augmentation_dots,
            bd > 0,
            bn > 0,
            whole.wf(),
            dot.wf(),
            rat_eq(dot.num(), dot.den(), bn, bd * two_to(i as nat)),
            rat_eq(whole.num(), whole.den(), bn * (two_to((i + 1) as nat) - 1), bd * two_to(i as nat)),
            divides(dot.den(), bd * two_to(i as nat)),
            divides(whole.den(), bd * two_to(i as nat)),
            lowest_terms(whole),
        decreases augmentation_dots - i,
    {
        let ghost x: int = two_to(i as nat) as int;
        proof {
            lemma_two_to_adds(i as nat, 0);
            assert(two_to((i + 1) as nat) == 2 * x);
            assert(two_to((i + 2) as nat) == 2 * two_to((i + 1) as nat));
        }
        let half = ratio_halve(&dot);
        proof {
            assert(rat_eq(dot.num(), 2 * dot.den(), bn, bd * (2 * x))) by (nonlinear_arith)
                requires
                    dot.num() * (bd * x) == bn * dot.den(),
            ;
            lemma_rat_eq_transitive(half.num(), half.den(), dot.num(), 2 * dot.den(), bn, bd * (2 * x));
        }
        proof {
            assert(bd * (2 * x) == (bd * x) * 2) by (nonlinear_arith);
            lemma_divides_multiple(dot.den(), bd * x, 2);
            assert(divides(2 * dot.den(), bd * (2 * x))) by {
                vstd::arithmetic::div_mod::lemma_fundamental_div_mod(bd * x, dot.den());
                assert(bd * (2 * x) == (bd * x / dot.den()) * (2 * dot.den())) by (nonlinear_arith)
                    requires
                        bd * x == dot.den() * (bd * x / dot.den()) + 0,
                ;
                vstd::arithmetic::div_mod::lemma_mod_multiples_basic(bd * x / dot.den(), 2 * dot.den());
            }
            lemma_divides_transitive(half.den(), 2 * dot.den(), bd * (2 * x));
            lemma_divides_multiple(whole.den(), bd * x, 2);
        }
        let sum = ratio_add(&whole, &half);
        proof {
            lemma_rat_add_congruent(
                whole.num(), whole.den(), half.num(), half.den(),
                bn * (2 * x - 1), bd * x, bn, bd * (2 * x),
            );
            assert(rat_eq(
                bn * (2 * x - 1) * (bd * (2 * x)) + bn * (bd * x), bd * x * (bd * (2 * x)),
                bn * (4 * x - 1), bd * (2 * x),
            )) by (nonlinear_arith)
                requires
                    bd > 0,
                    x > 0,
            ;
            assert(whole.den() * half.den() > 0) by (nonlinear_arith)
                requires
                    whole.den() > 0,
                    half.den() > 0,
            ;
            assert(bd * x * (bd * (2 * x)) > 0) by (nonlinear_arith)
                requires
                    bd > 0,
                    x > 0,
            ;
            lemma_rat_eq_transitive(
                sum.num(), sum.den(),
                whole.num() * half.den() + half.num() * whole.den(), whole.den() * half.den(),
                bn * (2 * x - 1) * (bd * (2 * x)) + bn * (bd * x), bd * x * (bd * (2 * x)),
            );
            lemma_rat_eq_transitive(
                sum.num(), sum.den(),
                bn * (2 * x - 1) * (bd * (2 * x)) + bn * (bd * x), bd * x * (bd * (2 * x)),
                bn * (4 * x - 1), bd * (2 * x),
            );
        }
        whole = sum;
        dot = half;
        i = i + 1;
    }
    proof {
        let d = augmentation_dots as nat;
        assert(whole_notes_long_num(log2_duration as int, d) == (two_to(d + 1) - 1) * bn)
            by (nonlinear_arith)
            requires
                whole_notes_long_num(log2_duration as int, d) == (two_to(d + 1) - 1) * bn,
        ;
        assert(bn * (two_to(d + 1) - 1) == (two_to(d + 1) - 1) * bn) by (nonlinear_arith);
        assert(bd * two_to(d) == whole_notes_long_den(log2_duration as int, d)) by (nonlinear_arith)
            requires
                whole_notes_long_den(log2_duration as int, d) == two_to(d) * bd,
        ;
        assert(divides(whole.den(), whole_notes_long_den(log2_duration as int, d)));
    }
    whole
}


/// The exponents of the rests that spell `n / d` whole notes, longest first,
/// the first of which is `2^k` whole notes: at each step a rest of the
/// current length is taken when the remaining length holds it, then the
/// length halves (`d` halves, rounding down).
pub open spec fn rest_exponents(n: nat, d: nat, k: int) -> Seq<int>
    decreases d,
{
    if d == 0 {
        Seq::empty()
    } else {
        let rest = rest_exponents(n % d, d / 2, k - 1);
        if n / d != 0 {
            seq![k].add(rest)
        } else {
            rest
        }
    }
}

/// The sum of `2^(e + shift)` over the exponents `e`.
pub open spec fn exponent_sum(exponents: Seq<int>, shift: int) -> int
    decreases exponents.len(),
{
    if exponents.len() == 0 {
        0
    } else {
        two_to((exponents[0] + shift) as nat) + exponent_sum(exponents.drop_first(), shift)
    }
}

/// The values of a sequence of `i8` as integers.
pub open spec fn as_ints(s: Seq<i8>) -> Seq<int> {
    Seq::new(s.len(), |i: int| s[i] as int)
}

/// The rests spelled for a length of `n / 2^m` whole notes, less than two
/// whole notes, add up to exactly that length: the sum of `2^e` over the
/// exponents `e` is `n / 2^m`.
pub proof fn lemma_rests_fill_length(n: nat, m: nat, k: int)
    requires
        n < 2 * two_to(m),
    ensures
        exponent_sum(rest_exponents(n, two_to(m), k), m - k) == n,
        forall|i: int|
            0 <= i < rest_exponents(n, two_to(m), k).len() ==> k - m <= #[trigger] rest_exponents(
                n,
                two_to(m),
                k,
            )[i] <= k,
    decreases m,
{
    let d = two_to(m);
    lemma_two_to_adds(m, 0);
    let seq_r = rest_exponents(n, d, k);
    if m == 0 {
        assert(d == 1);
        assert(rest_exponents(n % d, 0, k - 1) =~= Seq::<int>::empty());
        if n == 1 {
            assert(seq_r =~= seq![k]);
            assert(seq![k].drop_first() =~= Seq::<int>::empty());
            assert(exponent_sum(seq_r, m - k) == two_to(0) + exponent_sum(Seq::<int>::empty(), m - k));
        } else {
            assert(seq_r =~= Seq::<int>::empty());
        }
    } else {
        let half = two_to((m - 1) as nat);
        assert(d == 2 * half);
        assert(d / 2 == half);
        lemma_rests_fill_length(n % d, (m - 1) as nat, k - 1);
        let tail = rest_exponents(n % d, half, k - 1);
        assert((m - 1) as nat - (k - 1) == m - k);
        if n / d != 0 {
            assert(n / d == 1 && n % d == n - d) by (nonlinear_arith)
                requires
                    n < 2 * d,
                    d > 0,
                    n / d != 0,
            ;
            assert(seq_r == seq![k].add(tail));
            assert(seq_r.drop_first() =~= tail);
            assert(seq_r[0] == k);
            assert((k + (m - k)) as nat == m);
            assert forall|i: int| 0 <= i < seq_r.len() implies k - m <= #[trigger] seq_r[i] <= k by {
                if i > 0 {
                    assert(seq_r[i] == tail[i - 1]);
                }
            }
        } else {
            assert(n < d && n % d == n) by (nonlinear_arith)
                requires
                    d > 0,
                    n / d == 0,
            ;
        }
    }
}

/// The exponents of the rests that fill a length of whole notes, longest
/// first: rests of `2^e` whole notes for each `e` of the result, all of them
/// `e <= 0`.
pub fn rest_log2_durations(rest: &WholeNotes) -> (exponents: Vec<i8>)
    requires
        rest.wf(),
        rest.den() < two_to(31),
    ensures
        as_ints(exponents@) == rest_exponents(rest.num() as nat, rest.den() as nat, 0),
        forall|i: int| 0 <= i < exponents.len() ==> -30 <= #[trigger] exponents[i] <= 0,
{
    let ghost n0 = rest.num() as nat;
    let ghost d0 = rest.den() as nat;
    let mut denominator = rest.denom.clone();
    let mut numerator = rest.numer.clone();
    let mut exponents: Vec<i8> = Vec::new();
    let mut rest_log2_duration: i8 = 0;
    proof {
        lemma_two_to_adds(0, 0);
        assert(denominator@ == rest.denom@);
        assert(two_to(0) == 1);
        assert(digits_value(denominator@) * two_to(0) == d0) by (nonlinear_arith)
            requires
                digits_value(denominator@) == d0,
                two_to(0) == 1,
        ;
        assert(as_ints(exponents@) + rest_exponents(n0, d0, 0) =~= rest_exponents(n0, d0, 0));
    }
    while !biguint_is_zero(&denominator)
        invariant
            d0 < two_to(31),
            rest_log2_duration <= 0,
            digits_value(denominator@) * two_to((-rest_log2_duration) as nat) <= d0,
            as_ints(exponents@) + rest_exponents(
                digits_value(numerator@),
                digits_value(denominator@),
                rest_log2_duration as int,
            ) == rest_exponents(n0, d0, 0),
            forall|i: int| 0 <= i < exponents.len() ==> -30 <= #[trigger] exponents[i] <= 0,
        decreases digits_value(denominator@),
    {
        let ghost n = digits_value(numerator@);
        let ghost d = digits_value(denominator@);
        let ghost k = rest_log2_duration as int;
        proof {
            lemma_two_to_adds(31, (-k - 31) as nat);
            lemma_two_to_adds((-k) as nat, 0);
            if -k >= 31 {
                assert(two_to((-k) as nat) >= two_to(31)) by (nonlinear_arith)
                    requires
                        two_to((31 + (-k - 31)) as nat) == two_to(31) * two_to((-k - 31) as nat),
                        (31 + (-k - 31)) as nat == (-k) as nat,
                        two_to(31) >= 1,
                        two_to((-k - 31) as nat) >= 1,
                ;
                assert(d * two_to((-k) as nat) >= two_to(31)) by (nonlinear_arith)
                    requires
                        d >= 1,
                        two_to((-k) as nat) >= two_to(31),
                ;
            }
        }
        let division = biguint_div_rem(&numerator, &denominator);
        let halved = biguint_halve(&denominator);
        let ghost rest_seq = rest_exponents(n % d, d / 2, k - 1);
        proof {
            assert(rest_exponents(n, d, k) == if n / d != 0 { seq![k].add(rest_seq) } else { rest_seq });
            lemma_two_to_adds(1, (-k) as nat);
            assert(two_to(1) == 2) by {
                reveal_with_fuel(two_to, 2);
            }
            assert((d / 2) * two_to((1 - k) as nat) <= d0) by (nonlinear_arith)
                requires
                    d * two_to((-k) as nat) <= d0,
                    two_to((1 + (-k) as nat) as nat) == 2 * two_to((-k) as nat),
                    (1 + (-k) as nat) as nat == (1 - k) as nat,
                    d >= 1,
            ;
        }
        if !biguint_is_zero(&division.0) {
            let ghost before = exponents@;
            exponents.push(rest_log2_duration);
            numerator = division.1;
            proof {
                assert(as_ints(exponents@) =~= as_ints(before).push(k));
                assert(as_ints(exponents@) + rest_seq =~= as_ints(before) + seq![k].add(rest_seq));
            }
        } else {
            proof {
                assert(n % d == n) by (nonlinear_arith)
                    requires
                        d > 0,
                        n / d == 0,
                ;
            }
        }
        denominator = halved;
        rest_log2_duration = rest_log2_duration - 1;
    }
    proof {
        assert(rest_exponents(digits_value(numerator@), 0, rest_log2_duration as int)
            =~= Seq::<int>::empty());
        assert(as_ints(exponents@) + Seq::<int>::empty() =~= as_ints(exponents@));
    }
    exponents
}

/// The binary digits after the point of `remainder / denominator` (a
/// fraction below one), one per step, up to and including the step whose
/// remainder is zero, for at most `steps` steps.
pub open spec fn fraction_bits(remainder: int, denominator: int, steps: nat) -> Seq<u8>
    decreases steps,
{
    if steps == 0 {
        Seq::empty()
    } else {
        let bit = (2 * remainder) / denominator;
        let next = (2 * remainder) % denominator;
        if next == 0 {
            seq![bit as u8]
        } else {
            seq![bit as u8] + fraction_bits(next, denominator, (steps - 1) as nat)
        }
    }
}

/// The value of the binary digits after the point.
pub open spec fn bits_value_num(bits: Seq<u8>) -> int
    decreases bits.len(),
{
    if bits.len() == 0 {
        0
    } else {
        bits_value_num(bits.drop_last()) * 2 + bits.last()
    }
}

/// Digits whose value fits in 32 bits hold it in their first digit.
proof fn lemma_small_digits(d: Seq<u32>)
    requires
        digits_value(d) < 0x1_0000_0000,
    ensures
        digits_value(d) == if d.len() == 0 { 0 } else { d[0] as nat },
{
    if d.len() > 0 {
        assert(digits_value(d) == d[0] as nat + 0x1_0000_0000 * digits_value(d.drop_first()));
        if digits_value(d.drop_first()) > 0 {
            assert(0x1_0000_0000 * digits_value(d.drop_first()) >= 0x1_0000_0000) by (nonlinear_arith)
                requires
                    digits_value(d.drop_first()) > 0,
            ;
        }
    }
}

/// The lowest byte of a value in base-2^32 digits is that of its first digit.
proof fn lemma_low_byte(d: Seq<u32>)
    ensures
        digits_value(d) % 256 == if d.len() == 0 { 0 } else { d[0] as nat % 256 },
{
    if d.len() > 0 {
        let rest = digits_value(d.drop_first()) as int;
        assert(digits_value(d) == d[0] as nat + 0x1_0000_0000 * digits_value(d.drop_first()));
        assert(0x1_0000_0000 * rest == 256 * (0x100_0000 * rest)) by (nonlinear_arith);
        vstd::arithmetic::div_mod::lemma_mod_multiples_vanish(0x100_0000 * rest, d[0] as int, 256);
    }
}

/// A remainder doubled `s` times, reduced each time, is the remainder of
/// the value times 2^s; once the denominator divides 2^s it is zero.
proof fn lemma_doubled_remainder(r: int, d: int, s: nat)
    requires
        d > 0,
    ensures
        (2 * ((r * two_to(s)) % d)) % d == (r * two_to(s + 1)) % d,
        divides(d, two_to(s) as int) ==> (r * two_to(s)) % d == 0,
{
    vstd::arithmetic::div_mod::lemma_mul_mod_noop_right(2, r * two_to(s), d);
    assert(two_to(s + 1) == 2 * two_to(s));
    assert(2 * (r * two_to(s)) == r * two_to(s + 1)) by (nonlinear_arith)
        requires
            two_to(s + 1) == 2 * two_to(s),
    ;
    if divides(d, two_to(s) as int) {
        let k = two_to(s) as int / d;
        assert(two_to(s) as int == k * d) by {
            vstd::arithmetic::div_mod::lemma_fundamental_div_mod(two_to(s) as int, d);
        }
        assert(r * two_to(s) == (r * k) * d) by (nonlinear_arith)
            requires
                two_to(s) as int == k * d,
        ;
        vstd::arithmetic::div_mod::lemma_mod_multiples_basic(r * k, d);
    }
}

/// The lowest byte of the whole part of a length in whole notes, and the
/// binary digits of its fraction after the point, as far as the last 1; the
/// denominator divides 2^30, so at most thirty digits follow.
pub fn duration_binary_digits(length: &WholeNotes) -> (digits: (u8, Vec<u8>))
    requires
        length.wf(),
        divides(length.den(), two_to(30) as int),
    ensures
        digits.0 == (length.num() / length.den()) % 256,
        digits.1@ == fraction_bits(length.num() % length.den(), length.den(), 30),
{
    let division = biguint_div_rem(&length.numer, &length.denom);
    let ghost n = length.num();
    let ghost d = length.den();
    proof {
        reveal_with_fuel(two_to, 31);
        assert(two_to(30) == 0x4000_0000);
        assert(d <= two_to(30)) by {
            if d > two_to(30) {
                vstd::arithmetic::div_mod::lemma_small_mod(two_to(30), d as nat);
            }
        }
        lemma_small_digits(length.denom@);
        lemma_small_digits(division.1@);
        lemma_low_byte(division.0@);
    }
    let denominator: u64 = if length.denom.len() == 0 { 0 } else { length.denom[0] as u64 };
    let whole: u8 = if division.0.len() == 0 { 0 } else { (division.0[0] % 256) as u8 };
    let first: u64 = if division.1.len() == 0 { 0 } else { division.1[0] as u64 };
    let ghost r0 = n % d;
    let mut remainder: u64 = first;
    let mut bits: Vec<u8> = Vec::new();
    let mut steps: u64 = 0;
    proof {
        assert(two_to(0) == 1);
        assert(r0 * two_to(0) == r0);
        vstd::arithmetic::div_mod::lemma_small_mod(r0 as nat, d as nat);
    }
    loop
        invariant_except_break
            steps < 30,
            remainder == (r0 * two_to(steps as nat)) % d,
            fraction_bits(r0, d, 30) == bits@ + fraction_bits(remainder as int, d, (30 - steps) as nat),
        invariant
            d > 0,
            d <= 0x4000_0000,
            denominator == d,
            divides(d, two_to(30) as int),
            0 <= r0 < d,
        ensures
            fraction_bits(r0, d, 30) == bits@,
        decreases 30 - steps,
    {
        let doubled = 2 * remainder;
        let bit = doubled / denominator;
        let next = doubled % denominator;
        proof {
            lemma_doubled_remainder(r0, d, steps as nat);
            assert(bit <= 1) by (nonlinear_arith)
                requires
                    bit == doubled / denominator,
                    doubled < 2 * denominator,
                    denominator > 0,
            ;
            assert(fraction_bits(remainder as int, d, (30 - steps) as nat) == if next == 0 {
                seq![bit as u8]
            } else {
                seq![bit as u8] + fraction_bits(next as int, d, (30 - steps - 1) as nat)
            });
        }
        let ghost earlier = bits@;
        bits.push(bit as u8);
        steps = steps + 1;
        if next == 0 {
            proof {
                assert(fraction_bits(r0, d, 30) == bits@) by {
                    assert(bits@ =~= earlier + seq![bit as u8]);
                }
            }
            break;
        }
        proof {
            assert(next == (r0 * two_to(steps as nat)) % d);
            lemma_doubled_remainder(r0, d, 30);
            assert(steps < 30);
            assert(bits@ + fraction_bits(next as int, d, (30 - steps) as nat) =~= earlier + (seq![bit as u8]
                + fraction_bits(next as int, d, (30 - steps) as nat)));
        }
        remainder = next;
    }
    (whole, bits)
}

} // verus!
