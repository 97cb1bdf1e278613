//! Arithmetic in the prime field of `3 * 2^30 + 1` elements.

use vstd::arithmetic::div_mod::*;
use vstd::arithmetic::mul::*;
use vstd::arithmetic::power::*;
use vstd::prelude::*;
use vstd::std_specs::ops::{AddSpec, DivSpec, MulSpec, SubSpec};

verus! {

/// The field's modulus, `3 * 2^30 + 1`.
pub const FIELD_PRIME: u32 = 3221225473;

/// A generator of the field's multiplicative group.
pub const FIELD_GENERATOR: u32 = 5;

/// The modulus as a mathematical integer.
pub open spec fn prime() -> nat {
    3221225473
}

/// `base` raised to `exp`, reduced into the field.
pub open spec fn pow_mod(base: nat, exp: nat) -> nat {
    (pow(base as int, exp) % (prime() as int)) as nat
}

/// The digit `d` (below ten) as a character.
pub open spec fn digit_char(d: nat) -> char {
    if d == 0 {
        '0'
    } else if d == 1 {
        '1'
    } else if d == 2 {
        '2'
    } else if d == 3 {
        '3'
    } else if d == 4 {
        '4'
    } else if d == 5 {
        '5'
    } else if d == 6 {
        '6'
    } else if d == 7 {
        '7'
    } else if d == 8 {
        '8'
    } else {
        '9'
    }
}

/// The decimal representation of `n`, without leading zeros.
pub open spec fn decimal(n: nat) -> Seq<char>
    decreases n,
{
    if n < 10 {
        seq![digit_char(n)]
    } else {
        decimal(n / 10).push(digit_char(n % 10))
    }
}

/// Whether `n` passes the order test for the residue `a`: `a^n` is one, and
/// `a^i` is not one for any divisor `i` of `n` with `2 <= i < n`.
pub open spec fn order_test(a: nat, n: nat) -> bool {
    &&& pow_mod(a, n) == 1
    &&& forall|i: nat| 2 <= i < n && #[trigger] (n % i) == 0 ==> pow_mod(a, i) != 1
}

/// Why a field operation was refused.
#[derive(Clone, Copy, Debug, PartialEq, Eq, Structural)]
pub enum FieldError {
    /// The zero element has no multiplicative inverse.
    DivisionByZero,
}

/// An element of the field: a residue below the modulus.
#[derive(Clone, Copy, Debug, PartialEq, Eq, Structural)]
pub struct FieldElement {
    val: u32,
}

impl View for FieldElement {
    type V = nat;

    closed spec fn view(&self) -> nat {
        self.val as nat
    }
}

/// `modulo::Mod::modulo` on two `u64`: for a modulus other than zero the
/// result is the remainder of the division, which for unsigned integers is
/// never negative and so is returned as `%` gives it.
#[verifier::external_body]
fn euclid_mod(a: u64, m: u64) -> (r: u64)
    requires
        m != 0,
    ensures
        r == a % m,
{
    modulo::Mod::modulo(a, m)
}

/// `rand::Rng::gen_range` on the thread's generator with the range
/// `0..bound`: the range is not empty, and the sample lies in it.
#[verifier::external_body]
fn random_below(bound: u32) -> (r: u32)
    requires
        bound > 0,
    ensures
        r < bound,
{
    rand::Rng::gen_range(&mut rand::thread_rng(), 0..bound)
}

/// `ToString::to_string` on a `u64`: the decimal digits of the number, most
/// significant first, without sign or leading zeros.
#[verifier::external_body]
pub(crate) fn u64_to_string(v: u64) -> (r: String)
    ensures
        r@ == decimal(v as nat),
{
    v.to_string()
}

impl FieldElement {
    #[verifier::type_invariant]
    closed spec fn reduced(self) -> bool {
        self.val < FIELD_PRIME
    }

    /// The element of the residue class of `val`.
    pub closed spec fn spec_new(val: u32) -> FieldElement {
        FieldElement { val: (val as nat % prime()) as u32 }
    }

    /// The additive identity.
    pub closed spec fn spec_zero() -> FieldElement {
        FieldElement { val: 0 }
    }

    /// The multiplicative identity.
    pub closed spec fn spec_one() -> FieldElement {
        FieldElement { val: 1 }
    }

    /// The element of the residue class of `val`.
    pub fn new(val: u32) -> (r: Self)
        ensures
            r == Self::spec_new(val),
            r@ < prime(),
            r@ == (val as nat) % prime(),
    {
        let reduced = euclid_mod(val as u64, FIELD_PRIME as u64);
        FieldElement { val: reduced as u32 }
    }

    /// The additive identity.
    pub fn zero() -> (r: Self)
        ensures
            r == Self::spec_zero(),
            r@ == 0,
    {
        proof {
            lemma_small_mod(0, prime());
        }
        Self::new(0)
    }

    /// The multiplicative identity.
    pub fn one() -> (r: Self)
        ensures
            r == Self::spec_one(),
            r@ == 1,
    {
        proof {
            lemma_small_mod(1, prime());
        }
        Self::new(1)
    }

    /// The field's modulus.
    pub fn get_prime() -> (r: u32)
        ensures
            r == prime(),
    {
        FIELD_PRIME
    }

    /// The generator of the multiplicative group.
    pub fn get_generator(&self) -> (r: u32)
        ensures
            r == 5,
    {
        FIELD_GENERATOR
    }

    /// The residue, which is below the modulus.
    pub fn value(&self) -> (r: u32)
        ensures
            r == self@,
            r < prime(),
    {
        proof {
            use_type_invariant(self);
        }
        self.val
    }

    /// The decimal representation of the residue.
    pub fn to_string(&self) -> (r: String)
        ensures
            r@ == decimal(self@),
    {
        u64_to_string(self.val as u64)
    }

    /// A residue drawn from the thread's random generator.
    pub fn random_element() -> (r: Self)
        ensures
            r@ < prime(),
    {
        Self::new(random_below(FIELD_PRIME))
    }

    /// The product of two residues, reduced through a 64-bit intermediate.
    fn mul_reduced(a: u32, b: u32) -> (r: u32)
        requires
            a < FIELD_PRIME,
            b < FIELD_PRIME,
        ensures
            r < FIELD_PRIME,
            r == (a * b) % (prime() as int),
    {
        assert((a as u64) * (b as u64) <= 0xffff_ffff * 0xffff_ffff) by (nonlinear_arith)
            requires
                a <= 0xffff_ffff,
                b <= 0xffff_ffff,
        ;
        let wide: u64 = (a as u64) * (b as u64);
        (wide % (FIELD_PRIME as u64)) as u32
    }

    /// `self` raised to `exp`, by repeated squaring.
    pub fn pow(&self, exp: u32) -> (r: Self)
        ensures
            r@ < prime(),
            r@ == pow_mod(self@, exp as nat),
    {
        proof {
            use_type_invariant(self);
        }
        let mut base: u32 = self.val;
        let mut result: u32 = 1;
        let mut exponent: u32 = exp;
        proof {
            lemma_mul_basics(pow(base as int, exponent as nat));
        }
        while exponent > 0
            invariant
                base < FIELD_PRIME,
                result < FIELD_PRIME,
                (result * pow(base as int, exponent as nat)) % (prime() as int) == pow(
                    self.val as int,
                    exp as nat,
                ) % (prime() as int),
            decreases exponent,
        {
            let ghost b = base as int;
            let ghost e = exponent as nat;
            let ghost acc = result as int;
            proof {
                lemma_square_step(b, e);
            }
            if exponent % 2 == 1 {
                result = Self::mul_reduced(result, base);
                proof {
                    // acc * (b * pow(b*b, e/2)) == (acc*b) * pow(b*b, e/2)
                    let rest = pow(b * b, e / 2);
                    lemma_mul_is_associative(acc, b, rest);
                    lemma_mul_mod_noop_left(acc * b, rest, prime() as int);
                    lemma_mul_mod_noop_left(b * b, 1, prime() as int);
                }
            }
            base = Self::mul_reduced(base, base);
            exponent = exponent / 2;
            proof {
                lemma_pow_mod_base(b * b, e / 2);
                lemma_mul_mod_noop_right(result as int, pow(b * b, e / 2), prime() as int);
                lemma_mul_mod_noop_right(result as int, pow(base as int, e / 2), prime() as int);
            }
        }
        proof {
            lemma_pow0(base as int);
            lemma_small_mod(result as nat, prime());
        }
        FieldElement { val: result }
    }

    /// Whether `n` passes the order test for `self`: `self^n` is one and no
    /// divisor `i` of `n` with `2 <= i < n` has `self^i` equal to one. The
    /// divisors are visited in pairs `i`, `n / i` with `i * i <= n`.
    pub fn is_order(&self, n: u32) -> (r: bool)
        requires
            n >= 1,
        ensures
            r == order_test(self@, n as nat),
    {
        if self.pow(n).val != 1 {
            return false;
        }
        let mut i: u32 = 2;
        while (i as u64) * (i as u64) <= (n as u64)
            invariant
                2 <= i,
                i <= 0x1_0000,
                i * i <= 0x1_0000 * 0x1_0000,
                n >= 1,
                pow_mod(self@, n as nat) == 1,
                forall|d: nat|
                    2 <= d < i && #[trigger] (n as nat % d) == 0 ==> pow_mod(self@, d) != 1
                        && pow_mod(self@, n as nat / d) != 1,
            decreases 0x1_0000 - i,
        {
            assert(i < 0x1_0000) by (nonlinear_arith)
                requires
                    i * i <= n,
                    n <= 0xffff_ffff,
                    i <= 0x1_0000,
            ;
            if n % i == 0 {
                let j: u32 = n / i;
                if self.pow(i).val == 1 || self.pow(j).val == 1 {
                    proof {
                        assert(i < n) by (nonlinear_arith)
                            requires
                                i * i <= n,
                                i >= 2,
                        ;
                        lemma_cofactor(n as nat, i as nat);
                        assert(n as nat % (i as nat) == 0);
                        assert(n as nat % (j as nat) == 0);
                    }
                    return false;
                }
            }
            i = i + 1;
            assert(i * i <= 0x1_0000 * 0x1_0000) by (nonlinear_arith)
                requires
                    i <= 0x1_0000,
            ;
        }
        proof {
            assert forall|d: nat| 2 <= d < n && #[trigger] (n as nat % d) == 0 implies pow_mod(
                self@,
                d,
            ) != 1 by {
                if d >= i {
                    lemma_cofactor(n as nat, d);
                    let e = n as nat / d;
                    assert(e < i) by (nonlinear_arith)
                        requires
                            e * d == n,
                            d >= i,
                            i * i > n,
                            i >= 2,
                    ;
                    assert(n as nat % e == 0);
                    assert(n as nat / e == d);
                }
            }
        }
        true
    }

    /// The multiplicative inverse, computed as `self^(p - 2)`. It is refused
    /// for the zero element, and only for it.
    pub fn inverse(&self) -> (r: Result<Self, FieldError>)
        ensures
            self@ == 0 <==> r is Err,
            r matches Ok(v) ==> {
                &&& v@ < prime()
                &&& v@ == pow_mod(self@, (prime() - 2) as nat)
                &&& (self@ * v@) % prime() == 1
            },
    {
        if self.val == 0 {
            Err(FieldError::DivisionByZero)
        } else {
            let v = self.pow(FIELD_PRIME - 2);
            proof {
                use_type_invariant(self);
                crate::fermat::lemma_inverse_law(*self, v);
            }
            Ok(v)
        }
    }
}

/// A divisor `d` of `n` with `2 <= d < n` has a cofactor `n / d` that is
/// again such a divisor, and whose own cofactor is `d`.
proof fn lemma_cofactor(n: nat, d: nat)
    requires
        2 <= d < n,
        n % d == 0,
    ensures
        (n / d) * d == n,
        2 <= n / d < n,
        n % (n / d) == 0,
        n / (n / d) == d,
{
    let e = n / d;
    lemma_fundamental_div_mod(n as int, d as int);
    assert(e * d == n) by (nonlinear_arith)
        requires
            n == d * e + 0,
    ;
    assert(2 <= e < n) by (nonlinear_arith)
        requires
            e * d == n,
            2 <= d < n,
    ;
    lemma_fundamental_div_mod_converse(n as int, e as int, d as int, 0);
}

/// A number below ten has one digit, any other number has more.
pub proof fn lemma_decimal_len(n: nat)
    ensures
        n < 10 ==> decimal(n).len() == 1,
        n >= 10 ==> decimal(n).len() >= 2,
    decreases n,
{
    if n >= 10 {
        lemma_decimal_len(n / 10);
    }
}

/// Squaring the base halves the exponent: `b^e` is `(b*b)^(e/2)`, times `b`
/// once more where `e` is odd.
proof fn lemma_square_step(b: int, e: nat)
    ensures
        e % 2 == 0 ==> pow(b, e) == pow(b * b, e / 2),
        e % 2 == 1 ==> pow(b, e) == b * pow(b * b, e / 2),
{
    let h = e / 2;
    lemma_pow_multiplies(b, 2, h);
    lemma_pow2_is_square(b);
    if e % 2 == 1 {
        assert(e == 2 * h + 1);
        lemma_pow_adds(b, 1, 2 * h);
        lemma_pow1(b);
    } else {
        assert(e == 2 * h);
    }
}

proof fn lemma_pow2_is_square(b: int)
    ensures
        pow(b, 2) == b * b,
{
    reveal_with_fuel(pow, 3);
    lemma_mul_basics(b);
}

/// A product with the inverse of `b`, multiplied by `b`, gives the other
/// factor back.
proof fn lemma_quotient(a: nat, b: nat, inv: nat)
    requires
        a < prime(),
        (b * inv) % prime() == 1,
    ensures
        (((a * inv) % prime()) * b) % prime() == a,
{
    let p = prime() as int;
    lemma_mul_mod_noop_left((a * inv) as int, b as int, p);
    lemma_mul_is_associative(a as int, inv as int, b as int);
    lemma_mul_is_commutative(inv as int, b as int);
    lemma_mul_mod_noop_right(a as int, (b * inv) as int, p);
    lemma_mul_basics(a as int);
    lemma_small_mod(a, prime());
}

/// Reducing the base does not change a power's residue.
proof fn lemma_pow_mod_base(b: int, e: nat)
    ensures
        pow(b % (prime() as int), e) % (prime() as int) == pow(b, e) % (prime() as int),
{
    lemma_pow_mod_noop(b, e, prime() as int);
}

impl vstd::std_specs::ops::AddSpecImpl for FieldElement {
    open spec fn obeys_add_spec() -> bool {
        true
    }

    open spec fn add_req(self, rhs: FieldElement) -> bool {
        true
    }

    closed spec fn add_spec(self, rhs: FieldElement) -> FieldElement {
        FieldElement { val: ((self.val + rhs.val) % (prime() as int)) as u32 }
    }
}

impl core::ops::Add for FieldElement {
    type Output = FieldElement;

    /// The sum of two elements.
    fn add(self, rhs: FieldElement) -> (r: FieldElement)
        ensures
            r@ < prime(),
            r@ == (self@ + rhs@) % prime(),
    {
        proof {
            use_type_invariant(self);
            use_type_invariant(rhs);
        }
        let wide: u64 = self.val as u64 + rhs.val as u64;
        FieldElement { val: euclid_mod(wide, FIELD_PRIME as u64) as u32 }
    }
}

impl vstd::std_specs::ops::SubSpecImpl for FieldElement {
    open spec fn obeys_sub_spec() -> bool {
        true
    }

    open spec fn sub_req(self, rhs: FieldElement) -> bool {
        true
    }

    closed spec fn sub_spec(self, rhs: FieldElement) -> FieldElement {
        FieldElement { val: ((self.val - rhs.val) % (prime() as int)) as u32 }
    }
}

impl core::ops::Sub for FieldElement {
    type Output = FieldElement;

    /// The difference of two elements. Where the minuend is the smaller
    /// residue, the modulus is added before the subtraction.
    fn sub(self, rhs: FieldElement) -> (r: FieldElement)
        ensures
            r@ < prime(),
            r@ == (self@ - rhs@) % (prime() as int),
    {
        proof {
            use_type_invariant(self);
            use_type_invariant(rhs);
        }
        let wide: u64 = if self.val < rhs.val {
            FIELD_PRIME as u64 + self.val as u64 - rhs.val as u64
        } else {
            self.val as u64 - rhs.val as u64
        };
        proof {
            if self.val < rhs.val {
                lemma_mod_add_multiples_vanish(self.val - rhs.val, prime() as int);
            }
        }
        FieldElement { val: euclid_mod(wide, FIELD_PRIME as u64) as u32 }
    }
}

impl vstd::std_specs::ops::MulSpecImpl for FieldElement {
    open spec fn obeys_mul_spec() -> bool {
        true
    }

    open spec fn mul_req(self, rhs: FieldElement) -> bool {
        true
    }

    closed spec fn mul_spec(self, rhs: FieldElement) -> FieldElement {
        FieldElement { val: ((self.val * rhs.val) % (prime() as int)) as u32 }
    }
}

impl core::ops::Mul for FieldElement {
    type Output = FieldElement;

    /// The product of two elements, reduced through a 64-bit intermediate.
    fn mul(self, rhs: FieldElement) -> (r: FieldElement)
        ensures
            r@ < prime(),
            r@ == (self@ * rhs@) % prime(),
    {
        proof {
            use_type_invariant(self);
            use_type_invariant(rhs);
        }
        FieldElement { val: FieldElement::mul_reduced(self.val, rhs.val) }
    }
}

impl vstd::std_specs::ops::DivSpecImpl for FieldElement {
    open spec fn obeys_div_spec() -> bool {
        true
    }

    open spec fn div_req(self, rhs: FieldElement) -> bool {
        true
    }

    closed spec fn div_spec(self, rhs: FieldElement) -> Result<FieldElement, FieldError> {
        if rhs.val == 0 {
            Err(FieldError::DivisionByZero)
        } else {
            Ok(
                FieldElement {
                    val: ((self.val * pow_mod(rhs.val as nat, (prime() - 2) as nat)) % (
                    prime() as int)) as u32,
                },
            )
        }
    }
}

impl core::ops::Div for FieldElement {
    type Output = Result<FieldElement, FieldError>;

    /// The quotient `self * rhs^(p - 2)`. It is refused where `rhs` is the
    /// zero element, and only there.
    fn div(self, rhs: FieldElement) -> (r: Result<FieldElement, FieldError>)
        ensures
            rhs@ == 0 <==> r is Err,
            r matches Ok(v) ==> {
                &&& v@ < prime()
                &&& v@ == (self@ * pow_mod(rhs@, (prime() - 2) as nat)) % prime()
                &&& (v@ * rhs@) % prime() == self@
            },
    {
        proof {
            use_type_invariant(self);
            use_type_invariant(rhs);
        }
        match rhs.inverse() {
            Ok(inv) => {
                proof {
                    use_type_invariant(inv);
                    lemma_quotient(self@, rhs@, inv@);
                }
                Ok(FieldElement { val: FieldElement::mul_reduced(self.val, inv.val) })
            },
            Err(e) => Err(e),
        }
    }
}

impl core::ops::AddAssign for FieldElement {
    /// Replaces `self` by `self + rhs`.
    fn add_assign(&mut self, rhs: FieldElement)
        ensures
            final(self)@ < prime(),
            final(self)@ == (old(self)@ + rhs@) % prime(),
    {
        *self = *self + rhs;
    }
}

impl core::ops::SubAssign for FieldElement {
    /// Replaces `self` by `self - rhs`.
    fn sub_assign(&mut self, rhs: FieldElement)
        ensures
            final(self)@ < prime(),
            final(self)@ == (old(self)@ - rhs@) % (prime() as int),
    {
        *self = *self - rhs;
    }
}

impl core::ops::MulAssign for FieldElement {
    /// Replaces `self` by `self * rhs`.
    fn mul_assign(&mut self, rhs: FieldElement)
        ensures
            final(self)@ < prime(),
            final(self)@ == (old(self)@ * rhs@) % prime(),
    {
        *self = *self * rhs;
    }
}

impl FieldElement {
    /// Replaces `self` by `self / rhs`. Where `rhs` is the zero element the
    /// division is refused and `self` keeps its value.
    pub fn div_assign(&mut self, rhs: FieldElement) -> (r: Result<(), FieldError>)
        ensures
            rhs@ == 0 <==> r is Err,
            r is Err ==> *final(self) == *old(self),
            r is Ok ==> {
                &&& final(self)@ < prime()
                &&& final(self)@ == (old(self)@ * pow_mod(rhs@, (prime() - 2) as nat)) % prime()
                &&& (final(self)@ * rhs@) % prime() == old(self)@
            },
    {
        match *self / rhs {
            Ok(q) => {
                *self = q;
                Ok(())
            },
            Err(e) => Err(e),
        }
    }
}

/// Two elements with the same residue are the same element.
pub proof fn lemma_equal_by_value(a: FieldElement, b: FieldElement)
    ensures
        a@ == b@ <==> a == b,
{
}

/// What the operators compute, as residues.
pub proof fn lemma_operator_values(a: FieldElement, b: FieldElement)
    requires
        a@ < prime(),
        b@ < prime(),
    ensures
        a.add_spec(b)@ == (a@ + b@) % prime(),
        a.sub_spec(b)@ == (a@ - b@) % (prime() as int),
        a.mul_spec(b)@ == (a@ * b@) % prime(),
        FieldElement::spec_zero()@ == 0,
        FieldElement::spec_one()@ == 1,
{
    lemma_mul_nonnegative(a@ as int, b@ as int);
}

/// Sums, differences and products of elements are residues below the
/// modulus.
pub proof fn lemma_closure(a: FieldElement, b: FieldElement)
    requires
        a@ < prime(),
        b@ < prime(),
    ensures
        a.add_spec(b)@ < prime(),
        a.sub_spec(b)@ < prime(),
        a.mul_spec(b)@ < prime(),
{
    lemma_operator_values(a, b);
}

/// Adding zero, or multiplying by one, gives the element back.
pub proof fn lemma_identities(a: FieldElement)
    requires
        a@ < prime(),
    ensures
        a.add_spec(FieldElement::spec_zero()) == a,
        a.mul_spec(FieldElement::spec_one()) == a,
{
    lemma_small_mod(a@, prime());
    lemma_mul_basics(a@ as int);
}

} // verus!
