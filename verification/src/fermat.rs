//! The inverse law of the field: a residue other than zero, raised to the
//! modulus less one, is one, so that `a^(p - 2)` is the inverse of `a`.
//!
//! The proof goes through the generator 5. Its powers with the exponents
//! `p - 1`, `(p - 1) / 2` and `(p - 1) / 3` are computed by repeated
//! squaring; since `p - 1` is `3 * 2^30`, they show that no smaller positive
//! power of 5 is one. The `p - 1` first powers of 5 are therefore different
//! residues other than zero, so they are all of them, and every such residue
//! is a power of 5.

use crate::field::{pow_mod, prime, FieldElement};
use vstd::arithmetic::div_mod::*;
use vstd::arithmetic::mul::*;
use vstd::arithmetic::power::*;
use vstd::arithmetic::power2::*;
use vstd::prelude::*;
use vstd::relations::injective_on;
use vstd::set_lib::*;
use vstd::std_specs::ops::MulSpec;

verus! {

/// The order of the multiplicative group, `p - 1`.
pub open spec fn group_order() -> nat {
    3221225472
}

/// A power with a sum as exponent is the product of the powers.
pub proof fn lemma_pow_mod_adds(a: nat, m: nat, n: nat)
    ensures
        pow_mod(a, m + n) == (pow_mod(a, m) * pow_mod(a, n)) % prime(),
{
    lemma_pow_adds(a as int, m, n);
    lemma_mul_mod_noop(pow(a as int, m), pow(a as int, n), prime() as int);
}

/// A power of a power has the product of the exponents as exponent.
pub proof fn lemma_pow_mod_multiplies(a: nat, m: nat, n: nat)
    ensures
        pow_mod(pow_mod(a, m), n) == pow_mod(a, m * n),
{
    lemma_pow_multiplies(a as int, m, n);
    lemma_pow_mod_noop(pow(a as int, m), n, prime() as int);
}

/// Every power of one is one.
pub proof fn lemma_pow_mod_of_one(n: nat)
    ensures
        pow_mod(1, n) == 1,
{
    lemma1_pow(n);
    lemma_small_mod(1, prime());
}

/// One step of repeated squaring on the generator.
proof fn lemma_generator_square(k: nat, x: nat, y: nat)
    requires
        pow_mod(5, k) == x,
        (x * x) % prime() == y,
    ensures
        pow_mod(5, 2 * k) == y,
{
    lemma_pow_mod_adds(5, k, k);
}

/// The generator raised to `2^30`, a third of the group's order, is not one.
proof fn lemma_generator_third()
    ensures
        pow_mod(5, 1073741824) == 1610563584,
{
    lemma_pow1(5);
    lemma_small_mod(5, prime());
    lemma_generator_square(1, 5, 25);
    lemma_generator_square(2, 25, 625);
    lemma_generator_square(4, 625, 390625);
    lemma_generator_square(8, 390625, 1190293394);
    lemma_generator_square(16, 1190293394, 2658181409);
    lemma_generator_square(32, 2658181409, 2609614933);
    lemma_generator_square(64, 2609614933, 3182078740);
    lemma_generator_square(128, 3182078740, 898048269);
    lemma_generator_square(256, 898048269, 3004042235);
    lemma_generator_square(512, 3004042235, 2869428413);
    lemma_generator_square(1024, 2869428413, 829835748);
    lemma_generator_square(2048, 829835748, 784716921);
    lemma_generator_square(4096, 784716921, 590197985);
    lemma_generator_square(8192, 590197985, 2524259225);
    lemma_generator_square(16384, 2524259225, 2766529116);
    lemma_generator_square(32768, 2766529116, 2468311158);
    lemma_generator_square(65536, 2468311158, 20925706);
    lemma_generator_square(131072, 20925706, 1444475235);
    lemma_generator_square(262144, 1444475235, 2207243129);
    lemma_generator_square(524288, 2207243129, 2838507500);
    lemma_generator_square(1048576, 2838507500, 1147292615);
    lemma_generator_square(2097152, 1147292615, 2054098098);
    lemma_generator_square(4194304, 2054098098, 2632611347);
    lemma_generator_square(8388608, 2632611347, 955475771);
    lemma_generator_square(16777216, 955475771, 1656619387);
    lemma_generator_square(33554432, 1656619387, 1808672996);
    lemma_generator_square(67108864, 1808672996, 821039136);
    lemma_generator_square(134217728, 821039136, 814403528);
    lemma_generator_square(268435456, 814403528, 1610563585);
    lemma_generator_square(536870912, 1610563585, 1610563584);
}

/// The generator raised to half the group's order is not one; raised to the
/// group's order it is one.
proof fn lemma_generator_half()
    ensures
        pow_mod(5, 1610612736) == 3221225472,
        pow_mod(5, group_order()) == 1,
{
    lemma_pow1(5);
    lemma_small_mod(5, prime());
    lemma_generator_square(1, 5, 25);
    lemma_pow_mod_adds(5, 1, 2);
    lemma_generator_square(3, 125, 15625);
    lemma_generator_square(6, 15625, 244140625);
    lemma_generator_square(12, 244140625, 229807484);
    lemma_generator_square(24, 229807484, 247425463);
    lemma_generator_square(48, 247425463, 1838654099);
    lemma_generator_square(96, 1838654099, 538601489);
    lemma_generator_square(192, 538601489, 140749519);
    lemma_generator_square(384, 140749519, 3182672916);
    lemma_generator_square(768, 3182672916, 448192265);
    lemma_generator_square(1536, 448192265, 3009749949);
    lemma_generator_square(3072, 3009749949, 511777184);
    lemma_generator_square(6144, 511777184, 1358427440);
    lemma_generator_square(12288, 1358427440, 1800384970);
    lemma_generator_square(24576, 1800384970, 2519378301);
    lemma_generator_square(49152, 2519378301, 1405588668);
    lemma_generator_square(98304, 1405588668, 1445148504);
    lemma_generator_square(196608, 1445148504, 1734477367);
    lemma_generator_square(393216, 1734477367, 211283056);
    lemma_generator_square(786432, 211283056, 1168849724);
    lemma_generator_square(1572864, 1168849724, 1855261384);
    lemma_generator_square(3145728, 1855261384, 764652596);
    lemma_generator_square(6291456, 764652596, 1958494276);
    lemma_generator_square(12582912, 1958494276, 1292405718);
    lemma_generator_square(25165824, 1292405718, 651814490);
    lemma_generator_square(50331648, 651814490, 66931328);
    lemma_generator_square(100663296, 66931328, 2526611335);
    lemma_generator_square(201326592, 2526611335, 1031213943);
    lemma_generator_square(402653184, 1031213943, 1013946479);
    lemma_generator_square(805306368, 1013946479, 3221225472);
    lemma_generator_square(1610612736, 3221225472, 1);
}

/// Whether the generator raised to `d` is one.
pub open spec fn unit_power(d: nat) -> bool {
    pow_mod(5, d) == 1
}

/// A power of any base is a residue below the modulus.
pub proof fn lemma_pow_mod_bound(a: nat, n: nat)
    ensures
        pow_mod(a, n) < prime(),
{
    lemma_mod_bound(pow(a as int, n), prime() as int);
}

/// Exponents at which the generator gives one are closed under subtraction.
proof fn lemma_unit_power_subtracts(d: nat, e: nat)
    requires
        unit_power(d),
        unit_power(e),
        d <= e,
    ensures
        unit_power((e - d) as nat),
{
    let rest = (e - d) as nat;
    lemma_pow_mod_adds(5, d, rest);
    lemma_pow_mod_bound(5, rest);
    lemma_small_mod(pow_mod(5, rest), prime());
    lemma_mul_basics(pow_mod(5, rest) as int);
}

/// Exponents at which the generator gives one are closed under multiples.
proof fn lemma_unit_power_multiple(d: nat, t: nat)
    requires
        unit_power(d),
    ensures
        unit_power(d * t),
{
    lemma_pow_mod_multiplies(5, d, t);
    lemma_pow_mod_of_one(t);
}

/// An odd divisor `q` of `3 * 2^j` divides three: its cofactor `d` is a
/// multiple `c * 2^j` with `q * c == 3`.
proof fn lemma_odd_divisor(q: nat, d: nat, j: nat) -> (c: nat)
    requires
        q % 2 == 1,
        q * d == 3 * pow2(j),
    ensures
        d == c * pow2(j),
        q * c == 3,
    decreases j,
{
    if j == 0 {
        lemma2_to64();
        d
    } else {
        lemma_pow2_unfold(j);
        let half = pow2((j - 1) as nat);
        if d % 2 == 1 {
            let a = q / 2;
            let b = d / 2;
            let m = 2 * a * b + a + b;
            assert(q * d == 2 * m + 1) by (nonlinear_arith)
                requires
                    q == 2 * a + 1,
                    d == 2 * b + 1,
                    m == 2 * a * b + a + b,
            ;
            assert(q * d == 2 * (3 * half));
            assert(false);
        }
        let d2 = d / 2;
        assert(q * d2 == 3 * half) by (nonlinear_arith)
            requires
                d == 2 * d2,
                q * d == 3 * (2 * half),
        ;
        let c = lemma_odd_divisor(q, d2, (j - 1) as nat);
        assert(d == c * pow2(j)) by (nonlinear_arith)
            requires
                d == 2 * d2,
                d2 == c * half,
                pow2(j) == 2 * half,
        ;
        c
    }
}

/// No positive exponent below the group's order takes the generator to one.
proof fn lemma_generator_order(d: nat)
    requires
        0 < d < group_order(),
    ensures
        !unit_power(d),
    decreases d,
{
    if unit_power(d) {
        let n = group_order();
        let q = n / d;
        let r = n % d;
        lemma_generator_half();
        lemma_generator_third();
        lemma_fundamental_div_mod(n as int, d as int);
        lemma_mod_bound(n as int, d as int);
        assert(q >= 1) by (nonlinear_arith)
            requires
                n == d * q + r,
                r < d,
                d < n,
                q >= 0,
        ;
        if r != 0 {
            lemma_unit_power_multiple(d, q);
            lemma_unit_power_subtracts(d * q, n);
            lemma_generator_order(r);
        } else if q % 2 == 0 {
            let h = q / 2;
            assert(d * h == 1610612736) by (nonlinear_arith)
                requires
                    q == 2 * h,
                    d * q == 3221225472,
            ;
            lemma_unit_power_multiple(d, h);
        } else {
            lemma2_to64();
            assert(q * d == 3 * pow2(30)) by (nonlinear_arith)
                requires
                    d * q == 3221225472,
                    pow2(30) == 0x40000000,
            ;
            let c = lemma_odd_divisor(q, d, 30);
            assert(q != 1) by (nonlinear_arith)
                requires
                    d * q == 3221225472,
                    d < 3221225472,
            ;
            assert(c == 1) by (nonlinear_arith)
                requires
                    q * c == 3,
                    q >= 3,
            ;
            assert(d == 1073741824);
        }
    }
}

/// No power of the generator is zero.
proof fn lemma_generator_power_nonzero(k: nat)
    requires
        k <= group_order(),
    ensures
        pow_mod(5, k) != 0,
{
    lemma_generator_half();
    lemma_pow_mod_adds(5, k, (group_order() - k) as nat);
    if pow_mod(5, k) == 0 {
        lemma_mul_basics(pow_mod(5, (group_order() - k) as nat) as int);
        lemma_small_mod(0, prime());
    }
}

/// Two exponents below the group's order give different powers of the
/// generator.
proof fn lemma_generator_powers_differ(i: nat, j: nat)
    requires
        i < j < group_order(),
    ensures
        pow_mod(5, i) != pow_mod(5, j),
{
    if pow_mod(5, i) == pow_mod(5, j) {
        let n = group_order();
        let back = (n - i) as nat;
        lemma_generator_half();
        lemma_pow_mod_adds(5, i, back);
        lemma_pow_mod_adds(5, j, back);
        assert(unit_power(j + back));
        lemma_unit_power_subtracts(n, j + back);
        lemma_generator_order((j - i) as nat);
    }
}

/// Every residue other than zero is a power of the generator.
proof fn lemma_generator_reaches(a: nat) -> (k: nat)
    requires
        0 < a < prime(),
    ensures
        k < group_order(),
        pow_mod(5, k) == a,
{
    let n = group_order() as int;
    let exponents = set_int_range(0, n);
    let residues = set_int_range(1, prime() as int);
    let power = |k: int| pow_mod(5, k as nat) as int;
    let reached = exponents.map(power);
    lemma_int_range(0, n);
    lemma_int_range(1, prime() as int);
    assert forall|x1: int, x2: int|
        exponents.contains(x1) && exponents.contains(x2) && #[trigger] power(x1) == #[trigger] power(
            x2,
        ) implies x1 == x2 by {
        if x1 < x2 {
            lemma_generator_powers_differ(x1 as nat, x2 as nat);
        } else if x2 < x1 {
            lemma_generator_powers_differ(x2 as nat, x1 as nat);
        }
    }
    assert(injective_on(power, exponents));
    lemma_map_size(exponents, reached, power);
    assert forall|y: int| reached.contains(y) implies residues.contains(y) by {
        let x = choose|x: int| exponents.contains(x) && y == power(x);
        lemma_generator_power_nonzero(x as nat);
        lemma_pow_mod_bound(5, x as nat);
    }
    assert(reached.subset_of(residues));
    lemma_subset_equality(reached, residues);
    assert(residues.contains(a as int));
    assert(reached.contains(a as int));
    let k = choose|x: int| exponents.contains(x) && a as int == power(x);
    k as nat
}

/// Every residue other than zero, raised to the group's order, is one.
pub proof fn lemma_fermat(a: nat)
    requires
        0 < a < prime(),
    ensures
        pow_mod(a, group_order()) == 1,
{
    let n = group_order();
    let k = lemma_generator_reaches(a);
    lemma_generator_half();
    lemma_pow_mod_multiplies(5, k, n);
    lemma_pow_mod_multiplies(5, n, k);
    lemma_mul_is_commutative(k as int, n as int);
    lemma_pow_mod_of_one(k);
}

/// The inverse law: an element other than zero, multiplied by its power
/// with the exponent `p - 2`, gives one.
pub proof fn lemma_inverse_law(a: FieldElement, inv: FieldElement)
    requires
        0 < a@ < prime(),
        inv@ == pow_mod(a@, (prime() - 2) as nat),
    ensures
        a.mul_spec(inv) == FieldElement::spec_one(),
        (a@ * inv@) % prime() == 1,
{
    lemma_fermat(a@);
    lemma_pow_mod_adds(a@, 1, (prime() - 2) as nat);
    lemma_pow1(a@ as int);
    lemma_small_mod(a@, prime());
    lemma_pow_mod_bound(a@, (prime() - 2) as nat);
    crate::field::lemma_operator_values(a, inv);
    crate::field::lemma_equal_by_value(a.mul_spec(inv), FieldElement::spec_one());
}

} // verus!
