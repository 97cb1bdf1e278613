//! Polynomials with coefficients in the field.
//!
//! A polynomial is made from the list of its coefficients, the one of the
//! power zero first. It keeps that list without the zeros at its end and
//! turned round, so that the coefficient of the highest power comes first
//! and the last entry has the power zero.

use crate::field::{decimal, lemma_decimal_len, u64_to_string, FieldElement};
use crate::utils::{entry_or_zero, remove_trailing_elements, without_trailing, zip_with};
use vstd::prelude::*;
use vstd::std_specs::ops::{AddSpec, MulSpec, SubSpec};
use vstd::string::StringExecFns;

verus! {

/// `s` without the zeros at its end, the last entry first.
pub open spec fn stripped(s: Seq<FieldElement>) -> Seq<FieldElement> {
    without_trailing(s, FieldElement::spec_zero()).reverse()
}

/// The sums of the entries of `a` and `b`, the shorter list continued with
/// zeros.
pub open spec fn sums(a: Seq<FieldElement>, b: Seq<FieldElement>) -> Seq<FieldElement> {
    Seq::new(
        if a.len() >= b.len() { a.len() } else { b.len() },
        |i: int| entry_or_zero(a, i).add_spec(entry_or_zero(b, i)),
    )
}

/// The differences of the entries of `a` and `b`, the shorter list continued
/// with zeros.
pub open spec fn differences(a: Seq<FieldElement>, b: Seq<FieldElement>) -> Seq<FieldElement> {
    Seq::new(
        if a.len() >= b.len() { a.len() } else { b.len() },
        |i: int| entry_or_zero(a, i).sub_spec(entry_or_zero(b, i)),
    )
}

/// The entry `k` of the product of the lists `a` and `b`, as far as the
/// first `rows` entries of `a` make it up: the sum of `a[i] * b[k - i]` over
/// the `i` below `rows` for which `b` has the entry `k - i`.
pub open spec fn product_entry(
    a: Seq<FieldElement>,
    b: Seq<FieldElement>,
    k: int,
    rows: nat,
) -> FieldElement
    decreases rows,
{
    if rows == 0 || rows > a.len() {
        FieldElement::spec_zero()
    } else {
        let before = product_entry(a, b, k, (rows - 1) as nat);
        let i = rows - 1;
        if 0 <= k - i < b.len() {
            before.add_spec(a[i].mul_spec(b[k - i]))
        } else {
            before
        }
    }
}

/// The product of the lists `a` and `b`, neither of them empty: entry `k`
/// is the sum of the `a[i] * b[j]` with `i + j == k`.
pub open spec fn products(a: Seq<FieldElement>, b: Seq<FieldElement>) -> Seq<FieldElement> {
    Seq::new((a.len() + b.len() - 1) as nat, |k: int| product_entry(a, b, k, a.len()))
}

/// Whether the list is not empty and does not end in zero.
pub open spec fn ends_nonzero(s: Seq<FieldElement>) -> bool {
    s.len() > 0 && s.last() != FieldElement::spec_zero()
}

/// One term of a printed polynomial: the coefficient alone for the power
/// zero, and otherwise the coefficient, unless it is one, with the variable
/// and, from the power two on, the power.
pub open spec fn term_text(coeff: nat, power: nat) -> Seq<char> {
    if power == 0 {
        decimal(coeff)
    } else if power == 1 {
        if coeff == 1 {
            "X"@
        } else {
            decimal(coeff) + "*"@ + "X"@
        }
    } else {
        if coeff == 1 {
            "X"@ + "^"@ + decimal(power)
        } else {
            decimal(coeff) + "*"@ + "X"@ + "^"@ + decimal(power)
        }
    }
}

/// The text of the last `n` coefficients of `s`: the last one has the power
/// zero, the one before it the power one, and so on. Zero coefficients are
/// left out, and the terms are joined by `" + "`.
pub open spec fn terms_text(s: Seq<FieldElement>, n: nat) -> Seq<char>
    decreases n,
{
    if n == 0 || n > s.len() {
        Seq::empty()
    } else {
        let before = terms_text(s, (n - 1) as nat);
        let coeff = s[s.len() - n]@;
        if coeff == 0 {
            before
        } else if before.len() == 0 {
            before + term_text(coeff, (n - 1) as nat)
        } else {
            before + " + "@ + term_text(coeff, (n - 1) as nat)
        }
    }
}

/// The text of a polynomial with the coefficient list `s`.
pub open spec fn polynomial_text(s: Seq<FieldElement>) -> Seq<char> {
    if s.len() == 0 {
        "0"@
    } else {
        terms_text(s, s.len())
    }
}

/// A polynomial over the field, held as the list of its coefficients, the
/// one of the highest power first.
#[derive(Debug)]
pub struct Polynomial {
    coeffs: Vec<FieldElement>,
    var: String,
}

impl View for Polynomial {
    type V = Seq<FieldElement>;

    closed spec fn view(&self) -> Seq<FieldElement> {
        self.coeffs@
    }
}

impl Polynomial {
    #[verifier::type_invariant]
    closed spec fn named_x(self) -> bool {
        self.var@ == "X"@
    }

    /// The polynomial made from `coeffs`: the zeros at the end of the list
    /// are dropped, and the rest is kept with the last entry first.
    pub fn new(coeffs: Vec<FieldElement>) -> (r: Self)
        ensures
            r@ == stripped(coeffs@),
    {
        let coeffs = remove_trailing_elements(coeffs, FieldElement::zero());
        let var = String::from_str("X");
        Polynomial { coeffs, var }
    }

    /// One less than the number of coefficients that are left when the
    /// zeros at the end of the list are dropped.
    pub fn degree(&self) -> (r: usize)
        requires
            stripped(self@).len() > 0,
        ensures
            r == stripped(self@).len() - 1,
    {
        let mut n: usize = self.coeffs.len();
        let zero = FieldElement::zero();
        assert(self.coeffs@.take(n as int) =~= self.coeffs@);
        while n > 0 && self.coeffs[n - 1] == zero
            invariant
                n <= self.coeffs@.len(),
                zero == FieldElement::spec_zero(),
                without_trailing(self.coeffs@, zero) == without_trailing(
                    self.coeffs@.take(n as int),
                    zero,
                ),
            decreases n,
        {
            assert(self.coeffs@.take(n as int).drop_last() =~= self.coeffs@.take(n - 1));
            n = n - 1;
        }
        assert(without_trailing(self.coeffs@.take(n as int), zero) == self.coeffs@.take(n as int));
        n - 1
    }

    /// The composition of `self` with `other`, by Horner's rule from the
    /// polynomial without coefficients. The rule's first step multiplies
    /// that polynomial, which the multiplication does not take, so `self`
    /// has to be without coefficients too.
    pub fn compose(&self, other: &Self) -> (r: Self)
        requires
            self@.len() == 0,
        ensures
            r@ == Seq::<FieldElement>::empty(),
    {
        let mut result = Polynomial::new(Vec::new());
        assert(result@ =~= Seq::empty());
        let mut i: usize = 0;
        while i < self.coeffs.len()
            invariant
                self.coeffs@.len() == 0,
                result@ == Seq::<FieldElement>::empty(),
            decreases self.coeffs@.len() - i,
        {
            let mut single: Vec<FieldElement> = Vec::new();
            single.push(self.coeffs[i]);
            result = (result * other.clone()) + Polynomial::new(single);
            i = i + 1;
        }
        result
    }

    /// The difference of the zero polynomial and `self`.
    pub fn neg(&self) -> (r: Self)
        ensures
            r@ == stripped(differences(Seq::empty(), self@)),
    {
        let zero = Polynomial::new(Vec::new());
        assert(zero@ =~= Seq::empty());
        zero - self.clone()
    }

    /// The polynomial as text: `"0"` where it has no coefficient, and
    /// otherwise its terms from the last coefficient, which has the power
    /// zero, to the first.
    pub fn to_string(&self) -> (r: String)
        ensures
            r@ == polynomial_text(self@),
    {
        proof {
            use_type_invariant(self);
        }
        let len: usize = self.coeffs.len();
        if len == 0 {
            return String::from_str("0");
        }
        let mut out = String::new();
        let mut first = true;
        let mut power: usize = 0;
        while power < len
            invariant
                self.var@ == "X"@,
                len == self.coeffs@.len(),
                power <= len,
                out@ == terms_text(self.coeffs@, power as nat),
                first == (out@.len() == 0),
            decreases len - power,
        {
            let value: u32 = self.coeffs[len - 1 - power].value();
            if value != 0 {
                let term = self.term(value, power);
                if !first {
                    out.append(" + ");
                }
                out.append(term.as_str());
                first = false;
            }
            power = power + 1;
        }
        out
    }

    /// The text of the term with the coefficient `value` and the power
    /// `power`.
    fn term(&self, value: u32, power: usize) -> (r: String)
        ensures
            r@ == term_text(value as nat, power as nat),
            r@.len() > 0,
    {
        proof {
            use_type_invariant(self);
            lemma_decimal_len(value as nat);
            lemma_decimal_len(power as nat);
            reveal_strlit("X");
        }
        let mut term = if value == 1 && power >= 1 {
            String::new()
        } else {
            u64_to_string(value as u64)
        };
        if power >= 1 {
            if value != 1 {
                term.append("*");
            }
            term.append(self.var.as_str());
            if power >= 2 {
                term.append("^");
                term.append(u64_to_string(power as u64).as_str());
            }
        }
        proof {
            assert(term@ =~= term_text(value as nat, power as nat));
        }
        term
    }
}

impl Clone for Polynomial {
    /// A polynomial with the same coefficients.
    fn clone(&self) -> (r: Self)
        ensures
            r@ == self@,
    {
        let mut copy: Vec<FieldElement> = Vec::new();
        let mut i: usize = 0;
        while i < self.coeffs.len()
            invariant
                i <= self.coeffs@.len(),
                copy@ == self.coeffs@.take(i as int),
            decreases self.coeffs@.len() - i,
        {
            copy.push(self.coeffs[i]);
            assert(copy@ =~= self.coeffs@.take(i + 1));
            i = i + 1;
        }
        assert(copy@ =~= self.coeffs@);
        Polynomial { coeffs: copy, var: String::from_str("X") }
    }
}

impl vstd::std_specs::cmp::PartialEqSpecImpl for Polynomial {
    open spec fn obeys_eq_spec() -> bool {
        true
    }

    open spec fn eq_spec(&self, other: &Polynomial) -> bool {
        self@ == other@
    }
}

impl PartialEq for Polynomial {
    /// Whether the two polynomials have the same coefficients.
    fn eq(&self, other: &Polynomial) -> (r: bool) {
        if self.coeffs.len() != other.coeffs.len() {
            return false;
        }
        let mut i: usize = 0;
        while i < self.coeffs.len()
            invariant
                self.coeffs@.len() == other.coeffs@.len(),
                i <= self.coeffs@.len(),
                forall|j: int| 0 <= j < i ==> self.coeffs@[j] == other.coeffs@[j],
            decreases self.coeffs@.len() - i,
        {
            if self.coeffs[i] != other.coeffs[i] {
                return false;
            }
            i = i + 1;
        }
        assert(self.coeffs@ =~= other.coeffs@);
        true
    }
}

impl vstd::std_specs::ops::AddSpecImpl for Polynomial {
    open spec fn obeys_add_spec() -> bool {
        false
    }

    open spec fn add_req(self, rhs: Polynomial) -> bool {
        true
    }

    open spec fn add_spec(self, rhs: Polynomial) -> Polynomial {
        self
    }
}

impl core::ops::Add for Polynomial {
    type Output = Polynomial;

    /// The polynomial made from the sums of the coefficients.
    fn add(self, rhs: Polynomial) -> (r: Polynomial)
        ensures
            r@ == stripped(sums(self@, rhs@)),
    {
        let op = |x: FieldElement, y: FieldElement| -> (s: FieldElement)
            ensures
                s == x.add_spec(y),
            { x + y };
        let summed = zip_with(self.coeffs, rhs.coeffs, op);
        assert(summed@ =~= sums(self@, rhs@));
        Polynomial::new(summed)
    }
}

impl vstd::std_specs::ops::SubSpecImpl for Polynomial {
    open spec fn obeys_sub_spec() -> bool {
        false
    }

    open spec fn sub_req(self, rhs: Polynomial) -> bool {
        true
    }

    open spec fn sub_spec(self, rhs: Polynomial) -> Polynomial {
        self
    }
}

impl core::ops::Sub for Polynomial {
    type Output = Polynomial;

    /// The polynomial made from the differences of the coefficients.
    fn sub(self, rhs: Polynomial) -> (r: Polynomial)
        ensures
            r@ == stripped(differences(self@, rhs@)),
    {
        let op = |x: FieldElement, y: FieldElement| -> (s: FieldElement)
            ensures
                s == x.sub_spec(y),
            { x - y };
        let subtracted = zip_with(self.coeffs, rhs.coeffs, op);
        assert(subtracted@ =~= differences(self@, rhs@));
        Polynomial::new(subtracted)
    }
}

impl vstd::std_specs::ops::MulSpecImpl for Polynomial {
    open spec fn obeys_mul_spec() -> bool {
        false
    }

    open spec fn mul_req(self, rhs: Polynomial) -> bool {
        &&& ends_nonzero(self@)
        &&& ends_nonzero(rhs@)
        &&& self@.len() + rhs@.len() <= usize::MAX
    }

    open spec fn mul_spec(self, rhs: Polynomial) -> Polynomial {
        self
    }
}

impl core::ops::Mul for Polynomial {
    type Output = Polynomial;

    /// The polynomial made from the product of the two coefficient lists,
    /// each of which has to end in a coefficient other than zero.
    fn mul(self, rhs: Polynomial) -> (r: Polynomial)
        ensures
            r@ == stripped(stripped(products(self@, rhs@))),
    {
        let ghost a = self@;
        let ghost b = rhs@;
        let zero = FieldElement::zero();
        let size: usize = self.degree() + rhs.degree() + 1;
        let mut result: Vec<FieldElement> = Vec::new();
        while result.len() < size
            invariant
                result@.len() <= size,
                zero == FieldElement::spec_zero(),
                forall|k: int| 0 <= k < result@.len() ==> result@[k] == zero,
            decreases size - result@.len(),
        {
            result.push(zero);
        }
        let mut i: usize = 0;
        while i < self.coeffs.len()
            invariant
                a == self.coeffs@,
                b == rhs.coeffs@,
                b.len() > 0,
                size == a.len() + b.len() - 1,
                result@.len() == size,
                i <= a.len(),
                forall|k: int| 0 <= k < size ==> result@[k] == product_entry(a, b, k, i as nat),
            decreases a.len() - i,
        {
            let mut j: usize = 0;
            while j < rhs.coeffs.len()
                invariant
                    a == self.coeffs@,
                    b == rhs.coeffs@,
                    size == a.len() + b.len() - 1,
                    result@.len() == size,
                    i < a.len(),
                    j <= b.len(),
                    forall|k: int|
                        0 <= k < size ==> result@[k] == if i <= k < i + j {
                            product_entry(a, b, k, (i + 1) as nat)
                        } else {
                            product_entry(a, b, k, i as nat)
                        },
                decreases b.len() - j,
            {
                let entry = result[i + j] + self.coeffs[i] * rhs.coeffs[j];
                result.set(i + j, entry);
                j = j + 1;
            }
            i = i + 1;
        }
        assert(result@ =~= products(a, b));
        Polynomial::new(remove_trailing_elements(result, zero))
    }
}

impl vstd::std_specs::ops::AddSpecImpl<u32> for Polynomial {
    open spec fn obeys_add_spec() -> bool {
        false
    }

    open spec fn add_req(self, rhs: u32) -> bool {
        true
    }

    open spec fn add_spec(self, rhs: u32) -> Polynomial {
        self
    }
}

impl core::ops::Add<u32> for Polynomial {
    type Output = Polynomial;

    /// The sum of `self` and the polynomial made from the one coefficient
    /// `rhs`.
    fn add(self, rhs: u32) -> (r: Polynomial)
        ensures
            r@ == stripped(sums(self@, stripped(seq![FieldElement::spec_new(rhs)]))),
    {
        let mut single: Vec<FieldElement> = Vec::new();
        single.push(FieldElement::new(rhs));
        assert(single@ =~= seq![FieldElement::spec_new(rhs)]);
        self + Polynomial::new(single)
    }
}

impl vstd::std_specs::ops::SubSpecImpl<u32> for Polynomial {
    open spec fn obeys_sub_spec() -> bool {
        false
    }

    open spec fn sub_req(self, rhs: u32) -> bool {
        true
    }

    open spec fn sub_spec(self, rhs: u32) -> Polynomial {
        self
    }
}

impl core::ops::Sub<u32> for Polynomial {
    type Output = Polynomial;

    /// The difference of `self` and the polynomial made from the one
    /// coefficient `rhs`.
    fn sub(self, rhs: u32) -> (r: Polynomial)
        ensures
            r@ == stripped(differences(self@, stripped(seq![FieldElement::spec_new(rhs)]))),
    {
        let mut single: Vec<FieldElement> = Vec::new();
        single.push(FieldElement::new(rhs));
        assert(single@ =~= seq![FieldElement::spec_new(rhs)]);
        self - Polynomial::new(single)
    }
}

} // verus!
