//! Helpers on lists of field elements.

use crate::field::FieldElement;
use vstd::prelude::*;

verus! {

/// `s` without the entries equal to `element` at its end.
pub open spec fn without_trailing(s: Seq<FieldElement>, element: FieldElement) -> Seq<
    FieldElement,
>
    decreases s.len(),
{
    if s.len() > 0 && s.last() == element {
        without_trailing(s.drop_last(), element)
    } else {
        s
    }
}

/// The entry `i` of `s`, or zero behind its end.
pub open spec fn entry_or_zero(s: Seq<FieldElement>, i: int) -> FieldElement {
    if 0 <= i < s.len() {
        s[i]
    } else {
        FieldElement::spec_zero()
    }
}

/// Drops the entries equal to `element` from the end of `v` and gives back
/// what is left, the last entry first.
pub fn remove_trailing_elements(v: Vec<FieldElement>, element: FieldElement) -> (r: Vec<
    FieldElement,
>)
    ensures
        r@ == without_trailing(v@, element).reverse(),
{
    let mut n: usize = v.len();
    assert(v@.take(n as int) =~= v@);
    while n > 0 && v[n - 1] == element
        invariant
            n <= v@.len(),
            without_trailing(v@, element) == without_trailing(v@.take(n as int), element),
        decreases n,
    {
        assert(v@.take(n as int).drop_last() =~= v@.take(n - 1));
        n = n - 1;
    }
    let ghost kept = v@.take(n as int);
    assert(without_trailing(kept, element) == kept);
    let mut out: Vec<FieldElement> = Vec::new();
    let mut k: usize = 0;
    while k < n
        invariant
            k <= n <= v@.len(),
            out@.len() == k,
            forall|j: int| 0 <= j < k ==> out@[j] == v@[n - 1 - j],
        decreases n - k,
    {
        out.push(v[n - 1 - k]);
        k = k + 1;
    }
    assert(out@ =~= kept.reverse());
    out
}

/// Combines two lists entry by entry with `op`, the shorter one continued
/// with zeros to the length of the longer one.
pub fn zip_with<F>(a: Vec<FieldElement>, b: Vec<FieldElement>, op: F) -> (r: Vec<FieldElement>)
    where F: Fn(FieldElement, FieldElement) -> FieldElement
    requires
        forall|i: int|
            0 <= i < a@.len() || 0 <= i < b@.len() ==> op.requires(
                (#[trigger] entry_or_zero(a@, i), entry_or_zero(b@, i)),
            ),
    ensures
        r@.len() == if a@.len() >= b@.len() { a@.len() } else { b@.len() },
        forall|i: int|
            0 <= i < r@.len() ==> op.ensures(
                (entry_or_zero(a@, i), entry_or_zero(b@, i)),
                #[trigger] r@[i],
            ),
{
    let max_len: usize = if a.len() >= b.len() { a.len() } else { b.len() };
    let mut out: Vec<FieldElement> = Vec::new();
    let mut i: usize = 0;
    while i < max_len
        invariant
            i <= max_len,
            max_len == if a@.len() >= b@.len() { a@.len() } else { b@.len() },
            out@.len() == i,
            forall|j: int|
                0 <= j < a@.len() || 0 <= j < b@.len() ==> op.requires(
                    (#[trigger] entry_or_zero(a@, j), entry_or_zero(b@, j)),
                ),
            forall|j: int|
                0 <= j < i ==> op.ensures(
                    (entry_or_zero(a@, j), entry_or_zero(b@, j)),
                    #[trigger] out@[j],
                ),
        decreases max_len - i,
    {
        let x = if i < a.len() { a[i] } else { FieldElement::zero() };
        let y = if i < b.len() { b[i] } else { FieldElement::zero() };
        assert(x == entry_or_zero(a@, i as int));
        assert(y == entry_or_zero(b@, i as int));
        out.push(op(x, y));
        i = i + 1;
    }
    out
}

} // verus!
