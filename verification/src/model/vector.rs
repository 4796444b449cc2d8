//! State vectors: ordered sequences of signed counts, one per variable.

use vstd::prelude::*;

verus! {

/// Value of a single state-vector component.
pub type VasValue = i128;

/// Whether the mathematical integer `x` is representable as a `VasValue`.
pub open spec fn fits(x: int) -> bool {
    i128::MIN <= x <= i128::MAX
}

/// Component-wise `a + b * times`, over the integers.
pub open spec fn combine(a: Seq<VasValue>, b: Seq<VasValue>, times: int) -> Seq<int> {
    Seq::new(a.len(), |i: int| a[i] + b[i] * times)
}

/// Whether `a + b * times` can be computed component by component without
/// a product or a sum leaving the representable range.
pub open spec fn combine_fits(a: Seq<VasValue>, b: Seq<VasValue>, times: int) -> bool {
    forall|i: int|
        0 <= i < a.len() ==> fits(#[trigger] b[i] * times) && fits(a[i] + b[i] * times)
}

/// The representable vector `v` read as a sequence of integers.
pub open spec fn as_ints(v: Seq<VasValue>) -> Seq<int> {
    Seq::new(v.len(), |i: int| v[i] as int)
}

/// Whether `state` meets every per-variable minimum in `bounds`.
/// Positions past the end of the shorter vector impose nothing.
pub open spec fn meets_bounds(bounds: Seq<VasValue>, state: Seq<VasValue>) -> bool {
    forall|i: int| 0 <= i < bounds.len() && i < state.len() ==> state[i] >= bounds[i]
}

/// A vector of `len` copies of `value`.
pub fn filled(len: usize, value: VasValue) -> (r: Vec<VasValue>)
    ensures
        r@ == Seq::new(len as nat, |i: int| value),
{
    let mut r: Vec<VasValue> = Vec::new();
    let mut i: usize = 0;
    while i < len
        invariant
            i <= len,
            r@ == Seq::new(i as nat, |j: int| value),
        decreases len - i,
    {
        r.push(value);
        i += 1;
    }
    r
}

/// A vector with the same components as `v`.
pub fn copy_of(v: &Vec<VasValue>) -> (r: Vec<VasValue>)
    ensures
        r@ == v@,
{
    let mut r: Vec<VasValue> = Vec::new();
    let mut i: usize = 0;
    while i < v.len()
        invariant
            i <= v.len(),
            r@ == v@.subrange(0, i as int),
        decreases v.len() - i,
    {
        r.push(v[i]);
        proof {
            assert(r@ =~= v@.subrange(0, i + 1));
        }
        i += 1;
    }
    proof {
        assert(v@.subrange(0, v.len() as int) =~= v@);
    }
    r
}

/// Component-wise `a + b * times`, or `None` when a component leaves the
/// representable range.
pub fn checked_combine(a: &Vec<VasValue>, b: &Vec<VasValue>, times: VasValue) -> (r: Option<
    Vec<VasValue>,
>)
    requires
        a.len() == b.len(),
    ensures
        r is Some <==> combine_fits(a@, b@, times as int),
        r matches Some(v) ==> as_ints(v@) == combine(a@, b@, times as int),
{
    let mut out: Vec<VasValue> = Vec::new();
    let mut i: usize = 0;
    while i < a.len()
        invariant
            i <= a.len(),
            a.len() == b.len(),
            out.len() == i,
            forall|j: int|
                0 <= j < i ==> fits(#[trigger] b[j] * times) && fits(a[j] + b[j] * times),
            forall|j: int| 0 <= j < i ==> out[j] == a[j] + b[j] * times,
        decreases a.len() - i,
    {
        let scaled = match b[i].checked_mul(times) {
            Some(p) => p,
            None => {
                assert(!fits(b[i as int] * times));
                return None;
            },
        };
        let sum = match a[i].checked_add(scaled) {
            Some(s) => s,
            None => {
                assert(!fits(a[i as int] + b[i as int] * times));
                return None;
            },
        };
        out.push(sum);
        i += 1;
    }
    proof {
        assert(as_ints(out@) =~= combine(a@, b@, times as int));
    }
    Some(out)
}

/// Whether `a` and `b` have the same components.
pub fn same_vector(a: &Vec<VasValue>, b: &Vec<VasValue>) -> (r: bool)
    ensures
        r == (a@ == b@),
{
    if a.len() != b.len() {
        return false;
    }
    let mut i: usize = 0;
    while i < a.len()
        invariant
            i <= a.len(),
            a.len() == b.len(),
            forall|j: int| 0 <= j < i ==> a[j] == b[j],
        decreases a.len() - i,
    {
        if a[i] != b[i] {
            return false;
        }
        i += 1;
    }
    proof {
        assert(a@ =~= b@);
    }
    true
}

/// Whether `state` meets every per-variable minimum in `bounds`.
pub fn meets(bounds: &Vec<VasValue>, state: &Vec<VasValue>) -> (r: bool)
    ensures
        r == meets_bounds(bounds@, state@),
{
    let mut i: usize = 0;
    while i < bounds.len() && i < state.len()
        invariant
            forall|j: int| 0 <= j < i ==> state[j] >= bounds[j],
            i <= bounds.len(),
            i <= state.len(),
        decreases bounds.len() - i,
    {
        if state[i] < bounds[i] {
            return false;
        }
        i += 1;
    }
    true
}

} // verus!
