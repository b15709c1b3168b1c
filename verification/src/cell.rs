//! What the generators assume of a cell type.
//!
//! A cell is any `Copy` type whose arithmetic comes from the operator traits
//! of the standard library. Nothing is assumed of what an operator computes:
//! contracts relate a result to its operands through the operator's own
//! postcondition, so they hold of every cell type, whether its arithmetic is
//! exact, rounded or overflowing.
use std::ops::{Add, Div, Mul, Neg, Sub};
use vstd::prelude::*;

verus! {

/// `r` is a value that `a + b` may take.
pub open spec fn adds<T: Add<Output = T>>(a: T, b: T, r: T) -> bool {
    call_ensures(T::add, (a, b), r)
}

/// `r` is a value that `a - b` may take.
pub open spec fn subs<T: Sub<Output = T>>(a: T, b: T, r: T) -> bool {
    call_ensures(T::sub, (a, b), r)
}

/// `r` is a value that `a * b` may take.
pub open spec fn muls<T: Mul<Output = T>>(a: T, b: T, r: T) -> bool {
    call_ensures(T::mul, (a, b), r)
}

/// `r` is a value that `a / b` may take.
pub open spec fn divs<T: Div<Output = T>>(a: T, b: T, r: T) -> bool {
    call_ensures(T::div, (a, b), r)
}

/// `r` is a value that `-a` may take.
pub open spec fn negs<T: Neg<Output = T>>(a: T, r: T) -> bool {
    call_ensures(T::neg, (a,), r)
}

/// `r` is an answer that `a < b` may give.
pub open spec fn below<T: PartialOrd>(a: T, b: T, r: bool) -> bool {
    call_ensures(T::lt, (&a, &b), r)
}

/// `r` is an answer that `a > b` may give.
pub open spec fn above<T: PartialOrd>(a: T, b: T, r: bool) -> bool {
    call_ensures(T::gt, (&a, &b), r)
}

/// `r` is an answer that `a == b` may give.
pub open spec fn same<T: PartialEq>(a: T, b: T, r: bool) -> bool {
    call_ensures(T::eq, (&a, &b), r)
}

/// `r` is a value that the small integer `k` may convert to.
pub open spec fn small<T: From<u8>>(k: u8, r: T) -> bool {
    call_ensures(T::from, (k,), r)
}

/// `r` is a value that the index `k` may convert to.
pub open spec fn index<T: From<u32>>(k: u32, r: T) -> bool {
    call_ensures(T::from, (k,), r)
}

/// `r` is a value that `1 / 2` may take.
pub open spec fn half<T: From<u8> + Div<Output = T>>(r: T) -> bool {
    exists|one: T, two: T| small(1, one) && small(2, two) && divs(one, two, r)
}

/// Every pair of operands may be added.
pub open spec fn add_total<T: Add<Output = T>>() -> bool {
    forall|a: T, b: T| call_requires(T::add, (a, b))
}

/// Every pair of operands may be subtracted.
pub open spec fn sub_total<T: Sub<Output = T>>() -> bool {
    forall|a: T, b: T| call_requires(T::sub, (a, b))
}

/// Every pair of operands may be multiplied.
pub open spec fn mul_total<T: Mul<Output = T>>() -> bool {
    forall|a: T, b: T| call_requires(T::mul, (a, b))
}

/// Every pair of operands may be divided.
pub open spec fn div_total<T: Div<Output = T>>() -> bool {
    forall|a: T, b: T| call_requires(T::div, (a, b))
}

/// Every operand may be negated.
pub open spec fn neg_total<T: Neg<Output = T>>() -> bool {
    forall|a: T| call_requires(T::neg, (a,))
}

/// The cell type's `1 / 2`.
pub fn one_half<T: Copy + From<u8> + Div<Output = T>>() -> (r: T)
    requires
        div_total::<T>(),
    ensures
        half(r),
{
    let one = T::from(1u8);
    let two = T::from(2u8);
    let r = one / two;
    assert(small(1, one) && small(2, two) && divs(one, two, r));
    r
}

} // verus!
