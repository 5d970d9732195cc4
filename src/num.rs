//! The scalar types the kernel computes with, and the facts about their
//! arithmetic that the contracts are stated over.
use vstd::prelude::*;
use vstd::std_specs::convert::FromSpec;
use vstd::std_specs::ops::{AddSpec, DivSpec, MulSpec, SubSpec};

verus! {

/// A value the kernel can compute with: copied freely, closed under the four
/// operators, and able to name the small constants `0`, `1` and `2`.
pub trait Num:
    Copy +
    core::ops::Add<Output = Self> +
    core::ops::Sub<Output = Self> +
    core::ops::Mul<Output = Self> +
    core::ops::Div<Output = Self> +
    From<u8> {

}

impl<T> Num for T where
    T: Copy + core::ops::Add<Output = T> + core::ops::Sub<Output = T> + core::ops::Mul<
        Output = T,
    > + core::ops::Div<Output = T> + From<u8>,
 {

}

/// Every operator of `T` may be applied to any pair of values.
pub open spec fn total<T: Num>() -> bool {
    &&& forall|x: T, y: T| #[trigger] x.add_req(y)
    &&& forall|x: T, y: T| #[trigger] x.sub_req(y)
    &&& forall|x: T, y: T| #[trigger] x.mul_req(y)
    &&& forall|x: T, y: T| #[trigger] x.div_req(y)
}

/// The operators and the constants of `T` compute exactly their specification
/// functions (true of the integer types, not promised of floating point).
pub open spec fn exact<T: Num>() -> bool {
    &&& T::obeys_add_spec()
    &&& T::obeys_sub_spec()
    &&& T::obeys_mul_spec()
    &&& T::obeys_div_spec()
    &&& <T as FromSpec<u8>>::obeys_from_spec()
}

pub open spec fn zero<T: Num>() -> T {
    T::from_spec(0u8)
}

pub open spec fn one<T: Num>() -> T {
    T::from_spec(1u8)
}

pub open spec fn two<T: Num>() -> T {
    T::from_spec(2u8)
}

/// `n` written as `0 + 1 + ... + 1`, the way the kernel counts examples.
pub open spec fn count<T: Num>(n: nat) -> T
    decreases n,
{
    if n == 0 {
        zero::<T>()
    } else {
        count::<T>((n - 1) as nat).add_spec(one::<T>())
    }
}

/// The square of the difference of two values.
pub open spec fn sq_diff<T: Num>(x: T, y: T) -> T {
    x.sub_spec(y).mul_spec(x.sub_spec(y))
}

} // verus!
