use vstd::prelude::*;

verus! {

/// Trusted: `Vec::into_boxed_slice`. Its documentation says it converts the
/// vector into a boxed slice holding the same elements in the same order
/// (dropping only excess capacity); the contract claims exactly that.
#[verifier::external_body]
pub(crate) fn into_boxed<T>(v: Vec<T>) -> (b: Box<[T]>)
    ensures
        b@ == v@,
{
    v.into_boxed_slice()
}

/// Trusted: `std::mem::forget`. It takes ownership of the value and never
/// runs its destructor, so whatever the value owns stays allocated. Nothing
/// is returned and nothing is claimed.
#[verifier::external_body]
pub(crate) fn leak<T>(v: T) {
    std::mem::forget(v)
}

} // verus!
