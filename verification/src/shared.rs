//! Values that several owners hold without copying them.

use std::sync::Arc;
use vstd::prelude::*;

verus! {

/// A second owner of the value that `value` points to.
///
/// Trusted: `Arc::clone` of the standard library makes another pointer to the
/// same allocation, so the new pointer leads to the same value.
#[verifier::external_body]
pub(crate) fn share<T>(value: &Arc<T>) -> (shared: Arc<T>)
    ensures
        shared == *value,
{
    Arc::clone(value)
}

} // verus!
