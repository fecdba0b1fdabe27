//! Byte strings and the checked arithmetic on offsets and lengths.

use vstd::bytes::{spec_u64_from_le_bytes, u64_from_le_bytes};
use vstd::prelude::*;
use vstd::slice::slice_subrange;

use crate::error::VaultError;

verus! {

/// Whether two byte strings are the same.
pub fn bytes_equal(left: &[u8], right: &[u8]) -> (r: bool)
    ensures
        r == (left@ == right@),
{
    if left.len() != right.len() {
        return false;
    }
    let mut i: usize = 0;
    while i < left.len()
        invariant
            i <= left.len(),
            left.len() == right.len(),
            forall|j: int| 0 <= j < i ==> left@[j] == right@[j],
        decreases left.len() - i,
    {
        if left[i] != right[i] {
            return false;
        }
        i += 1;
    }
    assert(left@ =~= right@);
    true
}

/// The first `N` bytes as an array.
pub fn copy_array<const N: usize>(bytes: &[u8]) -> (r: [u8; N])
    requires
        N <= bytes@.len(),
    ensures
        r@ == bytes@.take(N as int),
{
    let mut out: [u8; N] = [0u8; N];
    let mut i: usize = 0;
    while i < N
        invariant
            i <= N <= bytes@.len(),
            forall|j: int| 0 <= j < i ==> out@[j] == bytes@[j],
        decreases N - i,
    {
        out[i] = bytes[i];
        i += 1;
    }
    assert(out@ =~= bytes@.take(N as int));
    out
}

/// The little-endian integer in the first eight bytes.
pub fn read_u64(bytes: &[u8]) -> (r: u64)
    requires
        8 <= bytes@.len(),
    ensures
        r == spec_u64_from_le_bytes(bytes@.take(8)),
{
    u64_from_le_bytes(slice_subrange(bytes, 0, 8))
}

/// Appends every byte of `more` to `out`.
pub fn append_bytes(out: &mut Vec<u8>, more: &[u8])
    ensures
        final(out)@ == old(out)@ + more@,
{
    out.extend_from_slice(more);
    assert(out@ =~= old(out)@ + more@);
}

/// A copy of a byte string.
pub fn copy_bytes(bytes: &[u8]) -> (r: Vec<u8>)
    ensures
        r@ == bytes@,
{
    let mut out: Vec<u8> = Vec::with_capacity(bytes.len());
    append_bytes(&mut out, bytes);
    out
}

/// The sum, or [`VaultError::IntegerOverflow`] where it does not fit.
pub fn checked_add(a: u64, b: u64) -> (r: Result<u64, VaultError>)
    ensures
        r == add_u64(a, b),
{
    match a.checked_add(b) {
        Some(sum) => Ok(sum),
        None => Err(VaultError::IntegerOverflow),
    }
}

/// The product, or [`VaultError::IntegerOverflow`] where it does not fit.
pub fn checked_mul(a: u64, b: u64) -> (r: Result<u64, VaultError>)
    ensures
        a * b <= u64::MAX ==> r == Ok::<u64, VaultError>((a * b) as u64),
        a * b > u64::MAX ==> r == Err::<u64, VaultError>(VaultError::IntegerOverflow),
{
    match a.checked_mul(b) {
        Some(product) => Ok(product),
        None => Err(VaultError::IntegerOverflow),
    }
}

/// What [`checked_add`] gives.
pub open spec fn add_u64(a: u64, b: u64) -> Result<u64, VaultError> {
    if a + b <= u64::MAX {
        Ok((a + b) as u64)
    } else {
        Err(VaultError::IntegerOverflow)
    }
}

} // verus!
