use bytes::Buf;
use vstd::prelude::*;

verus! {

#[verifier::external_type_specification]
#[verifier::external_body]
pub struct ExBytes(bytes::Bytes);

/// The bytes that a `bytes::Bytes` buffer still holds, front first.
pub uninterp spec fn bytes_view(b: bytes::Bytes) -> Seq<u8>;

/// Relies on `bytes::Bytes::len`: the number of bytes the buffer holds.
#[verifier::external_body]
pub(crate) fn bytes_len(b: &bytes::Bytes) -> (r: usize)
    ensures
        r == bytes_view(*b).len(),
{
    b.len()
}

/// Relies on `bytes::Buf::get_u8` for `Bytes`: returns the first byte and
/// advances past it; it panics on an empty buffer, so that case is excluded.
#[verifier::external_body]
pub(crate) fn bytes_get_u8(b: &mut bytes::Bytes) -> (r: u8)
    requires
        bytes_view(*old(b)).len() > 0,
    ensures
        r == bytes_view(*old(b))[0],
        bytes_view(*final(b)) == bytes_view(*old(b)).drop_first(),
{
    b.get_u8()
}

/// Relies on `bytes::Bytes::from` for `Vec<u8>`: a buffer holding exactly
/// the vector's bytes.
#[verifier::external_body]
pub(crate) fn bytes_from_vec(v: Vec<u8>) -> (r: bytes::Bytes)
    ensures
        bytes_view(r) == v@,
{
    bytes::Bytes::from(v)
}

/// Relies on `<[u8]>::to_vec` reached through `Bytes`'s deref to a byte
/// slice of its remaining bytes: a copy of those bytes.
#[verifier::external_body]
pub(crate) fn bytes_to_vec(b: &bytes::Bytes) -> (r: Vec<u8>)
    ensures
        r@ == bytes_view(*b),
{
    b.to_vec()
}

/// Relies on `bytes::Bytes::clone`: a second handle to the same bytes.
pub assume_specification[ <bytes::Bytes as Clone>::clone ](b: &bytes::Bytes) -> (r: bytes::Bytes)
    ensures
        bytes_view(r) == bytes_view(*b),
;

/// Reads one byte from the front of the buffer, or reports that it is
/// empty. The checked counterpart of `bytes_get_u8`.
pub fn bytes_read_u8(b: &mut bytes::Bytes) -> (r: Option<u8>)
    ensures
        match r {
            Some(x) => bytes_view(*old(b)).len() > 0 && x == bytes_view(*old(b))[0] && bytes_view(
                *final(b),
            ) == bytes_view(*old(b)).drop_first(),
            None => bytes_view(*old(b)).len() == 0 && bytes_view(*final(b)) == bytes_view(*old(b)),
        },
{
    if bytes_len(b) == 0 {
        None
    } else {
        Some(bytes_get_u8(b))
    }
}

} // verus!
