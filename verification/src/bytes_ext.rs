use vstd::prelude::*;

verus! {

#[verifier::external_type_specification]
#[verifier::external_body]
pub struct ExBytes(bytes::Bytes);

/// The byte sequence a `bytes::Bytes` buffer holds.
pub uninterp spec fn bytes_view(b: bytes::Bytes) -> Seq<u8>;

/// Relies on `<bytes::Bytes as From<Vec<u8>>>::from`: the buffer takes over
/// exactly the vector's bytes.
#[verifier::external_body]
pub fn bytes_from_vec(v: Vec<u8>) -> (r: bytes::Bytes)
    ensures
        bytes_view(r) == v@,
{
    bytes::Bytes::from(v)
}

/// Relies on `bytes::Bytes::as_ref` (the buffer as a slice) and
/// `[u8]::to_vec`: the result copies exactly the buffer's bytes.
#[verifier::external_body]
pub fn bytes_to_vec(b: &bytes::Bytes) -> (r: Vec<u8>)
    ensures
        r@ == bytes_view(*b),
{
    b.as_ref().to_vec()
}

/// Relies on `bytes::Bytes::len`: the number of bytes the buffer holds.
#[verifier::external_body]
pub fn bytes_len(b: &bytes::Bytes) -> (r: usize)
    ensures
        r == bytes_view(*b).len(),
{
    b.len()
}

} // verus!
