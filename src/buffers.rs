//! The byte buffers and the byte search that the parser relies on, from the
//! `bytes` and `memchr` crates.

use vstd::prelude::*;

verus! {

#[verifier::external_type_specification]
#[verifier::external_body]
pub struct ExBytes(bytes::Bytes);

#[verifier::external_type_specification]
#[verifier::external_body]
pub struct ExBytesMut(bytes::BytesMut);

/// The bytes that a shared, immutable `Bytes` buffer holds.
pub uninterp spec fn bytes_view(b: bytes::Bytes) -> Seq<u8>;

/// The bytes written so far into a growable `BytesMut` buffer.
pub uninterp spec fn bytes_mut_view(b: bytes::BytesMut) -> Seq<u8>;

/// Relies on `memchr::memchr`: the index of the first occurrence of `needle`
/// in `haystack`, or `None` when the byte does not occur.
pub assume_specification[ memchr::memchr ](needle: u8, haystack: &[u8]) -> (r: Option<usize>)
    ensures
        match r {
            Some(i) => i < haystack@.len() && haystack@[i as int] == needle && forall|j: int|
                0 <= j < i ==> haystack@[j] != needle,
            None => forall|j: int| 0 <= j < haystack@.len() ==> haystack@[j] != needle,
        },
;

/// Relies on `Bytes::len`: the number of bytes in the buffer.
pub assume_specification[ bytes::Bytes::len ](b: &bytes::Bytes) -> (r: usize)
    ensures
        r == bytes_view(*b).len(),
;

/// Relies on `<Bytes as Clone>::clone`: a handle to the same bytes.
pub assume_specification[ <bytes::Bytes as Clone>::clone ](b: &bytes::Bytes) -> (r: bytes::Bytes)
    ensures
        bytes_view(r) == bytes_view(*b),
;

/// Relies on `<Bytes as AsRef<[u8]>>::as_ref`: a view of all the bytes of the
/// buffer, borrowed from it.
#[verifier::external_body]
pub(crate) fn bytes_as_slice(b: &bytes::Bytes) -> (r: &[u8])
    ensures
        r@ == bytes_view(*b),
{
    b.as_ref()
}

/// Relies on `BytesMut::with_capacity`: a buffer that holds no data yet.
/// The capacity is bounded as `Vec::with_capacity` requires.
pub assume_specification[ bytes::BytesMut::with_capacity ](capacity: usize) -> (r: bytes::BytesMut)
    requires
        capacity <= isize::MAX,
    ensures
        bytes_mut_view(r) == Seq::<u8>::empty(),
;

/// Relies on `BytesMut::extend_from_slice`: appends the bytes of `extend`.
/// The total stays within what an allocation can hold.
pub assume_specification[ bytes::BytesMut::extend_from_slice ](
    b: &mut bytes::BytesMut,
    extend: &[u8],
)
    requires
        bytes_mut_view(*old(b)).len() + extend@.len() <= isize::MAX,
    ensures
        bytes_mut_view(*final(b)) == bytes_mut_view(*old(b)) + extend@,
;

/// Relies on `BytesMut::freeze`: an immutable buffer holding the same bytes.
pub assume_specification[ bytes::BytesMut::freeze ](b: bytes::BytesMut) -> (r: bytes::Bytes)
    ensures
        bytes_view(r) == bytes_mut_view(b),
;

} // verus!
