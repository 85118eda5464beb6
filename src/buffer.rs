use aligned_vec::{AVec, RuntimeAlign};
use vstd::prelude::*;

verus! {

/// The byte buffer under a region: an `AVec<u8>` whose start address is aligned
/// to a power of two fixed when it is made.
#[verifier::external_body]
pub struct AlignedBytes {
    v: AVec<u8, RuntimeAlign>,
}

/// The bytes that an `AlignedBytes` holds, in order.
pub uninterp spec fn aligned_bytes_contents(b: AlignedBytes) -> Seq<u8>;

/// The alignment, in bytes, of the start address of an `AlignedBytes`.
pub uninterp spec fn aligned_bytes_alignment(b: AlignedBytes) -> nat;

/// The largest length (and alignment) that a region may reach. Growth at most
/// doubles the hidden capacity, so keeping lengths and the alignment under a
/// quarter of `isize::MAX` keeps every allocation request clear of the
/// buffer's capacity-overflow panic.
pub open spec fn max_region_len() -> nat {
    (isize::MAX as nat) / 4
}

pub open spec fn is_power_of_two(n: nat) -> bool
    decreases n,
{
    if n == 1 {
        true
    } else if n < 2 || n % 2 != 0 {
        false
    } else {
        is_power_of_two(n / 2)
    }
}

/// Relies on `AVec::new`: an empty vector whose alignment is `align` (a power of
/// two; `RuntimeAlign` panics on any other nonzero value).
#[verifier::external_body]
pub(crate) fn bytes_new(align: usize) -> (r: AlignedBytes)
    requires
        is_power_of_two(align as nat),
        align as nat <= max_region_len(),
    ensures
        aligned_bytes_contents(r) == Seq::<u8>::empty(),
        aligned_bytes_alignment(r) == align as nat,
{
    AlignedBytes { v: AVec::new(align) }
}

/// Relies on `AVec::len`: the number of bytes held.
#[verifier::external_body]
pub(crate) fn bytes_len(b: &AlignedBytes) -> (r: usize)
    ensures
        r as nat == aligned_bytes_contents(*b).len(),
{
    b.v.len()
}

/// Relies on `AVec::resize`: grows with copies of `value` or truncates to `new_len`;
/// the alignment of the buffer does not change.
#[verifier::external_body]
pub(crate) fn bytes_resize(b: &mut AlignedBytes, new_len: usize, value: u8)
    requires
        new_len as nat <= max_region_len(),
        aligned_bytes_alignment(*old(b)) <= max_region_len(),
    ensures
        aligned_bytes_contents(*final(b)) == (if new_len as nat > aligned_bytes_contents(*old(b)).len() {
            aligned_bytes_contents(*old(b)) + Seq::new(
                (new_len as nat - aligned_bytes_contents(*old(b)).len()) as nat,
                |i: int| value,
            )
        } else {
            aligned_bytes_contents(*old(b)).subrange(0, new_len as int)
        }),
        aligned_bytes_alignment(*final(b)) == aligned_bytes_alignment(*old(b)),
{
    b.v.resize(new_len, value)
}

/// Relies on `AVec::truncate`: keeps the first `len` bytes, a no-op when `len`
/// is not below the length; the alignment does not change.
#[verifier::external_body]
pub(crate) fn bytes_truncate(b: &mut AlignedBytes, len: usize)
    ensures
        aligned_bytes_contents(*final(b)) == (if (len as nat) < aligned_bytes_contents(*old(b)).len() {
            aligned_bytes_contents(*old(b)).subrange(0, len as int)
        } else {
            aligned_bytes_contents(*old(b))
        }),
        aligned_bytes_alignment(*final(b)) == aligned_bytes_alignment(*old(b)),
{
    b.v.truncate(len)
}

/// Relies on `AVec::extend_from_slice`: appends a copy of `other`; the alignment
/// does not change.
#[verifier::external_body]
pub(crate) fn bytes_extend(b: &mut AlignedBytes, other: &[u8])
    requires
        aligned_bytes_contents(*old(b)).len() + other@.len() <= max_region_len(),
        aligned_bytes_alignment(*old(b)) <= max_region_len(),
    ensures
        aligned_bytes_contents(*final(b)) == aligned_bytes_contents(*old(b)) + other@,
        aligned_bytes_alignment(*final(b)) == aligned_bytes_alignment(*old(b)),
{
    b.v.extend_from_slice(other)
}

/// Relies on `AVec::as_slice`: a view of the bytes held.
#[verifier::external_body]
pub(crate) fn bytes_as_slice(b: &AlignedBytes) -> (r: &[u8])
    ensures
        r@ == aligned_bytes_contents(*b),
{
    b.v.as_slice()
}

/// Relies on `AVec::as_mut_slice`: overwrites the byte at `i`; the length and
/// alignment do not change.
#[verifier::external_body]
pub(crate) fn bytes_set(b: &mut AlignedBytes, i: usize, value: u8)
    requires
        (i as nat) < aligned_bytes_contents(*old(b)).len(),
    ensures
        aligned_bytes_contents(*final(b)) == aligned_bytes_contents(*old(b)).update(i as int, value),
        aligned_bytes_alignment(*final(b)) == aligned_bytes_alignment(*old(b)),
{
    b.v.as_mut_slice()[i] = value
}

} // verus!
