//! The anonymous memory mapping that backs the buffer pool.
use vstd::prelude::*;

verus! {

#[verifier::external_type_specification]
#[verifier::external_body]
pub struct ExMmapMut(memmap2::MmapMut);

#[verifier::external_type_specification]
#[verifier::external_body]
pub struct ExIoError(std::io::Error);

/// The bytes that a mapping currently holds.
pub uninterp spec fn mapped_bytes(m: memmap2::MmapMut) -> Seq<u8>;

/// Relies on memmap2::MmapMut::map_anon: on success the mapping is `len`
/// bytes long.
#[verifier::external_body]
pub(crate) fn map_anon(len: usize) -> (r: Result<memmap2::MmapMut, std::io::Error>)
    ensures
        r matches Ok(m) ==> mapped_bytes(m).len() == len,
{
    memmap2::MmapMut::map_anon(len)
}

/// Relies on the `Deref` of memmap2::MmapMut to a byte slice: copies out
/// `len` bytes starting at `start`.
#[verifier::external_body]
pub(crate) fn read_mapped(m: &memmap2::MmapMut, start: usize, len: usize) -> (r: Vec<u8>)
    requires
        start + len <= mapped_bytes(*m).len(),
    ensures
        r@ == mapped_bytes(*m).subrange(start as int, start + len),
{
    m[start..][..len].to_vec()
}

/// Relies on the `DerefMut` of memmap2::MmapMut to a byte slice: overwrites
/// the bytes starting at `start` with `src`, and no others.
#[verifier::external_body]
pub(crate) fn write_mapped(m: &mut memmap2::MmapMut, start: usize, src: &[u8])
    requires
        start + src@.len() <= mapped_bytes(*old(m)).len(),
    ensures
        mapped_bytes(*final(m)) == mapped_bytes(*old(m)).subrange(0, start as int) + src@
            + mapped_bytes(*old(m)).subrange(
            start + src@.len(),
            mapped_bytes(*old(m)).len() as int,
        ),
{
    m[start..][..src.len()].copy_from_slice(src)
}

} // verus!
