//! The Huffman code of HPACK (RFC 7541, Appendix B), taken from the `hpack`
//! crate.
use vstd::prelude::*;

verus! {

/// The octets that a Huffman-coded string stands for, or `None` where its
/// padding is longer than seven bits, is not a prefix of EOS, or where the
/// string holds EOS.
pub uninterp spec fn huffman_decoded(coded: Seq<u8>) -> Option<Seq<u8>>;

/// Relies on hpack::huffman::HuffmanDecoder::decode, which reads its whole
/// argument as one Huffman-coded string and keeps no state between calls; an
/// empty argument decodes to an empty string.
#[verifier::external_body]
pub(crate) fn huffman_decode(coded: &[u8]) -> (r: Option<Vec<u8>>)
    ensures
        r matches Some(v) ==> huffman_decoded(coded@) == Some(v@),
        r is None ==> huffman_decoded(coded@) is None,
        r is None ==> coded@.len() > 0,
        r matches Some(v) ==> (coded@.len() == 0 ==> v@.len() == 0),
{
    hpack::huffman::HuffmanDecoder::new().decode(coded).ok()
}

} // verus!
