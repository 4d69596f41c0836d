use vstd::prelude::*;

verus! {

/// The 32-bit cyclic-redundancy checksum of a byte sequence, as the crc
/// crate computes it with the CRC-32/ISO-HDLC algorithm. The result is a
/// function of the bytes alone.
pub uninterp spec fn crc32_of(data: Seq<u8>) -> u32;

/// Relies on crc::Crc::<u32>::checksum with the CRC_32_ISO_HDLC algorithm:
/// a pure function of the input bytes, identical across runs and machines.
#[verifier::external_body]
pub(crate) fn crc32(data: &Vec<u8>) -> (r: u32)
    ensures
        r == crc32_of(data@),
{
    crc::Crc::<u32>::new(&crc::CRC_32_ISO_HDLC).checksum(data.as_slice())
}

} // verus!
