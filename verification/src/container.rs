use vstd::prelude::*;

use crate::Error;
use crate::codec::{ser_u64, rd_u64, push_u64, read_u64, lemma_rd_ser_u64};
use vstd::slice::{slice_subrange, slice_to_vec};

verus! {

/// The container of a raw buffer: a four-byte signature, the declared
/// payload length most significant byte first, then the payload itself.
/// The transform is reversible byte for byte.
pub open spec fn czip(raw: Seq<u8>) -> Seq<u8> {
    seq![67u8, 77u8, 80u8, 48u8] + ser_u64(raw.len() as u64, true) + raw
}

/// The raw buffer held in a container, or nothing where the signature
/// does not match or the declared length is not satisfied by the input.
pub open spec fn cunzip(c: Seq<u8>) -> Option<Seq<u8>> {
    if c.len() < 12 {
        None
    } else if c[0] == 67 && c[1] == 77 && c[2] == 80 && c[3] == 48 {
        if c.len() - 12 == rd_u64(c.skip(4), true) as int {
            Some(c.skip(12))
        } else {
            None
        }
    } else {
        None
    }
}

/// Packs a raw buffer into its on-disk container.
pub fn compress(raw: &Vec<u8>) -> (out: Vec<u8>)
    ensures
        out@ == czip(raw@),
{
    let mut out: Vec<u8> = Vec::new();
    out.push(67);
    out.push(77);
    out.push(80);
    out.push(48);
    push_u64(&mut out, raw.len() as u64, true);
    crate::codec::push_bytes(&mut out, raw);
    assert(out@ =~= czip(raw@));
    out
}

/// Unpacks a container, failing with the format error exactly where the
/// signature bytes are wrong or the declared length disagrees with the
/// input.
pub fn decompress(data: &[u8]) -> (r: Result<Vec<u8>, Error>)
    ensures
        (match r {
            Ok(v) => cunzip(data@) == Some(v@),
            Err(e) => cunzip(data@) is None && e == Error::Format,
        }),
{
    if data.len() < 12 {
        return Err(Error::Format);
    }
    let m0: u8 = data[0];
    let m1: u8 = data[1];
    let m2: u8 = data[2];
    let m3: u8 = data[3];
    if !(m0 == 67 && m1 == 77 && m2 == 80 && m3 == 48) {
        return Err(Error::Format);
    }
    let n: u64 = read_u64(data, 4, true);
    proof {
        assert(rd_u64(data@.skip(4), true) == n);
    }
    if (data.len() - 12) as u64 != n {
        return Err(Error::Format);
    }
    let payload: Vec<u8> = slice_to_vec(slice_subrange(data, 12, data.len()));
    proof {
        assert(payload@ =~= data@.skip(12));
    }
    Ok(payload)
}

/// Compression round trip: unpacking the container of any byte buffer
/// gives back that buffer unchanged.
pub proof fn lemma_compress_decompress_round_trip(raw: Seq<u8>)
    requires
        raw.len() <= u64::MAX,
    ensures
        cunzip(czip(raw)) == Some(raw),
{
    let c = czip(raw);
    assert(c.skip(4) =~= ser_u64(raw.len() as u64, true) + raw);
    lemma_rd_ser_u64(raw.len() as u64, true, raw);
    assert(rd_u64(c.skip(4), true) == raw.len() as u64);
    assert(c.len() == 12 + raw.len());
    assert(c.skip(12) =~= raw);
}

} // verus!
