//! The versioned header that precedes a serialized plan: a fixed magic
//! byte string followed by a major and a minor version. The payload that
//! follows the header is an external collaborator's concern; this module
//! owns the framing bytes alone.
//!
//! The header is written with the versions in little-endian order, and the
//! versions are read back in big-endian order; the values recovered on
//! reading serve only to report incompatibilities, so this asymmetry is
//! kept as it stands.

use vstd::prelude::*;

verus! {

/// Major version of the plan serialization: incremented (with the minor
/// reset) when a field is removed or modified.
pub const PLAN_VERSION_MAJOR: u16 = 0;

/// Minor version of the plan serialization: incremented when a field is
/// added.
pub const PLAN_VERSION_MINOR: u16 = 1;

/// The magic byte string that opens every serialized plan: the ASCII text
/// of the version marker.
pub open spec fn magic_bytes() -> Seq<u8> {
    seq![0x44u8, 0x53u8, 0x4cu8, 0x5fu8, 0x56u8, 0x45u8, 0x52u8, 0x53u8, 0x49u8, 0x4fu8, 0x4eu8]
}

/// A version value split into bytes, low byte first.
pub open spec fn u16_le(x: u16) -> Seq<u8> {
    seq![(x as int % 256) as u8, (x as int / 256) as u8]
}

/// What parsing a header can report.
#[derive(Clone, Copy, PartialEq, Eq, Structural, Debug)]
pub enum PlanHeaderError {
    /// Fewer bytes than a whole header.
    TooShort,
    /// The magic byte string was not found.
    BadMagic,
}

/// The header as written: magic bytes, then major and minor versions, each
/// little-endian.
pub open spec fn header_bytes(major: u16, minor: u16) -> Seq<u8> {
    magic_bytes() + u16_le(major) + u16_le(minor)
}

/// Build the versioned header for the given versions.
pub fn version_header(major: u16, minor: u16) -> (r: Vec<u8>)
    ensures
        r@ == header_bytes(major, minor),
{
    let mut r: Vec<u8> = Vec::new();
    r.push(0x44);
    r.push(0x53);
    r.push(0x4c);
    r.push(0x5f);
    r.push(0x56);
    r.push(0x45);
    r.push(0x52);
    r.push(0x53);
    r.push(0x49);
    r.push(0x4f);
    r.push(0x4e);
    r.push((major % 256) as u8);
    r.push((major / 256) as u8);
    r.push((minor % 256) as u8);
    r.push((minor / 256) as u8);
    proof {
        assert(r@ =~= header_bytes(major, minor));
    }
    r
}

/// Parse the versioned header from the front of `bytes`: check the magic
/// byte string and read the two versions back, big-endian, for use in
/// compatibility reports.
pub fn parse_version_header(bytes: &[u8]) -> (r: Result<(u16, u16), PlanHeaderError>)
    ensures
        r matches Err(PlanHeaderError::TooShort) <==> bytes@.len() < 15,
        r matches Err(PlanHeaderError::BadMagic) <==> bytes@.len() >= 15 && bytes@.subrange(0, 11)
            != magic_bytes(),
        r matches Ok(v) ==> bytes@.len() >= 15 && bytes@.subrange(0, 11) == magic_bytes() && v.0
            == bytes@[11] * 256 + bytes@[12] && v.1 == bytes@[13] * 256 + bytes@[14],
        r is Ok <==> bytes@.len() >= 15 && bytes@.subrange(0, 11) == magic_bytes(),
{
    if bytes.len() < 15 {
        return Err(PlanHeaderError::TooShort);
    }
    let magic: [u8; 11] = [0x44, 0x53, 0x4c, 0x5f, 0x56, 0x45, 0x52, 0x53, 0x49, 0x4f, 0x4e];
    let mut i: usize = 0;
    while i < 11
        invariant
            i <= 11,
            bytes@.len() >= 15,
            magic@ == magic_bytes(),
            forall|j: int| 0 <= j < i ==> bytes@[j] == magic_bytes()[j],
        decreases 11 - i,
    {
        if bytes[i] != magic[i] {
            proof {
                assert(bytes@.subrange(0, 11) != magic_bytes()) by {
                    assert(bytes@.subrange(0, 11)[i as int] != magic_bytes()[i as int]);
                }
            }
            return Err(PlanHeaderError::BadMagic);
        }
        i = i + 1;
    }
    proof {
        assert(bytes@.subrange(0, 11) =~= magic_bytes());
    }
    let major = (bytes[11] as u16) * 256 + (bytes[12] as u16);
    let minor = (bytes[13] as u16) * 256 + (bytes[14] as u16);
    Ok((major, minor))
}

} // verus!
