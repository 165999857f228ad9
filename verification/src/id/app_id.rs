//! The 32-bit application identifier of a shortcut.

use vstd::prelude::*;
use vstd::utf8::encode_utf8;

use super::LegacyAppId;

verus! {

/// The bit that is always set in a shortcut's identifier.
pub const BIT_31: u32 = 0x80000000;

/// The CRC-32 checksum (ISO-HDLC variant) of a byte sequence.  The
/// checksum is a fixed function of the bytes alone; its value is not
/// spelled out here, only named.
pub uninterp spec fn crc32_iso_hdlc(bytes: Seq<u8>) -> u32;

/// Relies on crc::Crc::<u32>::checksum with the ISO-HDLC algorithm from
/// the crc catalog: the checksum of the bytes, a function of the bytes
/// alone.
#[verifier::external_body]
fn crc32_checksum(bytes: &[u8]) -> (r: u32)
    ensures
        r == crc32_iso_hdlc(bytes@),
{
    crc::Crc::<u32>::new(&crc::CRC_32_ISO_HDLC).checksum(bytes)
}

/// A shortcut's 32-bit application identifier.
#[derive(Copy, Clone, PartialEq, Eq, PartialOrd, Ord, Hash, Debug, Structural)]
pub struct AppId(pub u32);

impl AppId {
    /// Derives the identifier from a shortcut's name and target: the
    /// CRC-32 (ISO-HDLC) over the target's bytes then the name's bytes,
    /// with the high bit set.
    pub fn from_shortcut_name_and_target(name: &str, target: &str) -> (r: Self)
        ensures
            r.0 == crc32_iso_hdlc(encode_utf8(target@) + encode_utf8(name@)) | BIT_31,
    {
        let mut data: Vec<u8> = Vec::new();
        append_bytes(&mut data, target.as_bytes());
        append_bytes(&mut data, name.as_bytes());
        proof {
            assert(data@ =~= encode_utf8(target@) + encode_utf8(name@));
        }
        let mut app_id = crc32_checksum(data.as_slice());
        app_id = app_id | BIT_31;
        Self(app_id)
    }
}

impl From<LegacyAppId> for AppId {
    /// The identifier held in a legacy identifier's high 32 bits.
    fn from(legacy_app_id: LegacyAppId) -> (r: AppId) {
        proof {
            let x = legacy_app_id.0;
            assert(x >> 32u64 <= 0xffffffffu64) by (bit_vector);
        }
        let app_id = (legacy_app_id.0 >> 32) as u32;
        Self(app_id)
    }
}

impl vstd::std_specs::convert::FromSpecImpl<LegacyAppId> for AppId {
    open spec fn obeys_from_spec() -> bool {
        true
    }

    open spec fn from_spec(legacy_app_id: LegacyAppId) -> AppId {
        AppId((legacy_app_id.0 >> 32u64) as u32)
    }
}

/// Appends every byte of the slice to the vector, in order.
fn append_bytes(out: &mut Vec<u8>, bytes: &[u8])
    ensures
        final(out)@ == old(out)@ + bytes@,
{
    let n = bytes.len();
    let mut i: usize = 0;
    while i < n
        invariant
            n == bytes@.len(),
            i <= n,
            out@ == old(out)@ + bytes@.subrange(0, i as int),
        decreases n - i,
    {
        out.push(bytes[i]);
        assert(out@ =~= old(out)@ + bytes@.subrange(0, i as int + 1));
        i = i + 1;
    }
    assert(out@ =~= old(out)@ + bytes@);
}

} // verus!
