//! Ogg page integrity helpers: the header-type flag bits and the page
//! checksum rule, which digests the whole serialized page with its four
//! checksum bytes cleared.

use vstd::prelude::*;

verus! {

use crc_any::CRCu32;

/// The Ogg page digest of a byte string: CRC-32 with polynomial 0x04C11DB7,
/// zero initial value, zero final xor and no reflection.
pub uninterp spec fn crc32_of(data: Seq<u8>) -> u32;

/// Relies on crc_any's `CRCu32` in the Ogg configuration (polynomial
/// 0x04C11DB7, width 32, zero initial value, zero final xor, no reflection):
/// the digest depends on the bytes alone.
#[verifier::external_body]
fn ogg_crc(data: &[u8]) -> (r: u32)
    ensures
        r == crc32_of(data@),
{
    let mut crc = CRCu32::create_crc(0x04c11db7, 32, 0, 0, false);
    crc.digest(data);
    crc.get_crc()
}

/// A serialized page with its four checksum bytes cleared, the form the
/// digest is computed over.
pub open spec fn crc_cleared(page: Seq<u8>) -> Seq<u8> {
    page.update(22, 0u8).update(23, 0u8).update(24, 0u8).update(25, 0u8)
}

/// Whether a serialized page carries the checksum its bytes demand: the
/// digest of the page with the checksum field cleared must equal `expected`.
pub fn page_crc_matches(page: Vec<u8>, expected: u32) -> (r: bool)
    requires
        page@.len() >= 26,
    ensures
        r == (crc32_of(crc_cleared(page@)) == expected),
{
    let mut cleared = page;
    cleared[22] = 0;
    cleared[23] = 0;
    cleared[24] = 0;
    cleared[25] = 0;
    let crc = ogg_crc(cleared.as_slice());
    crc == expected
}

/// The header-type byte of an Ogg page: three flag bits and five that must
/// stay clear.
#[derive(Debug, PartialEq, Eq, Clone, Copy)]
pub struct HeaderTypeFlag(pub u8);

impl HeaderTypeFlag {
    /// No bit outside the three defined flags is set.
    pub fn is_valid(&self) -> (r: bool)
        ensures
            r == (self.0 & 0xF8 == 0),
    {
        self.0 & 0xF8 == 0
    }

    /// The page continues a packet from the previous page.
    pub fn is_continued_packet(&self) -> (r: bool)
        ensures
            r == (self.0 & 0x01 != 0),
    {
        self.0 & 0x01 != 0
    }

    /// The page is the first of its logical stream.
    pub fn is_first_page(&self) -> (r: bool)
        ensures
            r == (self.0 & 0x02 != 0),
    {
        self.0 & 0x02 != 0
    }

    /// The page is the last of its logical stream.
    pub fn is_last_page(&self) -> (r: bool)
        ensures
            r == (self.0 & 0x04 != 0),
    {
        self.0 & 0x04 != 0
    }
}

} // verus!
