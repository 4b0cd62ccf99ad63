use vorbis_setup::floor::Floor;
use vorbis_setup::time_domain::TimeDomainTransform;
use vorbis_setup::vorbis::{SetupError, SetupHeader};

/// Builds a little-endian bit stream, least significant bit of each value
/// first, the way the decoders read it.
struct PacketBuilder {
    bytes: Vec<u8>,
    nbits: usize,
}

impl PacketBuilder {
    fn new() -> PacketBuilder {
        PacketBuilder { bytes: Vec::new(), nbits: 0 }
    }

    fn push(&mut self, value: u64, width: usize) {
        for i in 0..width {
            let byte_index = self.nbits / 8;
            if byte_index == self.bytes.len() {
                self.bytes.push(0);
            }
            if (value >> i) & 1 == 1 {
                self.bytes[byte_index] |= 1 << (self.nbits % 8);
            }
            self.nbits += 1;
        }
    }

    fn into_bytes(self) -> Vec<u8> {
        self.bytes
    }
}

/// One whole setup packet with a single record of each kind; `framing`
/// selects the final framing bit.
fn minimal_setup_packet(framing: u64) -> Vec<u8> {
    let mut b = PacketBuilder::new();
    b.push(5, 8); // packet type
    for byte in [0x76u64, 0x6F, 0x72, 0x62, 0x69, 0x73] {
        b.push(byte, 8); // "vorbis"
    }
    // One codebook.
    b.push(0, 8);
    b.push(0x42, 8);
    b.push(0x43, 8);
    b.push(0x56, 8);
    b.push(1, 16); // dimensions
    b.push(8, 24); // entries
    b.push(0, 1); // not ordered
    b.push(0, 1); // not sparse
    for stored in [0u64, 2, 3, 6, 1, 4, 5, 6] {
        b.push(stored, 5); // codeword lengths, each one more than stored
    }
    b.push(0, 4); // no lookup table
    // One time-domain transform.
    b.push(0, 6);
    b.push(0, 16);
    // One type-zero floor.
    b.push(0, 6);
    b.push(0, 16); // floor type
    b.push(1, 8); // order
    b.push(100, 16); // rate
    b.push(25, 16); // bark map size
    b.push(3, 6); // amplitude bits
    b.push(9, 8); // amplitude offset
    b.push(0, 4); // one book
    b.push(2, 8);
    // One residue.
    b.push(0, 6);
    b.push(0, 16); // residue type
    b.push(0, 24); // begin
    b.push(8, 24); // end
    b.push(7, 24); // partition size less one
    b.push(0, 6); // one classification
    b.push(0, 8); // classbook
    b.push(0, 3); // cascade low bits
    b.push(0, 1); // no high bits
    // One mapping.
    b.push(0, 6);
    b.push(0, 16); // mapping type
    b.push(0, 1); // submap count implied
    b.push(0, 1); // no coupling
    b.push(0, 2); // reserved
    b.push(0, 8); // unused time placeholder
    b.push(0, 8); // floor number
    b.push(0, 8); // residue number
    // One mode.
    b.push(0, 6);
    b.push(0, 1); // block flag
    b.push(0, 16); // window type
    b.push(0, 16); // transform type
    b.push(0, 8); // mapping number
    b.push(framing, 1);
    b.into_bytes()
}

#[test]
fn test_setup_header_decode() {
    let packet = minimal_setup_packet(1);
    let header = SetupHeader::from_bytes(&packet).unwrap();
    assert_eq!(header.codebook_count, 1);
    assert_eq!(header.codebooks.len(), 1);
    assert_eq!(header.codebooks[0].entries, 8);
    assert_eq!(
        header.codebooks[0].codeword_lengths,
        vec![
            Some(1),
            Some(3),
            Some(4),
            Some(7),
            Some(2),
            Some(5),
            Some(6),
            Some(7)
        ]
    );
    assert_eq!(header.time_count, 1);
    assert_eq!(
        header.time_domain_transforms,
        vec![TimeDomainTransform { reserved: 0 }]
    );
    assert_eq!(header.floor_count, 1);
    match &header.floor_configurations[0] {
        Floor::Zero(f) => {
            assert_eq!(f.order, 1);
            assert_eq!(f.rate, 100);
            assert_eq!(f.book_list, vec![2]);
        }
        x => panic!("Unexpected result: {:?}", x),
    }
    assert_eq!(header.residue_count, 1);
    assert_eq!(header.residue_configurations[0].cascade, vec![0]);
    assert_eq!(header.mapping_count, 1);
    assert_eq!(header.mapping_configurations[0].submaps, 1);
    assert_eq!(header.mode_count, 1);
    assert_eq!(header.mode_configurations[0].mapping, 0);
    assert!(header.framing_flag);
}

#[test]
fn test_setup_header_framing_and_trailing() {
    // An unset framing bit is rejected.
    let packet = minimal_setup_packet(0);
    let err = SetupHeader::from_bytes(&packet).unwrap_err();
    assert!(matches!(err, SetupError::TrailingDataOrMissingFramingBit));

    // A whole byte left after the framing bit is rejected too.
    let mut packet = minimal_setup_packet(1);
    packet.push(0);
    let err = SetupHeader::from_bytes(&packet).unwrap_err();
    assert!(matches!(err, SetupError::TrailingDataOrMissingFramingBit));
}

#[test]
fn test_setup_header_prefix_errors() {
    // A packet of another type.
    let packet = [3u8, 0x76, 0x6F, 0x72, 0x62, 0x69, 0x73];
    let err = SetupHeader::from_bytes(&packet).unwrap_err();
    assert!(matches!(err, SetupError::NotSetupPacket(3)));

    // A wrong signature.
    let packet = [5u8, 0x76, 0x6F, 0x72, 0x62, 0x69, 0x58];
    let err = SetupHeader::from_bytes(&packet).unwrap_err();
    assert!(matches!(
        err,
        SetupError::InvalidSignature([0x76, 0x6F, 0x72, 0x62, 0x69, 0x58])
    ));

    // No data at all.
    let packet = [];
    let err = SetupHeader::from_bytes(&packet).unwrap_err();
    assert!(matches!(err, SetupError::EndOfData));
}

#[test]
fn test_setup_header_record_error_propagates() {
    // Corrupting the codebook sync pattern surfaces the codebook error.
    let mut packet = minimal_setup_packet(1);
    packet[8] = 0x41;
    let err = SetupHeader::from_bytes(&packet).unwrap_err();
    assert!(matches!(
        err,
        SetupError::Codebook(vorbis_setup::codebook::CodebookError::InvalidSyncPattern(_))
    ));
}

#[test]
fn vorbis_test_() {}
