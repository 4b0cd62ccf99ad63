use vorbis_setup::codebook::{Codebook, CodebookError};
use vorbis_setup::floor::{Class, Floor, Floor1, FloorError};
use vorbis_setup::mapping::{Mapping, MappingError, Submap};
use vorbis_setup::mode::{Mode, ModeError};
use vorbis_setup::reader::Reader;
use vorbis_setup::residue::{Residue, ResidueError};
use vorbis_setup::time_domain::{TimeDomainError, TimeDomainTransform};

/// Builds a little-endian bit stream, least significant bit of each value
/// first, the way the decoders read it.
struct StreamBuilder {
    bytes: Vec<u8>,
    nbits: usize,
}

impl StreamBuilder {
    fn new() -> StreamBuilder {
        StreamBuilder { bytes: Vec::new(), nbits: 0 }
    }

    fn push(&mut self, value: u64, width: usize) {
        for i in 0..width {
            let byte_index = self.nbits / 8;
            if byte_index == self.bytes.len() {
                self.bytes.push(0);
            }
            if (value >> i) & 1 == 1 {
                self.bytes[byte_index] |= 1 << (self.nbits % 8);
            }
            self.nbits += 1;
        }
    }

    fn into_bytes(self) -> Vec<u8> {
        self.bytes
    }
}

#[test]
fn codebook_test_codebook_decode() {
    // A one-dimensional eight-entry codebook without a lookup table.
    let input = [66, 67, 86, 1, 0, 8, 0, 0, 0, 49, 76, 32, 197, 128];
    let mut reader = Reader::new(&input);
    let codebook = Codebook::decode(&mut reader).unwrap();
    assert_eq!(codebook.dimensions, 1);
    assert_eq!(codebook.entries, 8);
    assert_eq!(codebook.ordered, false);
    assert_eq!(codebook.sparse, Some(false));
    assert_eq!(
        codebook.codeword_lengths,
        vec![
            Some(1),
            Some(3),
            Some(4),
            Some(7),
            Some(2),
            Some(5),
            Some(6),
            Some(7)
        ]
    );
    assert_eq!(codebook.lookup_type, 0);
    assert!(codebook.vector_lookup_table.is_none());
    // One codeword length per entry, each between 1 and 32 bits.
    assert_eq!(codebook.codeword_lengths.len(), codebook.entries as usize);
    for length in &codebook.codeword_lengths {
        if let Some(l) = length {
            assert!(1 <= *l && *l <= 32);
        }
    }

    // Invalid sync pattern
    let input = [1, 2, 3];
    let mut reader = Reader::new(&input);
    let err = Codebook::decode(&mut reader).unwrap_err();
    assert!(matches!(err, CodebookError::InvalidSyncPattern([1, 2, 3])));

    // Too many entries
    let input = [66, 67, 86, 1, 0, 8, 0, 0, 61];
    let mut reader = Reader::new(&input);
    let err = Codebook::decode(&mut reader).unwrap_err();
    assert!(matches!(err, CodebookError::TooManyEntries(15)));

    // Invalid lookup type (0b1111)
    let input = [66, 67, 86, 1, 0, 8, 0, 0, 0, 49, 76, 32, 197, 188];
    let mut reader = Reader::new(&input);
    let err = Codebook::decode(&mut reader).unwrap_err();
    assert!(matches!(err, CodebookError::InvalidLookupType(15)));

    // Out of data
    let input = [];
    let mut reader = Reader::new(&input);
    let err = Codebook::decode(&mut reader).unwrap_err();
    match err {
        CodebookError::EndOfData => (),
        x => panic!("Unexpected result: {:?}", x),
    }
}

#[test]
fn test_codebook_huffman_no_room() {
    // Three one-bit codewords cannot form a canonical prefix code.
    let mut b = StreamBuilder::new();
    b.push(0x42, 8);
    b.push(0x43, 8);
    b.push(0x56, 8);
    b.push(1, 16); // dimensions
    b.push(3, 24); // entries
    b.push(0, 1); // not ordered
    b.push(0, 1); // not sparse
    b.push(0, 5); // length 1
    b.push(0, 5); // length 1
    b.push(0, 5); // length 1
    b.push(0, 4); // no lookup table
    let input = b.into_bytes();
    let mut reader = Reader::new(&input);
    let err = Codebook::decode(&mut reader).unwrap_err();
    assert!(matches!(err, CodebookError::HuffmanNoRoom(2)));
}

#[test]
fn test_codebook_length_overflow() {
    // Ordered mode that assigns nothing for 32 rounds pushes the running
    // length past 32 bits with an entry still unfilled.
    let mut b = StreamBuilder::new();
    b.push(0x42, 8);
    b.push(0x43, 8);
    b.push(0x56, 8);
    b.push(1, 16); // dimensions
    b.push(1, 24); // entries
    b.push(1, 1); // ordered
    b.push(0, 1); // initial length 1
    for _ in 0..32 {
        b.push(0, 1); // zero entries of the current length
    }
    let input = b.into_bytes();
    let mut reader = Reader::new(&input);
    let err = Codebook::decode(&mut reader).unwrap_err();
    assert!(matches!(err, CodebookError::LengthOverflow(33)));
}

#[test]
fn test_codebook_ordered_decode() {
    // Ordered mode: one entry each at lengths 1 and 2, then two at length 3.
    let mut b = StreamBuilder::new();
    b.push(0x42, 8);
    b.push(0x43, 8);
    b.push(0x56, 8);
    b.push(2, 16); // dimensions
    b.push(4, 24); // entries
    b.push(1, 1); // ordered
    b.push(0, 1); // initial length 1
    b.push(1, 3); // ilog(4) = 3 bits: one entry of length 1
    b.push(1, 2); // ilog(3) = 2 bits: one entry of length 2
    b.push(2, 2); // ilog(2) = 2 bits: two entries of length 3
    b.push(0, 4); // no lookup table
    let input = b.into_bytes();
    let mut reader = Reader::new(&input);
    let codebook = Codebook::decode(&mut reader).unwrap();
    assert_eq!(codebook.ordered, true);
    assert_eq!(codebook.sparse, None);
    assert_eq!(
        codebook.codeword_lengths,
        vec![Some(1), Some(2), Some(3), Some(3)]
    );
    // The resulting tree is read back by codeword.
    assert_eq!(codebook.huffman_tree.symbol_at(&vec![false]), Some(0));
    assert_eq!(codebook.huffman_tree.symbol_at(&vec![true, false]), Some(1));
    assert_eq!(
        codebook.huffman_tree.symbol_at(&vec![true, true, false]),
        Some(2)
    );
    assert_eq!(
        codebook.huffman_tree.symbol_at(&vec![true, true, true]),
        Some(3)
    );
}

#[test]
fn test_codebook_sparse_decode() {
    // Sparse mode: entry 1 of 3 is unused.
    let mut b = StreamBuilder::new();
    b.push(0x42, 8);
    b.push(0x43, 8);
    b.push(0x56, 8);
    b.push(1, 16); // dimensions
    b.push(3, 24); // entries
    b.push(0, 1); // not ordered
    b.push(1, 1); // sparse
    b.push(1, 1); // entry 0 used
    b.push(0, 5); // length 1
    b.push(0, 1); // entry 1 unused
    b.push(1, 1); // entry 2 used
    b.push(0, 5); // length 1
    b.push(0, 4); // no lookup table
    let input = b.into_bytes();
    let mut reader = Reader::new(&input);
    let codebook = Codebook::decode(&mut reader).unwrap();
    assert_eq!(codebook.sparse, Some(true));
    assert_eq!(codebook.codeword_lengths, vec![Some(1), None, Some(1)]);
    assert_eq!(codebook.huffman_tree.symbol_at(&vec![false]), Some(0));
    assert_eq!(codebook.huffman_tree.symbol_at(&vec![true]), Some(2));
}

#[test]
fn test_codebook_lookup_table() {
    // A type-one lookup table over a four-entry two-dimensional codebook:
    // lookup1_values(4, 2) is 2, so two multiplicands follow.
    let mut b = StreamBuilder::new();
    b.push(0x42, 8);
    b.push(0x43, 8);
    b.push(0x56, 8);
    b.push(2, 16); // dimensions
    b.push(4, 24); // entries
    b.push(0, 1); // not ordered
    b.push(0, 1); // not sparse
    for _ in 0..4 {
        b.push(1, 5); // all codewords two bits long
    }
    b.push(1, 4); // lookup type 1
    b.push(0x62800001, 32); // minimum value 1.0
    b.push(0x62800004, 32); // delta value 4.0
    b.push(4, 4); // value bits 5
    b.push(1, 1); // sequence flag
    b.push(9, 5); // multiplicand 0
    b.push(20, 5); // multiplicand 1
    let input = b.into_bytes();
    let mut reader = Reader::new(&input);
    let codebook = Codebook::decode(&mut reader).unwrap();
    let table = codebook.vector_lookup_table.unwrap();
    assert_eq!(table.minimum_value.mantissa, 1);
    assert_eq!(table.delta_value.mantissa, 4);
    assert_eq!(table.value_bits, 5);
    assert_eq!(table.sequence_p, true);
    assert_eq!(table.lookup_values, 2);
    assert_eq!(table.multiplicands, vec![9, 20]);
}

#[test]
fn test_codebook_nonfinite_float() {
    // A packed float with exponent 1023 overflows the binary32 range.
    let mut b = StreamBuilder::new();
    b.push(0x42, 8);
    b.push(0x43, 8);
    b.push(0x56, 8);
    b.push(1, 16); // dimensions
    b.push(1, 24); // entries
    b.push(0, 1); // not ordered
    b.push(0, 1); // not sparse
    b.push(0, 5); // length 1
    b.push(1, 4); // lookup type 1
    b.push(0x7FE00001, 32); // minimum value out of range
    let input = b.into_bytes();
    let mut reader = Reader::new(&input);
    let err = Codebook::decode(&mut reader).unwrap_err();
    assert!(matches!(err, CodebookError::NonFiniteFloat(0x7FE00001)));
}

#[test]
fn test_floor_decode() {
    // A type-one floor with six partitions over four classes.
    let input = [
        1, 0, 6, 34, 100, 38, 16, 40, 128, 2, 3, 25, 0, 112, 128, 144, 32, 5, 0, 20, 22, 24, 58,
        134, 139, 128, 128, 92, 66, 70, 129, 65, 225, 152, 112, 78, 58, 109,
    ];
    let mut reader = Reader::new(&input);
    let floor = Floor::decode(&mut reader).unwrap();
    assert_eq!(
        floor,
        Floor::One(Floor1 {
            partitions: 6,
            partition_class_list: vec![0, 1, 1, 2, 3, 3],
            maximum_class: 3,
            classes: vec![
                Class {
                    dimensions: 2,
                    subclasses: 0,
                    masterbooks: None,
                    subclass_books: vec![3],
                },
                Class {
                    dimensions: 3,
                    subclasses: 1,
                    masterbooks: Some(0),
                    subclass_books: vec![4, 5],
                },
                Class {
                    dimensions: 3,
                    subclasses: 2,
                    masterbooks: Some(1),
                    subclass_books: vec![-1, 6, 7, 8],
                },
                Class {
                    dimensions: 3,
                    subclasses: 2,
                    masterbooks: Some(2),
                    subclass_books: vec![-1, 9, 10, 11],
                },
            ],
            multiplier: 2,
            rangebits: 7,
            x_list: vec![
                0, 128, 12, 46, 4, 8, 16, 23, 33, 70, 2, 6, 10, 14, 19, 28, 39, 58, 90
            ],
        })
    );
    // The x list holds the two seed positions plus the dimensions of each
    // partition entry's class, and stays within 65 positions.
    if let Floor::One(f) = {
        let mut reader = Reader::new(&input);
        Floor::decode(&mut reader).unwrap()
    } {
        let demanded: usize = f
            .partition_class_list
            .iter()
            .map(|c| f.classes[*c as usize].dimensions as usize)
            .sum();
        assert_eq!(f.x_list.len(), 2 + demanded);
        assert!(f.x_list.len() <= 65);
    }

    // X list too long
    let input = [
        1, 0, 30, 0, 0, 0, 0, 0, 0, 0, 0, 0, 0, 0, 0, 34, 100, 38, 16, 40, 128, 2, 3, 25, 0, 112,
        128, 144, 32, 5, 0, 20, 22, 24, 58, 134, 139, 128, 128, 92, 66, 70, 129, 65, 225, 152,
        112, 78, 58, 109, 0, 0, 0, 0, 0, 0, 0, 0, 0, 0, 0, 0, 0, 0, 0, 0, 0, 0, 0, 0, 0, 0, 0, 0,
        0, 0, 0, 0, 0, 0, 0, 0, 0, 0, 0, 0, 0, 0, 0, 0, 0, 0,
    ];
    let mut reader = Reader::new(&input);
    let err = Floor::decode(&mut reader).unwrap_err();
    assert!(matches!(err, FloorError::XListTooLong(67)));

    // Out of data
    let input = [];
    let mut reader = Reader::new(&input);
    let err = Floor::decode(&mut reader).unwrap_err();
    match err {
        FloorError::EndOfData => (),
        x => panic!("Unexpected result: {:?}", x),
    }
}

#[test]
fn test_floor_errors() {
    // Only types zero and one exist.
    let input = [2, 0];
    let mut reader = Reader::new(&input);
    let err = Floor::decode(&mut reader).unwrap_err();
    assert!(matches!(err, FloorError::InvalidFloorType(2)));

    // A type-one floor needs at least one partition.
    let mut b = StreamBuilder::new();
    b.push(1, 16); // floor type 1
    b.push(0, 5); // no partitions
    let input = b.into_bytes();
    let mut reader = Reader::new(&input);
    let err = Floor::decode(&mut reader).unwrap_err();
    assert!(matches!(err, FloorError::NoPartitionClasses));
}

#[test]
fn test_floor0_decode() {
    // A type-zero floor is a run of fixed-width fields plus a book list.
    let mut b = StreamBuilder::new();
    b.push(0, 16); // floor type 0
    b.push(30, 8); // order
    b.push(44100, 16); // rate
    b.push(256, 16); // bark map size
    b.push(6, 6); // amplitude bits
    b.push(81, 8); // amplitude offset
    b.push(1, 4); // two books
    b.push(3, 8);
    b.push(7, 8);
    let input = b.into_bytes();
    let mut reader = Reader::new(&input);
    let floor = Floor::decode(&mut reader).unwrap();
    match floor {
        Floor::Zero(f) => {
            assert_eq!(f.order, 30);
            assert_eq!(f.rate, 44100);
            assert_eq!(f.bark_map_size, 256);
            assert_eq!(f.amplitude_bits, 6);
            assert_eq!(f.amplitude_offset, 81);
            assert_eq!(f.number_of_books, 2);
            assert_eq!(f.book_list, vec![3, 7]);
        }
        x => panic!("Unexpected result: {:?}", x),
    }
}

#[test]
fn test_mode_decode() {
    let mut b = StreamBuilder::new();
    b.push(1, 1); // block flag
    b.push(0, 16); // window type
    b.push(0, 16); // transform type
    b.push(3, 8); // mapping
    let input = b.into_bytes();
    let mut reader = Reader::new(&input);
    let mode = Mode::decode(&mut reader).unwrap();
    assert_eq!(
        mode,
        Mode { blockflag: true, window_type: 0, transform_type: 0, mapping: 3 }
    );

    // Nonzero window type
    let mut b = StreamBuilder::new();
    b.push(0, 1);
    b.push(2, 16);
    let input = b.into_bytes();
    let mut reader = Reader::new(&input);
    let err = Mode::decode(&mut reader).unwrap_err();
    assert!(matches!(err, ModeError::InvalidWindowType(2)));

    // Nonzero transform type
    let mut b = StreamBuilder::new();
    b.push(0, 1);
    b.push(0, 16);
    b.push(9, 16);
    let input = b.into_bytes();
    let mut reader = Reader::new(&input);
    let err = Mode::decode(&mut reader).unwrap_err();
    assert!(matches!(err, ModeError::InvalidTransformType(9)));

    // Out of data
    let input = [];
    let mut reader = Reader::new(&input);
    let err = Mode::decode(&mut reader).unwrap_err();
    assert!(matches!(err, ModeError::EndOfData));
}

#[test]
fn test_mapping_decode() {
    // One implied submap, no coupling.
    let mut b = StreamBuilder::new();
    b.push(0, 16); // mapping type
    b.push(0, 1); // submap count implied
    b.push(0, 1); // no coupling
    b.push(0, 2); // reserved
    b.push(0, 8); // unused time placeholder
    b.push(2, 8); // floor
    b.push(7, 8); // residue
    let input = b.into_bytes();
    let mut reader = Reader::new(&input);
    let mapping = Mapping::decode(&mut reader).unwrap();
    assert_eq!(mapping.mapping_type, 0);
    assert_eq!(mapping.submaps, 1);
    assert_eq!(mapping.coupling_steps, 0);
    assert_eq!(mapping.magnitude, Vec::<u8>::new());
    assert_eq!(mapping.angle, Vec::<u8>::new());
    assert_eq!(mapping.mux, vec![0]);
    assert_eq!(mapping.submaps_vec, vec![Submap { floor: 2, residue: 7 }]);
}

#[test]
fn test_mapping_errors() {
    // Nonzero mapping type
    let input = [1, 0];
    let mut reader = Reader::new(&input);
    let err = Mapping::decode(&mut reader).unwrap_err();
    assert!(matches!(err, MappingError::InvalidMappingType(1)));

    // With one audio channel, any polar coupling names the same channel for
    // magnitude and angle.
    let mut b = StreamBuilder::new();
    b.push(0, 16); // mapping type
    b.push(0, 1); // submap count implied
    b.push(1, 1); // coupling present
    b.push(0, 8); // one coupling step
    let input = b.into_bytes();
    let mut reader = Reader::new(&input);
    let err = Mapping::decode(&mut reader).unwrap_err();
    assert!(matches!(err, MappingError::PolarAngEqualsMag(0, 0)));

    // Nonzero reserved field
    let mut b = StreamBuilder::new();
    b.push(0, 16);
    b.push(0, 1);
    b.push(0, 1);
    b.push(1, 2); // reserved
    let input = b.into_bytes();
    let mut reader = Reader::new(&input);
    let err = Mapping::decode(&mut reader).unwrap_err();
    assert!(matches!(err, MappingError::Reserved(1)));
}

#[test]
fn test_residue_decode() {
    // One classification whose cascade selects passes 0 and 3.
    let mut b = StreamBuilder::new();
    b.push(2, 16); // residue type
    b.push(5, 24); // begin
    b.push(77, 24); // end
    b.push(15, 24); // partition size less one
    b.push(0, 6); // one classification
    b.push(4, 8); // classbook
    b.push(1, 3); // cascade low bits
    b.push(1, 1); // high bits follow
    b.push(1, 5); // cascade high bits: the byte is 1 * 8 + 1 = 9
    b.push(11, 8); // book for pass 0
    b.push(13, 8); // book for pass 3
    let input = b.into_bytes();
    let mut reader = Reader::new(&input);
    let residue = Residue::decode(&mut reader).unwrap();
    assert_eq!(residue.residue_type, 2);
    assert_eq!(residue.begin, 5);
    assert_eq!(residue.end, 77);
    assert_eq!(residue.partition_size, 16);
    assert_eq!(residue.classifications, 1);
    assert_eq!(residue.classbook, 4);
    assert_eq!(residue.cascade, vec![9]);
    assert_eq!(
        residue.books,
        vec![vec![
            Some(11),
            None,
            None,
            Some(13),
            None,
            None,
            None,
            None
        ]]
    );

    // Reserved residue type
    let input = [3, 0];
    let mut reader = Reader::new(&input);
    let err = Residue::decode(&mut reader).unwrap_err();
    assert!(matches!(err, ResidueError::InvalidResidueType(3)));

    // Out of data
    let input = [0, 0, 1];
    let mut reader = Reader::new(&input);
    let err = Residue::decode(&mut reader).unwrap_err();
    assert!(matches!(err, ResidueError::EndOfData));
}

#[test]
fn time_domain_test_codebook_decode() {
    let input = [0, 0];
    let mut reader = Reader::new(&input);
    let transform = TimeDomainTransform::decode(&mut reader).unwrap();
    assert_eq!(transform, TimeDomainTransform { reserved: 0 });

    // Invalid reserved value
    let input = [1, 2];
    let mut reader = Reader::new(&input);
    let err = TimeDomainTransform::decode(&mut reader).unwrap_err();
    assert!(matches!(err, TimeDomainError::Reserved(513)));

    // Out of data
    let input = [];
    let mut reader = Reader::new(&input);
    let err = TimeDomainTransform::decode(&mut reader).unwrap_err();
    match err {
        TimeDomainError::EndOfData => (),
        x => panic!("Unexpected result: {:?}", x),
    }
}

#[test]
fn floor0_test_() {}

#[test]
fn floor1_test_() {}

#[test]
fn mapping_test_() {}

#[test]
fn mode_test_() {}

#[test]
fn residue_test_() {}
