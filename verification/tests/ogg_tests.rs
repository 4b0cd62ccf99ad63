use vorbis_setup::ogg::{page_crc_matches, HeaderTypeFlag};

#[test]
fn test_header_type_flag() {
    let flag = HeaderTypeFlag(0x00);
    assert_eq!(flag.is_valid(), true);
    assert_eq!(flag.is_continued_packet(), false);
    assert_eq!(flag.is_first_page(), false);
    assert_eq!(flag.is_last_page(), false);

    let flag = HeaderTypeFlag(0xF);
    assert_eq!(flag.is_valid(), false);
    assert_eq!(flag.is_continued_packet(), true);
    assert_eq!(flag.is_first_page(), true);
    assert_eq!(flag.is_last_page(), true);

    let flag = HeaderTypeFlag(0x5);
    assert_eq!(flag.is_valid(), true);
    assert_eq!(flag.is_continued_packet(), true);
    assert_eq!(flag.is_first_page(), false);
    assert_eq!(flag.is_last_page(), true);
}

#[test]
fn test_ogg_page_verify_crc() {
    let raw_bytes = vec![
        0x4F, 0x67, 0x67, 0x53, 0x00, 0x02, 0x00, 0x00, 0x00, 0x00, 0x00, 0x00, 0x00, 0x00, 0x4B,
        0x86, 0x5C, 0x7D, 0x00, 0x00, 0x00, 0x00, 0xC1, 0xE3, 0xE7, 0xEF, 0x01, 0x1E, 0x01, 0x76,
        0x6F, 0x72, 0x62, 0x69, 0x73, 0x00, 0x00, 0x00, 0x00, 0x01, 0x44, 0xAC, 0x00, 0x00, 0x00,
        0x00, 0x00, 0x00, 0x00, 0x77, 0x01, 0x00, 0x00, 0x00, 0x00, 0x00, 0xB8, 0x01,
    ];
    // The checksum field holds bytes 22..26, least significant first.
    let stored = u32::from_le_bytes([raw_bytes[22], raw_bytes[23], raw_bytes[24], raw_bytes[25]]);
    assert_eq!(page_crc_matches(raw_bytes.clone(), stored), true);

    // Clearing one checksum byte gives a field the digest no longer matches.
    let mut altered = raw_bytes.clone();
    altered[22] = 0;
    let stored = u32::from_le_bytes([altered[22], altered[23], altered[24], altered[25]]);
    assert_eq!(page_crc_matches(altered, stored), false);
}
