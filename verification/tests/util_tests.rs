use vorbis_setup::util::{
    float32_unpack, high_neighbor, ilog, lookup1_values, low_neighbor, render_line, render_point,
};

fn unpacked_value(x: u32) -> f64 {
    let u = float32_unpack(x);
    let m = u.mantissa as f64;
    let signed = if u.sign { -m } else { m };
    signed * 2f64.powi(u.exponent as i32 - 788)
}

#[test]
fn test_ilog() {
    assert_eq!(ilog(0), 0);
    assert_eq!(ilog(1), 1);
    assert_eq!(ilog(2), 2);
    assert_eq!(ilog(3), 2);
    assert_eq!(ilog(4), 3);
    assert_eq!(ilog(7), 3);
}

#[test]
fn test_float32_unpack() {
    // Zero
    assert_eq!(unpacked_value(0x00000000), 0.0);
    assert_eq!(unpacked_value(0x80000000), 0.0);
    assert_eq!(unpacked_value(0x66600000), 0.0);

    // 1 in different ways (mantissa and exponent cancel each other out)
    assert_eq!(unpacked_value(0x62800001), 1.0);
    assert_eq!(unpacked_value(0x62000010), 1.0);
    assert_eq!(unpacked_value(0x61800100), 1.0);
    assert_eq!(unpacked_value(0x61001000), 1.0);
    assert_eq!(unpacked_value(0x60810000), 1.0);
    assert_eq!(unpacked_value(0x60100000), 1.0);

    // -1 in different ways (mantissa and exponent cancel each other out)
    assert_eq!(unpacked_value(0xE2800001), -1.0);
    assert_eq!(unpacked_value(0xE2000010), -1.0);
    assert_eq!(unpacked_value(0xE1800100), -1.0);
    assert_eq!(unpacked_value(0xE1001000), -1.0);
    assert_eq!(unpacked_value(0xE0810000), -1.0);
    assert_eq!(unpacked_value(0xE0100000), -1.0);

    // A few other numbers
    assert_eq!(unpacked_value(0x62800004), 4.0);
    assert_eq!(unpacked_value(0x62800009), 9.0);
    assert_eq!(unpacked_value(0x62800010), 16.0);
    assert_eq!(unpacked_value(0x62800019), 25.0);
    assert_eq!(unpacked_value(0x628F4240), 1_000_000.0);
    assert_eq!(unpacked_value(0xE28F4240), -1_000_000.0);

    // Fractions
    assert_eq!(unpacked_value(0x62600001), 0.5);
    assert_eq!(unpacked_value(0xE2600001), -0.5);
    assert_eq!(unpacked_value(0x62400001), 0.25);
    assert_eq!(unpacked_value(0xE2400001), -0.25);
    assert_eq!(unpacked_value(0x62600001), 0.5);
    assert_eq!(unpacked_value(0xE2600001), -0.5);
    assert_eq!(unpacked_value(0x61800001), 0.00390625);
    assert_eq!(unpacked_value(0xE1800001), -0.00390625);
}

#[test]
fn test_float32_finite() {
    // A tiny mantissa under a huge exponent escapes the binary32 range.
    assert!(!float32_unpack(0x7FE00001).is_finite());
    // A zero mantissa under a huge exponent is zero times infinity.
    assert!(!float32_unpack(0x7FE00000).is_finite());
    // Ordinary encodings stay finite.
    assert!(float32_unpack(0x62800001).is_finite());
    assert!(float32_unpack(0x00000000).is_finite());
    assert!(float32_unpack(0xE28F4240).is_finite());
}

#[test]
fn test_lookup1_values() {
    assert_eq!(lookup1_values(0, 0), 0);
    assert_eq!(lookup1_values(0, 1), 0);
    assert_eq!(lookup1_values(0, 2), 0);
    assert_eq!(lookup1_values(0, 10), 0);
    assert_eq!(lookup1_values(81, 4), 3);
    assert_eq!(lookup1_values(271, 4), 4);
    assert_eq!(lookup1_values(625, 4), 5);
    assert_eq!(lookup1_values(81, 2), 9);
    assert_eq!(lookup1_values(168, 2), 12);
    assert_eq!(lookup1_values(169, 2), 13);
    assert_eq!(lookup1_values(224, 2), 14);
    assert_eq!(lookup1_values(225, 2), 15);
    assert_eq!(lookup1_values(288, 2), 16);
    assert_eq!(lookup1_values(289, 2), 17);
}

#[test]
fn test_low_neighbor() {
    assert_eq!(low_neighbor(&[0, 1, 2], 2), 1);
    assert_eq!(
        low_neighbor(
            &[0, 128, 12, 46, 4, 8, 16, 23, 33, 70, 2, 6, 10, 14, 19, 28, 39, 58, 90],
            2
        ),
        0
    );
    assert_eq!(
        low_neighbor(
            &[0, 128, 12, 46, 4, 8, 16, 23, 33, 70, 2, 6, 10, 14, 19, 28, 39, 58, 90],
            18
        ),
        9
    );
}

#[test]
fn test_high_neighbor_basic() {
    assert_eq!(high_neighbor(&[2, 1, 0], 2), 1);
    assert_eq!(
        high_neighbor(
            &[0, 128, 12, 46, 4, 8, 16, 23, 33, 70, 2, 6, 10, 14, 19, 28, 39, 58, 90],
            2
        ),
        1
    );
    assert_eq!(
        high_neighbor(
            &[0, 128, 12, 46, 4, 8, 16, 23, 33, 70, 2, 6, 10, 14, 19, 28, 39, 58, 90],
            18
        ),
        1
    );
}

#[test]
fn test_render_point() {
    assert_eq!(render_point(0, 0, 1, 0, 0), 0);
    assert_eq!(render_point(0, 83, 128, 72, 12), 82);
    assert_eq!(render_point(12, 86, 128, 72, 46), 82);
}

#[test]
fn test_render_line() {
    // Flat line
    let mut v = vec![0; 5];
    render_line(0, 0, 5, 0, &mut v);
    assert_eq!(v, vec![0, 0, 0, 0, 0]);

    // Simple line
    let mut v = vec![0; 5];
    render_line(0, 0, 5, 5, &mut v);
    assert_eq!(v, vec![0, 1, 2, 3, 4]);

    // From an example
    let mut v = vec![0; 12];
    render_line(0, 166, 12, 172, &mut v);
    assert_eq!(
        v,
        vec![166, 166, 167, 167, 168, 168, 169, 169, 170, 170, 171, 171]
    );

    // Another example
    let mut v = vec![0; 16];
    render_line(12, 172, 16, 162, &mut v);
    assert_eq!(
        v,
        vec![0, 0, 0, 0, 0, 0, 0, 0, 0, 0, 0, 0, 172, 170, 167, 165]
    );
}
