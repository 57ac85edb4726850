use csv2img::file_ops::{generate_timestamped_filename, make_output_filename};
use csv2img::parse_dimensions;
use csv2img::quantize::quantize_field;
use csv2img::vec4::Vec4;
use csv2img::ConfigError;

#[test]
fn quantize_simple_values() {
    assert_eq!(quantize_field(b"0.0"), Some(0));
    assert_eq!(quantize_field(b"0.5"), Some(127));
    assert_eq!(quantize_field(b"1.0"), Some(255));
    assert_eq!(quantize_field(b"0.999"), Some(254));
    assert_eq!(quantize_field(b".25"), Some(63));
}

#[test]
fn quantize_saturates_out_of_range() {
    assert_eq!(quantize_field(b"2.0"), Some(255));
    assert_eq!(quantize_field(b"17"), Some(255));
    assert_eq!(quantize_field(b"-0.5"), Some(0));
    assert_eq!(quantize_field(b"-3"), Some(0));
}

#[test]
fn quantize_exponents() {
    assert_eq!(quantize_field(b"5e-1"), Some(127));
    assert_eq!(quantize_field(b"5E-1"), Some(127));
    assert_eq!(quantize_field(b"0.05e1"), Some(127));
    assert_eq!(quantize_field(b"123e-4"), Some(3));
    assert_eq!(quantize_field(b"1e0"), Some(255));
    assert_eq!(quantize_field(b"1.e0"), Some(255));
    assert_eq!(quantize_field(b"1e999"), Some(255));
    assert_eq!(quantize_field(b"1e-999"), Some(0));
    assert_eq!(quantize_field(b"0e999"), Some(0));
    assert_eq!(quantize_field(b"+5e+1"), Some(255));
    assert_eq!(quantize_field(b"1e340282366920938463463374607431768211456"), Some(255));
}

#[test]
fn quantize_special_words() {
    assert_eq!(quantize_field(b"inf"), Some(255));
    assert_eq!(quantize_field(b"INF"), Some(255));
    assert_eq!(quantize_field(b"Infinity"), Some(255));
    assert_eq!(quantize_field(b"+inf"), Some(255));
    assert_eq!(quantize_field(b"-inf"), Some(0));
    assert_eq!(quantize_field(b"nan"), Some(0));
    assert_eq!(quantize_field(b"NaN"), Some(0));
    assert_eq!(quantize_field(b"-nan"), Some(0));
}

#[test]
fn quantize_trims_whitespace() {
    assert_eq!(quantize_field(b" 0.5\t"), Some(127));
    assert_eq!(quantize_field(b"0.5\r"), Some(127));
    assert_eq!(quantize_field(b"0.5\x0b"), Some(127));
}

#[test]
fn quantize_rejects_non_numbers() {
    assert_eq!(quantize_field(b""), None);
    assert_eq!(quantize_field(b" "), None);
    assert_eq!(quantize_field(b"abc"), None);
    assert_eq!(quantize_field(b"1.2.3"), None);
    assert_eq!(quantize_field(b"."), None);
    assert_eq!(quantize_field(b"+"), None);
    assert_eq!(quantize_field(b"0.5x"), None);
    assert_eq!(quantize_field(b"1e"), None);
    assert_eq!(quantize_field(b"e5"), None);
    assert_eq!(quantize_field(b"1e+"), None);
    assert_eq!(quantize_field(b"1e2e3"), None);
    assert_eq!(quantize_field(b"infinit"), None);
    assert_eq!(quantize_field(b"nanx"), None);
}

#[test]
fn vec4_default_has_opaque_sentinel() {
    let v = Vec4::default();
    assert_eq!((v.r, v.g, v.b, v.a), (0, 0, 0, 1));
}

#[test]
fn vec4_slots_read_and_write() {
    let mut v = Vec4::default();
    v.set_slot(0, 10);
    v.set_slot(1, 20);
    v.set_slot(2, 30);
    v.set_slot(3, 40);
    assert_eq!(v.get_slot(0), 10);
    assert_eq!(v.get_slot(1), 20);
    assert_eq!(v.get_slot(2), 30);
    assert_eq!(v.get_slot(3), 40);
}

#[test]
fn vec4_rgb_string() {
    let v = Vec4 { r: 255, g: 127, b: 0, a: 255 };
    assert_eq!(v.to_rgb_string(), "255, 127, 0");
    let w = Vec4 { r: -5, g: 0, b: 2147483647, a: 1 };
    assert_eq!(w.to_rgb_string(), "-5, 0, 2147483647");
    let m = Vec4 { r: -2147483648, g: 1, b: -1, a: 1 };
    assert_eq!(m.to_rgb_string(), "-2147483648, 1, -1");
}

#[test]
fn dimensions_parse() {
    assert_eq!(parse_dimensions("1920x1080").unwrap(), (1920, 1080));
    assert_eq!(parse_dimensions("1x1").unwrap(), (1, 1));
    assert_eq!(parse_dimensions("+2x3").unwrap(), (2, 3));
    // Pieces after the second `x` are ignored.
    assert_eq!(parse_dimensions("2x3x4").unwrap(), (2, 3));
}

#[test]
fn dimensions_reject_bad_strings() {
    for bad in ["", "10", "x10", "10x", "axb", "0x5", "5x0", "10X20", "4294967296x2", "-1x5"] {
        let err = parse_dimensions(bad).unwrap_err();
        let ConfigError::InvalidDimensions(t) = err else {
            panic!("wrong error kind");
        };
        assert_eq!(t, bad);
    }
}

#[test]
fn output_filename_replaces_problem_characters() {
    let name = make_output_filename(b"2018-02-14T00:28:07.000Z");
    assert_eq!(name, "output-2018-02-14T00-28-07_000Z.png");
}

#[test]
fn timestamped_filename_shape() {
    let name = generate_timestamped_filename();
    assert_eq!(name.len(), 35);
    assert!(name.starts_with("output-"));
    assert!(name.ends_with(".png"));
    let bytes = name.as_bytes();
    for (i, &b) in bytes[7..31].iter().enumerate() {
        match i + 7 {
            11 | 14 | 20 | 23 => assert_eq!(b, b'-'),
            17 => assert_eq!(b, b'T'),
            26 => assert_eq!(b, b'_'),
            30 => assert_eq!(b, b'Z'),
            _ => assert!(b.is_ascii_digit()),
        }
    }
}
