use csv2img::file_ops::{parse_file, split_fields, split_lines};
use csv2img::texture_formats::SupportedTextureFormats;
use csv2img::ConfigError;

#[test]
fn known_pixel_with_defaulted_alpha() {
    // Three channels in, four channels out: alpha is defaulted to opaque.
    let out = parse_file(b"1.0,0.5,0.0", false, SupportedTextureFormats::Rgb8, 4).unwrap();
    assert_eq!(out, vec![255, 127, 0, 255]);
}

#[test]
fn known_pixel_with_explicit_alpha() {
    let out = parse_file(b"1.0,0.5,0.0,1.0", false, SupportedTextureFormats::Rgba8, 4).unwrap();
    assert_eq!(out, vec![255, 127, 0, 255]);
}

#[test]
fn bgra8_reorders_channels() {
    // Indexed row: index 0, then B=0.0, G=0.5, R=1.0, A=1.0.
    let out = parse_file(b"0,0.0,0.5,1.0,1.0", true, SupportedTextureFormats::Bgra8, 4).unwrap();
    assert_eq!(out, vec![255, 127, 0, 255]);
}

#[test]
fn bgr8_reorders_channels() {
    let out = parse_file(b"0.0,0.5,1.0", false, SupportedTextureFormats::Bgr8, 3).unwrap();
    assert_eq!(out, vec![255, 127, 0]);
}

#[test]
fn malformed_row_is_dropped() {
    let out = parse_file(b"a,b,c,d", false, SupportedTextureFormats::Rgba8, 4).unwrap();
    assert_eq!(out, Vec::<u8>::new());
}

#[test]
fn short_row_is_dropped() {
    let out = parse_file(b"0.5,0.5", false, SupportedTextureFormats::Rgba8, 4).unwrap();
    assert_eq!(out, Vec::<u8>::new());
}

#[test]
fn one_bad_field_drops_the_row() {
    let out = parse_file(b"1.0,oops,0.0,1.0", false, SupportedTextureFormats::Rgba8, 4).unwrap();
    assert_eq!(out, Vec::<u8>::new());
}

#[test]
fn output_preserves_line_order() {
    let text = b"1.0,0.0,0.0,1.0\n0.0,1.0,0.0,1.0\nnot a row\n0.0,0.0,1.0,1.0";
    let out = parse_file(text, false, SupportedTextureFormats::Rgba8, 4).unwrap();
    assert_eq!(out.len(), 3 * 4);
    assert_eq!(&out[0..4], &[255, 0, 0, 255]);
    assert_eq!(&out[4..8], &[0, 255, 0, 255]);
    assert_eq!(&out[8..12], &[0, 0, 255, 255]);
}

#[test]
fn blank_and_trailing_lines_are_tolerated() {
    let out = parse_file(b"\n1.0,1.0,1.0,1.0\r\n\n", false, SupportedTextureFormats::Rgba8, 4)
        .unwrap();
    assert_eq!(out, vec![255, 255, 255, 255]);
}

#[test]
fn fields_beyond_channel_count_are_ignored() {
    let out = parse_file(b"1.0,0.5,0.0,0.25,0.75", false, SupportedTextureFormats::Rgb8, 3)
        .unwrap();
    assert_eq!(out, vec![255, 127, 0]);
}

#[test]
fn unsupported_channel_count_is_an_error() {
    let err = parse_file(b"1.0,1.0,1.0", false, SupportedTextureFormats::Rgb8, 5).unwrap_err();
    assert_eq!(err, ConfigError::UnsupportedChannelCount(5));
}

#[test]
fn four_channel_input_to_three_channel_output_discards_alpha() {
    // All four declared fields are consumed and must parse; the alpha value
    // has no slot in a three-channel pixel and is discarded.
    let out = parse_file(b"1.0,0.5,0.0,0.25", false, SupportedTextureFormats::Rgba8, 3).unwrap();
    assert_eq!(out, vec![255, 127, 0]);
    let bgra = parse_file(b"0.0,0.5,1.0,0.25", false, SupportedTextureFormats::Bgra8, 3).unwrap();
    assert_eq!(bgra, vec![255, 127, 0]);
    // A bad alpha field still drops the whole row.
    let bad = parse_file(b"1.0,0.5,0.0,oops", false, SupportedTextureFormats::Rgba8, 3).unwrap();
    assert_eq!(bad, Vec::<u8>::new());
}

#[test]
fn exponent_fields_parse() {
    let out = parse_file(b"1e0,1,1", false, SupportedTextureFormats::Rgb8, 3).unwrap();
    assert_eq!(out, vec![255, 255, 255]);
    let shifted = parse_file(b"5e-1,0.05e1,50E-2", false, SupportedTextureFormats::Rgb8, 3)
        .unwrap();
    assert_eq!(shifted, vec![127, 127, 127]);
}

#[test]
fn three_channel_output_keeps_three_bytes_per_row() {
    let out = parse_file(b"1.0,0.5,0.0", false, SupportedTextureFormats::Rgb8, 3).unwrap();
    assert_eq!(out, vec![255, 127, 0]);
}

#[test]
fn quantization_truncates_and_saturates() {
    // 0.999 * 255 = 254.745 truncates to 254; values beyond one saturate.
    let out = parse_file(
        b"0.999,2.0,-0.5\n.5,1.,0.003",
        false,
        SupportedTextureFormats::Rgb8,
        3,
    )
    .unwrap();
    assert_eq!(out, vec![254, 255, 0, 127, 255, 0]);
}

#[test]
fn fields_are_trimmed_before_parsing() {
    let out = parse_file(b" 1.0 ,\t0.5,0.0", false, SupportedTextureFormats::Rgb8, 3).unwrap();
    assert_eq!(out, vec![255, 127, 0]);
}

#[test]
fn split_lines_handles_terminators() {
    let lines = split_lines(b"a\r\nb\nc");
    assert_eq!(lines, vec![b"a".to_vec(), b"b".to_vec(), b"c".to_vec()]);
    assert_eq!(split_lines(b""), Vec::<Vec<u8>>::new());
    assert_eq!(split_lines(b"\n"), vec![b"".to_vec()]);
}

#[test]
fn split_fields_keeps_empty_pieces() {
    let fields = split_fields(b"a,,b");
    assert_eq!(fields, vec![b"a".to_vec(), b"".to_vec(), b"b".to_vec()]);
    assert_eq!(split_fields(b""), vec![b"".to_vec()]);
}
