use csv2img::texture_formats::SupportedTextureFormats;
use csv2img::texture_formats::TextureFormatError;

#[test]
fn channel_count_matches_permutation_length() {
    for fmt in SupportedTextureFormats::all_formats() {
        let indices = fmt.get_vec4_indices();
        let count = fmt.get_buffer_len();
        assert_eq!(indices.len(), count);
        assert!(count == 3 || count == 4);
        for (i, &a) in indices.iter().enumerate() {
            assert!(a < 4);
            for &b in indices.iter().skip(i + 1) {
                assert_ne!(a, b);
            }
        }
    }
}

#[test]
fn permutation_values() {
    assert_eq!(SupportedTextureFormats::Rgba8.get_vec4_indices(), vec![0, 1, 2, 3]);
    assert_eq!(SupportedTextureFormats::Bgra8.get_vec4_indices(), vec![2, 1, 0, 3]);
    assert_eq!(SupportedTextureFormats::Rgb8.get_vec4_indices(), vec![0, 1, 2]);
    assert_eq!(SupportedTextureFormats::Bgr8.get_vec4_indices(), vec![2, 1, 0]);
}

#[test]
fn buffer_lengths() {
    assert_eq!(SupportedTextureFormats::Rgba8.get_buffer_len(), 4);
    assert_eq!(SupportedTextureFormats::Bgra8.get_buffer_len(), 4);
    assert_eq!(SupportedTextureFormats::Rgb8.get_buffer_len(), 3);
    assert_eq!(SupportedTextureFormats::Bgr8.get_buffer_len(), 3);
}

#[test]
fn from_str_accepts_any_ascii_case() {
    assert_eq!(SupportedTextureFormats::from_str("rgba8").unwrap(), SupportedTextureFormats::Rgba8);
    assert_eq!(SupportedTextureFormats::from_str("Rgba8").unwrap(), SupportedTextureFormats::Rgba8);
    assert_eq!(SupportedTextureFormats::from_str("BGRA8").unwrap(), SupportedTextureFormats::Bgra8);
    assert_eq!(SupportedTextureFormats::from_str("rGb8").unwrap(), SupportedTextureFormats::Rgb8);
    assert_eq!(SupportedTextureFormats::from_str("bgr8").unwrap(), SupportedTextureFormats::Bgr8);
}

#[test]
fn from_str_rejects_unknown_format() {
    let err = SupportedTextureFormats::from_str("cmyk8").unwrap_err();
    let TextureFormatError::UnsupportedTextureFormat(name) = err;
    assert_eq!(name, "cmyk8");
}

#[test]
fn from_str_rejects_near_misses() {
    assert!(SupportedTextureFormats::from_str("").is_err());
    assert!(SupportedTextureFormats::from_str("rgba").is_err());
    assert!(SupportedTextureFormats::from_str("rgba88").is_err());
    assert!(SupportedTextureFormats::from_str(" rgba8").is_err());
}

#[test]
fn error_message_names_the_format() {
    let err = SupportedTextureFormats::from_str("cmyk8").unwrap_err();
    assert_eq!(
        err.message(),
        "Texture format `cmyk8` is either unsupported or invalid."
    );
}

#[test]
fn default_format_is_rgba8() {
    let fmt: SupportedTextureFormats = Default::default();
    assert_eq!(fmt, SupportedTextureFormats::Rgba8);
}

#[test]
fn format_names() {
    let names: Vec<String> =
        SupportedTextureFormats::all_formats().iter().map(|f| f.name()).collect();
    assert_eq!(names, vec!["Rgba8", "Bgra8", "Rgb8", "Bgr8"]);
}
