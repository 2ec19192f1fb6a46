use palette_gen::config::{Config, default_output_file};
use palette_gen::error::ClusterError;

#[test]
fn test_valid_n_colors_accepts_u8_values() {
    assert!(Config::valid_n_colors("5".to_string()).is_ok());
    assert!(Config::valid_n_colors("0".to_string()).is_ok());
    assert!(Config::valid_n_colors("255".to_string()).is_ok());
    assert!(Config::valid_n_colors("+7".to_string()).is_ok());
    assert!(Config::valid_n_colors("007".to_string()).is_ok());
}

#[test]
fn test_valid_n_colors_rejects_other_text() {
    assert!(Config::valid_n_colors("256".to_string()).is_err());
    assert!(Config::valid_n_colors("99999999999999999999".to_string()).is_err());
    assert!(Config::valid_n_colors("".to_string()).is_err());
    assert!(Config::valid_n_colors("+".to_string()).is_err());
    assert!(Config::valid_n_colors("-3".to_string()).is_err());
    assert!(Config::valid_n_colors("12a".to_string()).is_err());
    let msg = Config::valid_n_colors("abc".to_string()).unwrap_err();
    assert_eq!(msg.as_str(), "the number of colors must be a whole number between 0 and 255");
}

#[test]
fn test_default_output_file() {
    assert_eq!(default_output_file("photo.png").unwrap().as_str(), "photo_palette.png");
    assert_eq!(default_output_file("a.b.jpeg").unwrap().as_str(), "a.b_palette.jpeg");
    assert!(default_output_file("no_extension").is_none());
}

#[test]
fn test_error_message() {
    let e = ClusterError::InvalidConfiguration;
    assert_eq!(e.message(), "the number of colors must be at least 1 and at most the number of pixels");
}
