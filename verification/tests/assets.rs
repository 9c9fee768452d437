use sideromelane::asset::{
    has_image_extension, image_size_allowed, sanitize_asset_filename, validate_image_magic_bytes, AssetNameError, ImageMagicError,
    MAX_ASSET_NAME_LEN, MAX_IMAGE_BYTES,
};

#[test]
fn accepts_simple_name() {
    assert_eq!(sanitize_asset_filename("photo.png").unwrap(), "photo.png");
}

#[test]
fn rejects_empty() {
    assert_eq!(sanitize_asset_filename(""), Err(AssetNameError::Empty));
}

#[test]
fn rejects_too_long() {
    let name = format!("{}.png", "a".repeat(260));
    assert_eq!(sanitize_asset_filename(&name), Err(AssetNameError::TooLong));
}

#[test]
fn rejects_reserved() {
    assert_eq!(sanitize_asset_filename("."), Err(AssetNameError::Reserved));
    assert_eq!(sanitize_asset_filename(".."), Err(AssetNameError::Reserved));
}

#[test]
fn rejects_dotfile() {
    assert_eq!(
        sanitize_asset_filename(".hidden.png"),
        Err(AssetNameError::Dotfile),
    );
}

#[test]
fn rejects_brackets_and_newlines() {
    assert_eq!(
        sanitize_asset_filename("foo[bar].png"),
        Err(AssetNameError::InvalidCharacter),
    );
    assert_eq!(
        sanitize_asset_filename("foo]bar.png"),
        Err(AssetNameError::InvalidCharacter),
    );
    assert_eq!(
        sanitize_asset_filename("foo\nbar.png"),
        Err(AssetNameError::InvalidCharacter),
    );
    assert_eq!(
        sanitize_asset_filename("foo\rbar.png"),
        Err(AssetNameError::InvalidCharacter),
    );
    assert_eq!(
        sanitize_asset_filename("foo\0bar.png"),
        Err(AssetNameError::InvalidCharacter),
    );
}

#[test]
fn rejects_control_chars() {
    assert_eq!(
        sanitize_asset_filename("foo\u{0007}.png"),
        Err(AssetNameError::InvalidCharacter),
    );
}

#[test]
fn validates_png_header() {
    let bytes = [
        0x89, 0x50, 0x4E, 0x47, 0x0D, 0x0A, 0x1A, 0x0A, 0, 0, 0, 0, 0, 0, 0, 0,
    ];
    assert!(validate_image_magic_bytes(&bytes).is_ok());
}

#[test]
fn validates_jpeg_header() {
    let bytes = [0xFF, 0xD8, 0xFF, 0xE0];
    assert!(validate_image_magic_bytes(&bytes).is_ok());
}

#[test]
fn validates_gif_headers() {
    assert!(validate_image_magic_bytes(b"GIF87a---").is_ok());
    assert!(validate_image_magic_bytes(b"GIF89a---").is_ok());
}

#[test]
fn validates_webp_header() {
    let mut bytes = Vec::new();
    bytes.extend_from_slice(b"RIFF");
    bytes.extend_from_slice(&[0, 0, 0, 0]);
    bytes.extend_from_slice(b"WEBP");
    bytes.extend_from_slice(&[0, 0, 0, 0]);
    assert!(validate_image_magic_bytes(&bytes).is_ok());
}

#[test]
fn validates_bmp_header() {
    assert!(validate_image_magic_bytes(b"BM--").is_ok());
}

#[test]
fn rejects_unknown_format() {
    assert_eq!(
        validate_image_magic_bytes(b"NOTANIMAGE"),
        Err(ImageMagicError::UnknownFormat),
    );
}

#[test]
fn rejects_too_short() {
    assert_eq!(
        validate_image_magic_bytes(&[0x89, 0x50]),
        Err(ImageMagicError::TooShort),
    );
}

#[test]
fn name_of_exactly_max_length_is_accepted() {
    let name = "a".repeat(MAX_ASSET_NAME_LEN);
    assert_eq!(sanitize_asset_filename(&name), Ok(name.clone()));
    let longer = "a".repeat(MAX_ASSET_NAME_LEN + 1);
    assert_eq!(sanitize_asset_filename(&longer), Err(AssetNameError::TooLong));
}

#[test]
fn error_messages_are_distinct() {
    assert_ne!(AssetNameError::Empty.message(), AssetNameError::Dotfile.message());
    assert_ne!(ImageMagicError::TooShort.message(), ImageMagicError::UnknownFormat.message());
}

#[test]
fn webp_needs_the_webp_marker() {
    let mut bytes = Vec::new();
    bytes.extend_from_slice(b"RIFF");
    bytes.extend_from_slice(&[0, 0, 0, 0]);
    bytes.extend_from_slice(b"AVI ");
    assert_eq!(validate_image_magic_bytes(&bytes), Err(ImageMagicError::UnknownFormat));
}

#[test]
fn image_extensions_are_recognised_in_any_case() {
    assert!(has_image_extension("/drops/Photo.PNG"));
    assert!(has_image_extension("shot.jpeg"));
    assert!(has_image_extension("a/b/c.JpG"));
    assert!(has_image_extension("anim.gif"));
    assert!(has_image_extension("pic.webp"));
    assert!(!has_image_extension("notes/a.txt"));
    assert!(!has_image_extension(".png"));
    assert!(!has_image_extension("noext"));
    assert!(!has_image_extension("x.png/.."));
    assert!(!has_image_extension("x.pngs"));
}

#[test]
fn images_up_to_thirty_two_mebibytes_are_allowed() {
    assert_eq!(MAX_IMAGE_BYTES, 32 * 1024 * 1024);
    assert!(image_size_allowed(0));
    assert!(image_size_allowed(32 * 1024 * 1024));
    assert!(!image_size_allowed(32 * 1024 * 1024 + 1));
}
