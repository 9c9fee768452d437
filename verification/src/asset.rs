//! Asset filename sanitization and image header validation, for untrusted
//! names and bytes before they reach the file system or an embed.
use vstd::prelude::*;
use vstd::string::*;
use crate::text::{utf8_bytes, to_owned_string};

verus! {

broadcast use vstd::seq::group_seq_axioms;

/// Maximum byte length for an asset filename.
pub const MAX_ASSET_NAME_LEN: usize = 255;

/// Number of bytes inspected by [`validate_image_magic_bytes`].
pub const IMAGE_MAGIC_BYTES_LEN: usize = 16;

/// Largest image, in bytes, that can be dropped into the assets folder (32 MiB).
pub const MAX_IMAGE_BYTES: u64 = 33554432;

/// Whether an image of `len` bytes is small enough to be dropped in.
pub fn image_size_allowed(len: u64) -> (r: bool)
    ensures
        r == (len <= MAX_IMAGE_BYTES),
{
    len <= MAX_IMAGE_BYTES
}

/// Errors returned by [`sanitize_asset_filename`].
#[derive(Debug, Clone, Copy, PartialEq, Eq, Structural)]
pub enum AssetNameError {
    /// The name is empty.
    Empty,
    /// The name exceeds 255 bytes.
    TooLong,
    /// The name is `.` or `..`.
    Reserved,
    /// The name starts with `.`.
    Dotfile,
    /// The name contains a character that breaks embeds or paths.
    InvalidCharacter,
}

impl AssetNameError {
    /// Human-readable description of the error.
    pub fn message(&self) -> (r: &'static str)
        ensures
            r@ == match self {
                AssetNameError::Empty => "asset filename is empty"@,
                AssetNameError::TooLong => "asset filename exceeds 255 bytes"@,
                AssetNameError::Reserved => "asset filename `.` or `..` is reserved"@,
                AssetNameError::Dotfile => "asset filename must not start with `.`"@,
                AssetNameError::InvalidCharacter => "asset filename contains an unsupported character"@,
            },
    {
        match self {
            AssetNameError::Empty => "asset filename is empty",
            AssetNameError::TooLong => "asset filename exceeds 255 bytes",
            AssetNameError::Reserved => "asset filename `.` or `..` is reserved",
            AssetNameError::Dotfile => "asset filename must not start with `.`",
            AssetNameError::InvalidCharacter => "asset filename contains an unsupported character",
        }
    }
}

/// Whether the character starting at byte `i` is `[`, `]` or a control
/// character (U+0000..U+001F, U+007F..U+009F; this covers `\n`, `\r`, `\0`).
pub open spec fn bad_char_at(b: Seq<u8>, i: int) -> bool {
    ||| b[i] == 0x5B
    ||| b[i] == 0x5D
    ||| b[i] < 0x20
    ||| b[i] == 0x7F
    ||| (b[i] == 0xC2 && i + 1 < b.len() && 0x80 <= b[i + 1] <= 0x9F)
}

pub open spec fn has_bad_char(b: Seq<u8>) -> bool {
    exists|i: int| 0 <= i < b.len() && bad_char_at(b, i)
}

/// Why the name `b` is refused, checked in order, or none.
pub open spec fn asset_name_error(b: Seq<u8>) -> Option<AssetNameError> {
    if b.len() == 0 {
        Some(AssetNameError::Empty)
    } else if b.len() > 255 {
        Some(AssetNameError::TooLong)
    } else if b == seq![0x2Eu8] || b == seq![0x2Eu8, 0x2E] {
        Some(AssetNameError::Reserved)
    } else if b[0] == 0x2E {
        Some(AssetNameError::Dotfile)
    } else if has_bad_char(b) {
        Some(AssetNameError::InvalidCharacter)
    } else {
        None
    }
}

/// Validates a dropped asset filename; on success the name is returned
/// unchanged.
pub fn sanitize_asset_filename(name: &str) -> (r: Result<String, AssetNameError>)
    ensures
        match r {
            Ok(s) => asset_name_error(name.spec_bytes()) is None && utf8_bytes(s@) == name.spec_bytes(),
            Err(e) => asset_name_error(name.spec_bytes()) == Some(e),
        },
{
    let b = name.as_bytes();
    if b.len() == 0 {
        return Err(AssetNameError::Empty);
    }
    if b.len() > MAX_ASSET_NAME_LEN {
        return Err(AssetNameError::TooLong);
    }
    if (b.len() == 1 && b[0] == 0x2E) || (b.len() == 2 && b[0] == 0x2E && b[1] == 0x2E) {
        proof {
            if b.len() == 1 {
                assert(b@ =~= seq![0x2Eu8]);
            } else {
                assert(b@ =~= seq![0x2Eu8, 0x2E]);
            }
        }
        return Err(AssetNameError::Reserved);
    }
    proof {
        if b@ == seq![0x2Eu8] {
            assert(b@[0] == 0x2E);
        }
        if b@ == seq![0x2Eu8, 0x2E] {
            assert(b@[0] == 0x2E && b@[1] == 0x2E);
        }
    }
    if b[0] == 0x2E {
        return Err(AssetNameError::Dotfile);
    }
    let mut i: usize = 0;
    while i < b.len()
        invariant
            0 <= i <= b@.len(),
            b@ == name.spec_bytes(),
            0 < b@.len() <= 255,
            b@ != seq![0x2Eu8],
            b@ != seq![0x2Eu8, 0x2E],
            b@[0] != 0x2E,
            forall|j: int| 0 <= j < i ==> !bad_char_at(b@, j),
        decreases b@.len() - i,
    {
        let c = b[i];
        let bad = c == 0x5B || c == 0x5D || c < 0x20 || c == 0x7F || (c == 0xC2 && i + 1 < b.len()
            && 0x80 <= b[i + 1] && b[i + 1] <= 0x9F);
        if bad {
            assert(bad_char_at(b@, i as int));
            return Err(AssetNameError::InvalidCharacter);
        }
        i = i + 1;
    }
    Ok(to_owned_string(name))
}

/// Errors returned by [`validate_image_magic_bytes`].
#[derive(Debug, Clone, Copy, PartialEq, Eq, Structural)]
pub enum ImageMagicError {
    /// Fewer than three bytes were available.
    TooShort,
    /// The header did not match a known image format.
    UnknownFormat,
}

impl ImageMagicError {
    /// Human-readable description of the error.
    pub fn message(&self) -> (r: &'static str)
        ensures
            r@ == match self {
                ImageMagicError::TooShort => "image header is too short"@,
                ImageMagicError::UnknownFormat => "image header does not match a supported format"@,
            },
    {
        match self {
            ImageMagicError::TooShort => "image header is too short",
            ImageMagicError::UnknownFormat => "image header does not match a supported format",
        }
    }
}

/// Whether `b` starts with `p`.
pub open spec fn starts_with(b: Seq<u8>, p: Seq<u8>) -> bool {
    p.len() <= b.len() && b.subrange(0, p.len() as int) == p
}

/// Whether `b` starts with the header of a PNG, JPEG, GIF87a/89a, WEBP or BMP image.
pub open spec fn is_image_header(b: Seq<u8>) -> bool {
    ||| starts_with(b, seq![0x89u8, 0x50, 0x4E, 0x47, 0x0D, 0x0A, 0x1A, 0x0A])
    ||| starts_with(b, seq![0xFFu8, 0xD8, 0xFF])
    ||| starts_with(b, seq![0x47u8, 0x49, 0x46, 0x38, 0x37, 0x61])
    ||| starts_with(b, seq![0x47u8, 0x49, 0x46, 0x38, 0x39, 0x61])
    ||| (b.len() >= 12 && starts_with(b, seq![0x52u8, 0x49, 0x46, 0x46]) && b.subrange(8, 12) == seq![
        0x57u8,
        0x45,
        0x42,
        0x50,
    ])
    ||| starts_with(b, seq![0x42u8, 0x4D])
}

fn starts_with_exec(b: &[u8], p: &[u8]) -> (r: bool)
    ensures
        r == starts_with(b@, p@),
{
    if p.len() > b.len() {
        return false;
    }
    let r = crate::text::matches_at_exec(b, 0, p);
    assert(r == (b@.subrange(0, p@.len() as int) == p@));
    r
}

/// Validates that `bytes` starts with a supported image header.
pub fn validate_image_magic_bytes(bytes: &[u8]) -> (r: Result<(), ImageMagicError>)
    ensures
        r == if bytes@.len() < 3 {
            Err(ImageMagicError::TooShort)
        } else if is_image_header(bytes@) {
            Ok(())
        } else {
            Err(ImageMagicError::UnknownFormat)
        },
{
    if bytes.len() < 3 {
        return Err(ImageMagicError::TooShort);
    }
    let png: [u8; 8] = [0x89, 0x50, 0x4E, 0x47, 0x0D, 0x0A, 0x1A, 0x0A];
    let jpeg: [u8; 3] = [0xFF, 0xD8, 0xFF];
    let gif7: [u8; 6] = [0x47, 0x49, 0x46, 0x38, 0x37, 0x61];
    let gif9: [u8; 6] = [0x47, 0x49, 0x46, 0x38, 0x39, 0x61];
    let riff: [u8; 4] = [0x52, 0x49, 0x46, 0x46];
    let webp: [u8; 4] = [0x57, 0x45, 0x42, 0x50];
    let bmp: [u8; 2] = [0x42, 0x4D];
    assert(png@ =~= seq![0x89u8, 0x50, 0x4E, 0x47, 0x0D, 0x0A, 0x1A, 0x0A]);
    assert(jpeg@ =~= seq![0xFFu8, 0xD8, 0xFF]);
    assert(gif7@ =~= seq![0x47u8, 0x49, 0x46, 0x38, 0x37, 0x61]);
    assert(gif9@ =~= seq![0x47u8, 0x49, 0x46, 0x38, 0x39, 0x61]);
    assert(riff@ =~= seq![0x52u8, 0x49, 0x46, 0x46]);
    assert(webp@ =~= seq![0x57u8, 0x45, 0x42, 0x50]);
    assert(bmp@ =~= seq![0x42u8, 0x4D]);
    let is_webp = bytes.len() >= 12 && starts_with_exec(bytes, riff.as_slice())
        && crate::text::matches_at_exec(bytes, 8, webp.as_slice());
    if starts_with_exec(bytes, png.as_slice()) || starts_with_exec(bytes, jpeg.as_slice())
        || starts_with_exec(bytes, gif7.as_slice()) || starts_with_exec(bytes, gif9.as_slice())
        || is_webp || starts_with_exec(bytes, bmp.as_slice()) {
        Ok(())
    } else {
        Err(ImageMagicError::UnknownFormat)
    }
}

/// `e` with ASCII letters lower-cased.
pub open spec fn lowered(e: Seq<u8>) -> Seq<u8> {
    e.map_values(|c: u8| crate::text::ascii_lower(c))
}

/// Whether the extension `e` names an image type that can be dropped into
/// a note (`png`, `jpg`, `jpeg`, `gif` or `webp`, in any ASCII case).
pub open spec fn is_image_extension(e: Seq<u8>) -> bool {
    let l = lowered(e);
    ||| l == seq![0x70u8, 0x6E, 0x67]
    ||| l == seq![0x6Au8, 0x70, 0x67]
    ||| l == seq![0x6Au8, 0x70, 0x65, 0x67]
    ||| l == seq![0x67u8, 0x69, 0x66]
    ||| l == seq![0x77u8, 0x65, 0x62, 0x70]
}

/// Whether the file at `path` has an image extension: its file name has an
/// extension that [`is_image_extension`] accepts.
pub fn has_image_extension(path: &str) -> (r: bool)
    ensures
        r == (crate::naming::file_name_of(path.spec_bytes()) matches Some(n) && crate::path::name_extension(n) matches Some(
            e,
        ) && is_image_extension(e)),
{
    let comps = crate::path::split_path(path).components;
    let n = comps.len();
    if n == 0 {
        return false;
    }
    let last = comps[n - 1].as_str().as_bytes();
    assert(crate::path::strings_bytes(comps@)[n - 1] == last@);
    if last.len() == 2 && last[0] == 0x2E && last[1] == 0x2E {
        assert(last@ =~= crate::path::dotdot_seg());
        return false;
    }
    let d = match crate::path::ext_dot_exec(last) {
        None => {
            return false;
        },
        Some(d) => d,
    };
    proof {
        crate::text::lemma_rfind_props(last@, last@.len() as int, crate::path::dot_seg());
    }
    let ghost e = last@.subrange(d + 1, last@.len() as int);
    let mut low: Vec<u8> = Vec::new();
    let mut i: usize = d + 1;
    while i < last.len()
        invariant
            d + 1 <= i <= last@.len(),
            e == last@.subrange(d + 1, last@.len() as int),
            low@ == lowered(e.take(i - d - 1)),
        decreases last@.len() - i,
    {
        low.push(crate::path::lower_ascii(last[i]));
        assert(e.take(i - d) =~= e.take(i - d - 1).push(last@[i as int]));
        assert(lowered(e.take(i - d)) =~= lowered(e.take(i - d - 1)).push(crate::text::ascii_lower(last@[i as int])));
        i = i + 1;
    }
    assert(e.take(e.len() as int) =~= e);
    let png: [u8; 3] = [0x70, 0x6E, 0x67];
    let jpg: [u8; 3] = [0x6A, 0x70, 0x67];
    let jpeg: [u8; 4] = [0x6A, 0x70, 0x65, 0x67];
    let gif: [u8; 3] = [0x67, 0x69, 0x66];
    let webp: [u8; 4] = [0x77, 0x65, 0x62, 0x70];
    assert(png@ =~= seq![0x70u8, 0x6E, 0x67]);
    assert(jpg@ =~= seq![0x6Au8, 0x70, 0x67]);
    assert(jpeg@ =~= seq![0x6Au8, 0x70, 0x65, 0x67]);
    assert(gif@ =~= seq![0x67u8, 0x69, 0x66]);
    assert(webp@ =~= seq![0x77u8, 0x65, 0x62, 0x70]);
    let l = low.as_slice();
    crate::text::bytes_eq(l, png.as_slice()) || crate::text::bytes_eq(l, jpg.as_slice()) || crate::text::bytes_eq(
        l,
        jpeg.as_slice(),
    ) || crate::text::bytes_eq(l, gif.as_slice()) || crate::text::bytes_eq(l, webp.as_slice())
}

} // verus!
