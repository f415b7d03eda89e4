use seam_carving::image::{Pixel, PpmFile};
use seam_carving::ppm::{encode_ppm, is_delimiter, next_token, parse_number, parse_ppm, PpmError};
use seam_carving::resize::resize_width;

fn delims() -> Vec<u8> {
    vec![0x20, 0x09, 0x0d, 0x0a, 0x23]
}

fn file(header: &str, data: &[u8]) -> Vec<u8> {
    let mut bytes = header.as_bytes().to_vec();
    bytes.extend_from_slice(data);
    bytes
}

fn error_of(bytes: &[u8]) -> PpmError {
    parse_ppm(&bytes.to_vec()).expect_err("the bytes are no image")
}

#[test]
fn token_is_returned_as_text() {
    let bytes = b"  P6\n12 7".to_vec();
    let mut offset = 0;
    assert_eq!(next_token(&bytes, &mut offset, &delims()), Ok("P6".to_string()));
    assert_eq!(offset, 4);
    assert_eq!(next_token(&bytes, &mut offset, &delims()), Ok("12".to_string()));
    assert_eq!(offset, 7);
    assert_eq!(next_token(&bytes, &mut offset, &delims()), Ok("7".to_string()));
    assert_eq!(offset, 9);
    assert_eq!(next_token(&bytes, &mut offset, &delims()), Err(PpmError::UnexpectedEnd));
    assert_eq!(offset, 9);
}

#[test]
fn token_keeps_characters_of_several_bytes() {
    let bytes = "gr\u{fc}n \u{1f600};".as_bytes().to_vec();
    let mut offset = 0;
    assert_eq!(next_token(&bytes, &mut offset, &delims()), Ok("gr\u{fc}n".to_string()));
    assert_eq!(next_token(&bytes, &mut offset, &delims()), Ok("\u{1f600};".to_string()));
    assert_eq!(offset, bytes.len());
}

#[test]
fn token_that_is_not_utf8_is_refused() {
    let bytes = vec![0x20, 0x41, 0xff, 0x42, 0x20, 0x43];
    let mut offset = 0;
    assert_eq!(next_token(&bytes, &mut offset, &delims()), Err(PpmError::InvalidUtf8));
    assert_eq!(offset, 4);
    assert_eq!(next_token(&bytes, &mut offset, &delims()), Ok("C".to_string()));
}

#[test]
fn comments_run_to_the_end_of_the_line() {
    let bytes = b"# one # two\n#\n  a#b c\nd".to_vec();
    let mut offset = 0;
    assert_eq!(next_token(&bytes, &mut offset, &delims()), Ok("a".to_string()));
    assert_eq!(offset, 17);
    assert_eq!(next_token(&bytes, &mut offset, &delims()), Ok("d".to_string()));
    assert_eq!(offset, bytes.len());
}

#[test]
fn comment_without_line_feed_reaches_the_end() {
    let bytes = b"a # never ends".to_vec();
    let mut offset = 1;
    assert_eq!(next_token(&bytes, &mut offset, &delims()), Err(PpmError::UnexpectedEnd));
    assert_eq!(offset, 1);
    let mut beyond = 40;
    assert_eq!(next_token(&bytes, &mut beyond, &delims()), Err(PpmError::UnexpectedEnd));
    assert_eq!(beyond, 40);
}

#[test]
fn number_sign_is_no_comment_unless_a_delimiter() {
    let bytes = b" #a b".to_vec();
    let mut offset = 0;
    assert_eq!(next_token(&bytes, &mut offset, &vec![0x20]), Ok("#a".to_string()));
    assert_eq!(offset, 3);
}

#[test]
fn delimiter_lookup() {
    assert!(is_delimiter(&delims(), 0x23));
    assert!(is_delimiter(&delims(), 0x0a));
    assert!(!is_delimiter(&delims(), 0x30));
    assert!(!is_delimiter(&vec![], 0x20));
}

#[test]
fn numbers_are_decimal_with_an_optional_plus() {
    assert_eq!(parse_number(b"0"), Some(0));
    assert_eq!(parse_number(b"255"), Some(255));
    assert_eq!(parse_number(b"+17"), Some(17));
    assert_eq!(parse_number(b"007"), Some(7));
    assert_eq!(parse_number(usize::MAX.to_string().as_bytes()), Some(usize::MAX));
    assert_eq!(parse_number(b""), None);
    assert_eq!(parse_number(b"+"), None);
    assert_eq!(parse_number(b"-1"), None);
    assert_eq!(parse_number(b"++1"), None);
    assert_eq!(parse_number(b"1+"), None);
    assert_eq!(parse_number(b"12a"), None);
    assert_eq!(parse_number(b"1.5"), None);
    assert_eq!(parse_number(b"18446744073709551616"), None);
    assert_eq!(parse_number(b"99999999999999999999999999"), None);
    assert_eq!(parse_number(b"9999999999999999999999999x"), None);
}

#[test]
fn plain_file_is_decoded() {
    let bytes = file("P6\n2 1\n255\n", &[1, 2, 3, 4, 5, 6]);
    let image = parse_ppm(&bytes).unwrap();
    assert_eq!((image.width, image.height, image.max_val), (2, 1, 255));
    assert_eq!(image.pixels, vec![Pixel { r: 1, g: 2, b: 3 }, Pixel { r: 4, g: 5, b: 6 }]);
    assert!(image.is_well_formed());
}

#[test]
fn header_may_hold_comments_and_any_whitespace() {
    let bytes = file("P6 # made by hand\n#\n\t+2\r\n2# rows\n255 ", &[9; 12]);
    let image = parse_ppm(&bytes).unwrap();
    assert_eq!((image.width, image.height), (2, 2));
    assert_eq!(image.pixels, vec![Pixel { r: 9, g: 9, b: 9 }; 4]);
}

#[test]
fn samples_may_look_like_delimiters() {
    let bytes = file("P6 1 2 255\n", &[0x0a, 0x23, 0x20, 0x09, 0x0d, 0x00]);
    let image = parse_ppm(&bytes).unwrap();
    assert_eq!(
        image.pixels,
        vec![Pixel { r: 0x0a, g: 0x23, b: 0x20 }, Pixel { r: 0x09, g: 0x0d, b: 0x00 }]
    );
}

#[test]
fn bytes_behind_the_last_pixel_are_ignored() {
    let bytes = file("P6 1 1 255\n", &[1, 2, 3, 4, 5]);
    let image = parse_ppm(&bytes).unwrap();
    assert_eq!(image.pixels, vec![Pixel { r: 1, g: 2, b: 3 }]);
}

#[test]
fn image_without_pixels_is_decoded() {
    let image = parse_ppm(&file("P6 0 7 255\n", &[])).unwrap();
    assert_eq!((image.width, image.height), (0, 7));
    assert!(image.pixels.is_empty());
}

#[test]
fn each_defect_has_its_error() {
    assert_eq!(error_of(b""), PpmError::TooSmall);
    assert_eq!(error_of(b"P"), PpmError::TooSmall);
    assert_eq!(error_of(b"  "), PpmError::UnexpectedEnd);
    assert_eq!(error_of(b"P6"), PpmError::UnexpectedEnd);
    assert_eq!(error_of(b"P6 2 2"), PpmError::UnexpectedEnd);
    assert_eq!(error_of(b"P6 2 2 255"), PpmError::UnexpectedEnd);
    assert_eq!(error_of(b"P6 # no end"), PpmError::UnexpectedEnd);
    assert_eq!(error_of(&file("P6 2 2 255\n", &[0; 11])), PpmError::UnexpectedEnd);
    assert_eq!(error_of(b"P6 \xff 2 255\n"), PpmError::InvalidUtf8);
    assert_eq!(error_of(b"\xc0\x80 2 2 255\n"), PpmError::InvalidUtf8);
    assert_eq!(error_of(b"P6 two 2 255\n"), PpmError::InvalidNumber);
    assert_eq!(error_of(b"P6 2 -2 255\n"), PpmError::InvalidNumber);
    assert_eq!(error_of(b"P6 2 2 99999999999999999999\n"), PpmError::InvalidNumber);
    assert_eq!(error_of(&file("P5 1 1 255\n", &[0; 3])), PpmError::UnknownMagic);
    assert_eq!(error_of(&file("p6 1 1 255\n", &[0; 3])), PpmError::UnknownMagic);
    assert_eq!(error_of(&file("P6 1 1 65535\n", &[0; 6])), PpmError::UnsupportedMaxValue);
    assert_eq!(error_of(&file("P6 1 1 0\n", &[0; 3])), PpmError::UnsupportedMaxValue);
    assert_eq!(error_of(&file("P6 1 1 255#\n", &[0; 3])), PpmError::MissingWhitespace);
}

#[test]
fn the_first_defect_decides() {
    // All four fields are read before the magic word is judged.
    assert_eq!(error_of(b"P5 x 1 255\n"), PpmError::InvalidNumber);
    assert_eq!(error_of(b"P5 1 1"), PpmError::UnexpectedEnd);
    assert_eq!(error_of(b"P5 1 1 7\n"), PpmError::UnknownMagic);
    assert_eq!(error_of(b"P6 1 1 7"), PpmError::UnsupportedMaxValue);
    assert_eq!(error_of(b"P6 \xff x 255\n"), PpmError::InvalidUtf8);
}

#[test]
fn size_beyond_the_machine_word_is_an_unexpected_end() {
    let huge = format!("P6 {} {} 255\n", usize::MAX, usize::MAX);
    assert_eq!(error_of(huge.as_bytes()), PpmError::UnexpectedEnd);
    let wide = format!("P6 {} 1 255\n", usize::MAX / 2);
    assert_eq!(error_of(wide.as_bytes()), PpmError::UnexpectedEnd);
}

#[test]
fn image_is_encoded_with_a_plain_header() {
    let image = PpmFile::new(
        2,
        1,
        vec![Pixel { r: 1, g: 2, b: 3 }, Pixel { r: 253, g: 254, b: 255 }],
    )
    .unwrap();
    assert_eq!(encode_ppm(&image), file("P6\n2\n1\n255\n", &[1, 2, 3, 253, 254, 255]));
}

#[test]
fn header_numbers_are_written_in_full() {
    let image = PpmFile::new(1204, 0, vec![]).unwrap();
    assert_eq!(encode_ppm(&image), b"P6\n1204\n0\n255\n".to_vec());
    let other = PpmFile::new(0, 90, vec![]).unwrap();
    assert_eq!(encode_ppm(&other), b"P6\n0\n90\n255\n".to_vec());
}

#[test]
fn decoding_then_encoding_reproduces_the_pixel_data() {
    let data: Vec<u8> = (0..=255).rev().chain(0..=255).take(3 * 7 * 11).collect();
    let bytes = file("P6 # comment\n 7\t11\r\n255\n", &data);
    let image = parse_ppm(&bytes).unwrap();
    assert_eq!(encode_ppm(&image), file("P6\n7\n11\n255\n", &data));
}

#[test]
fn encoding_then_decoding_gives_the_image_back() {
    let pixels: Vec<Pixel> = (0..35u32)
        .map(|i| Pixel { r: (i * 7) as u8, g: (i * 13 + 10) as u8, b: (255 - i) as u8 })
        .collect();
    let image = PpmFile::new(5, 7, pixels.clone()).unwrap();
    let back = parse_ppm(&encode_ppm(&image)).unwrap();
    assert_eq!((back.width, back.height, back.max_val), (5, 7, 255));
    assert_eq!(back.pixels, pixels);
}

#[test]
fn file_is_narrowed_from_bytes_to_bytes() {
    let bytes = file("P6 3 3 255\n", &[128; 27]);
    let mut image = parse_ppm(&bytes).unwrap();
    assert_eq!(resize_width(&mut image, 1), Ok(()));
    assert_eq!(encode_ppm(&image), file("P6\n2\n3\n255\n", &[128; 18]));
}
