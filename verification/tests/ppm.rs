use diorama::ppm::{decode_ppm, encode_ppm, PpmError};

#[test]
fn encode_writes_header_then_bytes() {
    let out = encode_ppm(2, 1, &[1, 2, 3, 4, 5, 6]);
    let mut expected = b"P6\n2 1\n255\n".to_vec();
    expected.extend_from_slice(&[1, 2, 3, 4, 5, 6]);
    assert_eq!(out, expected);
}

#[test]
fn encode_multi_digit_dimensions() {
    let out = encode_ppm(1280, 720, &[]);
    assert_eq!(out, b"P6\n1280 720\n255\n".to_vec());
}

#[test]
fn round_trip() {
    let rgb: Vec<u8> = (0..36u8).collect();
    let img = decode_ppm(&encode_ppm(4, 3, &rgb)).unwrap();
    assert_eq!(img.width, 4);
    assert_eq!(img.height, 3);
    assert_eq!(img.maxval, b"255".to_vec());
    assert_eq!(img.texels, rgb);
}

#[test]
fn comments_and_whitespace_are_skipped() {
    let mut file = b"P6 # made by hand\n\t3\r\n# size\n1 \x0c15\n".to_vec();
    file.extend_from_slice(&[9, 8, 7, 6, 5, 4, 3, 2, 1, 0]);
    let img = decode_ppm(&file).unwrap();
    assert_eq!(img.width, 3);
    assert_eq!(img.height, 1);
    assert_eq!(img.maxval, b"15".to_vec());
    assert_eq!(img.texels, vec![9, 8, 7, 6, 5, 4, 3, 2, 1]);
}

#[test]
fn short_data_keeps_whole_texels_only() {
    let mut file = b"P6\n2 2\n255\n".to_vec();
    file.extend_from_slice(&[1, 2, 3, 4, 5, 6, 7, 8]);
    let img = decode_ppm(&file).unwrap();
    assert_eq!(img.texels, vec![1, 2, 3, 4, 5, 6]);
}

#[test]
fn plus_sign_is_accepted() {
    let img = decode_ppm(b"P6 +1 +1 255 abc").unwrap();
    assert_eq!((img.width, img.height), (1, 1));
    assert_eq!(img.texels, b"abc".to_vec());
}

#[test]
fn missing_maxval_gives_empty_token() {
    let img = decode_ppm(b"P6 1 1").unwrap();
    assert_eq!(img.maxval, Vec::<u8>::new());
    assert_eq!(img.texels, Vec::<u8>::new());
}

#[test]
fn wrong_magic_is_refused() {
    assert_eq!(decode_ppm(b"P5 1 1 255 \x00").err(), Some(PpmError::NotBinaryRgb));
    assert_eq!(decode_ppm(b"").err(), Some(PpmError::NotBinaryRgb));
}

#[test]
fn zero_or_bad_dimensions_are_refused() {
    assert_eq!(decode_ppm(b"P6 0 4 255 ").err(), Some(PpmError::NotBinaryRgb));
    assert_eq!(decode_ppm(b"P6 4 x 255 ").err(), Some(PpmError::NotBinaryRgb));
    assert_eq!(decode_ppm(b"P6 -4 4 255 ").err(), Some(PpmError::NotBinaryRgb));
    assert_eq!(
        decode_ppm(b"P6 99999999999999999999999 4 255 ").err(),
        Some(PpmError::NotBinaryRgb)
    );
}
