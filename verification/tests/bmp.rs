use diorama::bmp::encode_bmp;

fn le32(v: u32) -> [u8; 4] {
    v.to_le_bytes()
}

#[test]
fn one_pixel_file() {
    let out = encode_bmp(1, 1, &[10, 20, 30]);
    assert_eq!(out.len(), 58);
    assert_eq!(&out[0..2], b"BM");
    assert_eq!(out[2..6], le32(58));
    assert_eq!(out[6..10], le32(0));
    assert_eq!(out[10..14], le32(54));
    assert_eq!(out[14..18], le32(40));
    assert_eq!(out[18..22], le32(1));
    assert_eq!(out[22..26], le32(1));
    assert_eq!(out[26..28], [1, 0]);
    assert_eq!(out[28..30], [24, 0]);
    assert_eq!(out[30..34], le32(0));
    assert_eq!(out[34..38], le32(4));
    assert_eq!(out[38..42], le32(2835));
    assert_eq!(out[42..46], le32(2835));
    assert_eq!(out[46..54], [0; 8]);
    assert_eq!(out[54..58], [30, 20, 10, 0]);
}

#[test]
fn rows_are_stored_bottom_up_in_bgr() {
    // 2 x 2: top row red, green; bottom row blue, white.
    let rgb = [255, 0, 0, 0, 255, 0, 0, 0, 255, 255, 255, 255];
    let out = encode_bmp(2, 2, &rgb);
    // stride 6 + 2 padding
    assert_eq!(out.len(), 54 + 16);
    assert_eq!(out[54..62], [255, 0, 0, 255, 255, 255, 0, 0]);
    assert_eq!(out[62..70], [0, 0, 255, 0, 255, 0, 0, 0]);
}

#[test]
fn rows_of_four_pixels_need_no_padding() {
    let rgb: Vec<u8> = (0..12u8).collect();
    let out = encode_bmp(4, 1, &rgb);
    assert_eq!(out.len(), 54 + 12);
    assert_eq!(out[34..38], le32(12));
    assert_eq!(out[54..], [2, 1, 0, 5, 4, 3, 8, 7, 6, 11, 10, 9]);
}

#[test]
fn empty_image() {
    let out = encode_bmp(0, 0, &[]);
    assert_eq!(out.len(), 54);
    assert_eq!(out[2..6], le32(54));
}
