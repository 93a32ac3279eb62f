use lntrn_compositor::icons::{accept_decoded, decode_icon, letterbox};

#[test]
fn icon_is_centred_in_transparent_square() {
    let src: Vec<u8> = (1u8..=8).collect();
    let out = letterbox(&src, 2, 1, 4);
    assert_eq!(out.len(), 64);
    let mut expected = vec![0u8; 64];
    expected[20..28].copy_from_slice(&src);
    assert_eq!(out, expected);
}

#[test]
fn missing_icon_pixels_stay_transparent() {
    let src = vec![9u8, 9, 9, 9];
    let out = letterbox(&src, 2, 1, 4);
    let mut expected = vec![0u8; 64];
    expected[20..24].copy_from_slice(&src);
    assert_eq!(out, expected);
}

#[test]
fn full_size_icon_fills_square() {
    let src: Vec<u8> = (0u8..16).collect();
    assert_eq!(letterbox(&src, 2, 2, 2), src);
    assert_eq!(letterbox(&[], 0, 0, 0), Vec::<u8>::new());
}

fn png_bytes(w: u32, h: u32) -> Vec<u8> {
    let mut img = image::RgbaImage::new(w, h);
    img.put_pixel(0, 0, image::Rgba([10, 20, 30, 255]));
    let mut out = std::io::Cursor::new(Vec::new());
    img.write_to(&mut out, image::ImageFormat::Png).unwrap();
    out.into_inner()
}

#[test]
fn png_decodes_into_rgba_rows() {
    let (w, h, px) = decode_icon(&png_bytes(2, 3)).unwrap();
    assert_eq!((w, h), (2, 3));
    assert_eq!(px.len(), 24);
    assert_eq!(&px[0..4], &[10, 20, 30, 255]);
    assert_eq!(&px[4..8], &[0, 0, 0, 0]);
}

#[test]
fn undecodable_bytes_give_no_icon() {
    assert!(decode_icon(&vec![1, 2, 3, 4, 5]).is_none());
    assert!(decode_icon(&Vec::new()).is_none());
}

#[test]
fn empty_picture_is_not_kept() {
    assert!(accept_decoded(Some((0, 4, Vec::new()))).is_none());
    assert!(accept_decoded(Some((4, 0, Vec::new()))).is_none());
    assert!(accept_decoded(None).is_none());
    assert_eq!(accept_decoded(Some((1, 1, vec![1, 2, 3, 4]))), Some((1, 1, vec![1, 2, 3, 4])));
}
