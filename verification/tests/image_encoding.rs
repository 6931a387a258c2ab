use base64::Engine;
use icon_cache::image::{EncodeError, Image};

#[test]
fn bgra_swap_exchanges_red_and_blue() {
    let r = Image::bgra_to_rgba(&[1, 2, 3, 4, 5, 6, 7, 8]);
    assert_eq!(r, vec![3, 2, 1, 4, 7, 6, 5, 8]);
}

#[test]
fn bgra_swap_leaves_partial_pixel_alone() {
    let r = Image::bgra_to_rgba(&[1, 2, 3, 4, 9, 9]);
    assert_eq!(r, vec![3, 2, 1, 4, 9, 9]);
    let empty = Image::bgra_to_rgba(&[]);
    assert!(empty.is_empty());
}

#[test]
fn base64_raw_matches_standard_encoding() {
    let img = Image { pixels: vec![77, 97, 110], width: 1, height: 1 };
    // "Man" encodes as "TWFu" in standard base64.
    assert_eq!(img.as_base64_raw(), "TWFu");
    let img = Image { pixels: vec![77], width: 1, height: 1 };
    assert_eq!(img.as_base64_raw(), "TQ==");
    let img = Image { pixels: vec![77, 97], width: 1, height: 1 };
    assert_eq!(img.as_base64_raw(), "TWE=");
    let img = Image { pixels: vec![], width: 0, height: 0 };
    assert_eq!(img.as_base64_raw(), "");
}

#[test]
fn base64_png_frames_a_real_png() {
    let img = Image { pixels: vec![10, 20, 30, 40], width: 1, height: 1 };
    let framed = img.as_base64_png().unwrap();
    let prefix = "data:image/png;base64,";
    assert!(framed.base64.starts_with(prefix));
    assert!(!framed.is_default);
    let payload = &framed.base64[prefix.len()..];
    assert!(!payload.is_empty());
    let png = base64::engine::general_purpose::STANDARD.decode(payload).unwrap();
    // A PNG stream starts with the fixed eight-byte signature, so the
    // encoder demonstrably transformed the pixels.
    assert_eq!(&png[0..8], &[0x89, 0x50, 0x4e, 0x47, 0x0d, 0x0a, 0x1a, 0x0a]);
}

#[test]
fn base64_png_rejects_bad_dimensions() {
    let img = Image { pixels: vec![1, 2, 3, 4], width: 2, height: 2 };
    assert_eq!(img.as_base64_png().unwrap_err(), EncodeError::BadDimensions);
}

#[test]
fn base64_png_surfaces_encoder_refusal() {
    // A zero-width image satisfies the size check (both sides are zero) but
    // the PNG format forbids it, so the encoder's refusal surfaces.
    let img = Image { pixels: vec![], width: 0, height: 4 };
    assert_eq!(img.as_base64_png().unwrap_err(), EncodeError::EncodingFailed);
}

#[test]
fn default_icon_detection() {
    let img = Image { pixels: vec![0, 0, 0, 0], width: 1, height: 1 };
    assert!(!img.is_default_base64_png("data:image/png;base64,AAAA"));
    assert!(img.is_default_base64_png(DEFAULT_ICON));
}

#[test]
fn clone_preserves_image() {
    let img = Image { pixels: vec![9, 8, 7, 6], width: 1, height: 1 };
    let copy = img.clone();
    assert_eq!(copy.pixels, img.pixels);
    assert_eq!(copy.width, 1);
    assert_eq!(copy.height, 1);
}

const DEFAULT_ICON: &str = "data:image/png;base64,iVBORw0KGgoAAAANSUhEUgAAABQAAAAUCAYAAACNiR0NAAABZElEQVR4Ae3AA6AkWZbG8f937o3IzKdyS2Oubdu2bdu2bdu2bWmMnpZKr54yMyLu+Xa3anqmhztr1a/yAJ/8CZ/wDg5v8kKEvUrVX/qSL/mSSzwvxAN80zd83dE7vvO7Lnghfu1XfinvvOP2X7vznrPv/pVf+ZXneE4EDxCllO3tbba3t9ne3mZ7e5vt7W22t7fZ3t5me3ubruvj7d7xnd/gIQ+66Xs/5mM+5iTPieDf4Nprr413eud3e5OHP+zBP/jJn/zJp3g2gn8TcfzECd76rd/uDU+f2Pm+T/qkTzrGFVT+lR728Ifzcz/z0xgD6Nrrrn/jsxcuvh3wnQCVf6XHvtiL89gXe3Hut7t7Uf/w+L+vXEHlPxaV/1hU/mNR+Y9F5T8Wlf9YVP5jUfmPReU/FpX/WFT+Y1F5gNVqNdz69Kf3/CvsH+xZSeMKKg9w9z13vvZ3fte39fwrRIb7yU/hCv4Rx8VNRaZSeusAAAAASUVORK5CYII=";
