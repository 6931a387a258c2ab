//! The cached artifact: a decoded RGBA bitmap.

use vstd::prelude::*;
use vstd::pervasive::VecAdditionalExecFns;
use vstd::slice::slice_to_vec;
use vstd::string::StringExecFns;
use base64::Engine;
use image::ImageEncoder;

verus! {

/// Abstract value of an [`Image`]: the pixel bytes with the declared
/// dimensions.
pub struct ImageAbs {
    pub pixels: Seq<u8>,
    pub width: u32,
    pub height: u32,
}

/// A decoded RGBA bitmap artifact, the payload held by the cache.
///
/// `pixels` holds one byte per channel, four channels per pixel, rows
/// top-down. The dimensions are the ones the artifact was requested at.
#[derive(Debug)]
pub struct Image {
    pub pixels: Vec<u8>,
    pub width: u32,
    pub height: u32,
}

impl View for Image {
    type V = ImageAbs;

    open spec fn view(&self) -> ImageAbs {
        ImageAbs { pixels: self.pixels@, width: self.width, height: self.height }
    }
}

impl Clone for Image {
    fn clone(&self) -> (r: Self)
        ensures
            r@ == self@,
    {
        Image {
            pixels: slice_to_vec(self.pixels.as_slice()),
            width: self.width,
            height: self.height,
        }
    }
}

impl Image {
    /// Whether the pixel buffer agrees with the declared dimensions: four
    /// bytes per pixel.
    pub open spec fn size_ok(self) -> bool {
        self.pixels@.len() == self.width * self.height * 4
    }
}

/// The bytes of `p` with red and blue swapped in every complete four-byte
/// pixel; a trailing incomplete pixel is left as it is.
pub open spec fn bgra_swapped(p: Seq<u8>) -> Seq<u8> {
    Seq::new(
        p.len(),
        |i: int|
            if i - (i % 4) + 4 <= p.len() {
                if i % 4 == 0 {
                    p[i + 2]
                } else if i % 4 == 2 {
                    p[i - 2]
                } else {
                    p[i]
                }
            } else {
                p[i]
            },
    )
}

/// What the standard base64 encoding of a byte sequence reads as.
pub uninterp spec fn base64_of(bytes: Seq<u8>) -> Seq<char>;

/// What the PNG encoding of an RGBA pixel buffer at the given dimensions
/// reads as.
pub uninterp spec fn png_of(pixels: Seq<u8>, width: u32, height: u32) -> Seq<u8>;

/// Relies on base64's `Engine::encode` with the `STANDARD` engine: the
/// standard alphabet with padding, a function of the input bytes alone,
/// four output characters for every three input bytes (rounded up).
#[verifier::external_body]
fn encode_base64(bytes: &[u8]) -> (r: String)
    requires
        bytes@.len() * 4 <= usize::MAX,
    ensures
        r@ == base64_of(bytes@),
        r@.len() == 4 * ((bytes@.len() + 2) / 3),
{
    base64::engine::general_purpose::STANDARD.encode(bytes)
}

/// Relies on image's `PngEncoder::write_image` with eight-bit RGBA: a
/// deterministic encoding of the pixel buffer and dimensions. The buffer
/// length must match the dimensions, which is what the encoder demands.
#[verifier::external_body]
fn encode_png_rgba(pixels: &[u8], width: u32, height: u32) -> (r: Result<Vec<u8>, String>)
    requires
        pixels@.len() == width * height * 4,
    ensures
        r matches Ok(png) ==> png@ == png_of(pixels@, width, height),
{
    let mut out: Vec<u8> = Vec::new();
    let encoder = image::codecs::png::PngEncoder::new(&mut out);
    match encoder.write_image(pixels, width, height, image::ExtendedColorType::Rgba8) {
        Ok(()) => Ok(out),
        Err(e) => Err(format!("{e}")),
    }
}

/// The scheme prefix a framed PNG carries.
pub open spec fn spec_data_prefix() -> Seq<char> {
    "data:image/png;base64,"@
}

fn data_prefix() -> (r: &'static str)
    ensures
        r@ == spec_data_prefix(),
{
    "data:image/png;base64,"
}

/// The framed encoding of the generic placeholder icon the platform hands
/// out when it has no real icon for a file.
pub open spec fn spec_default_png() -> Seq<char> {
    "data:image/png;base64,iVBORw0KGgoAAAANSUhEUgAAABQAAAAUCAYAAACNiR0NAAABZElEQVR4Ae3AA6AkWZbG8f937o3IzKdyS2Oubdu2bdu2bdu2bWmMnpZKr54yMyLu+Xa3anqmhztr1a/yAJ/8CZ/wDg5v8kKEvUrVX/qSL/mSSzwvxAN80zd83dE7vvO7Lnghfu1XfinvvOP2X7vznrPv/pVf+ZXneE4EDxCllO3tbba3t9ne3mZ7e5vt7W22t7fZ3t5me3ubruvj7d7xnd/gIQ+66Xs/5mM+5iTPieDf4Nprr413eud3e5OHP+zBP/jJn/zJp3g2gn8TcfzECd76rd/uDU+f2Pm+T/qkTzrGFVT+lR728Ifzcz/z0xgD6Nrrrn/jsxcuvh3wnQCVf6XHvtiL89gXe3Hut7t7Uf/w+L+vXEHlPxaV/1hU/mNR+Y9F5T8Wlf9YVP5jUfmPReU/FpX/WFT+Y1F5gNVqNdz69Kf3/CvsH+xZSeMKKg9w9z13vvZ3fte39fwrRIb7yU/hCv4Rx8VNRaZSeusAAAAASUVORK5CYII="@
}

fn default_png_base64() -> (r: &'static str)
    ensures
        r@ == spec_default_png(),
{
    "data:image/png;base64,iVBORw0KGgoAAAANSUhEUgAAABQAAAAUCAYAAACNiR0NAAABZElEQVR4Ae3AA6AkWZbG8f937o3IzKdyS2Oubdu2bdu2bdu2bWmMnpZKr54yMyLu+Xa3anqmhztr1a/yAJ/8CZ/wDg5v8kKEvUrVX/qSL/mSSzwvxAN80zd83dE7vvO7Lnghfu1XfinvvOP2X7vznrPv/pVf+ZXneE4EDxCllO3tbba3t9ne3mZ7e5vt7W22t7fZ3t5me3ubruvj7d7xnd/gIQ+66Xs/5mM+5iTPieDf4Nprr413eud3e5OHP+zBP/jJn/zJp3g2gn8TcfzECd76rd/uDU+f2Pm+T/qkTzrGFVT+lR728Ifzcz/z0xgD6Nrrrn/jsxcuvh3wnQCVf6XHvtiL89gXe3Hut7t7Uf/w+L+vXEHlPxaV/1hU/mNR+Y9F5T8Wlf9YVP5jUfmPReU/FpX/WFT+Y1F5gNVqNdz69Kf3/CvsH+xZSeMKKg9w9z13vvZ3fte39fwrRIb7yU/hCv4Rx8VNRaZSeusAAAAASUVORK5CYII="
}

/// A framed, base64-encoded PNG, flagged when it is the platform's generic
/// placeholder icon.
#[derive(Debug, Clone)]
pub struct Base64Png {
    pub base64: String,
    pub is_default: bool,
}

/// The one error category artifact framing surfaces.
#[derive(Debug, PartialEq, Eq, Structural)]
pub enum EncodeError {
    /// The pixel buffer does not match the declared dimensions.
    BadDimensions,
    /// The PNG encoder declined the buffer.
    EncodingFailed,
}

/// Wraps already-encoded PNG bytes into the framed base64 form and flags
/// whether it is the platform's generic placeholder icon.
pub fn wrap_png_base64(png: &[u8]) -> (r: Base64Png)
    requires
        png@.len() * 4 <= usize::MAX,
    ensures
        r.base64@ == spec_data_prefix() + base64_of(png@),
        r.is_default == (r.base64@ == spec_default_png()),
{
    let payload = encode_base64(png);
    let framed = data_prefix().to_owned().concat(payload.as_str());
    let is_default = framed.eq(&default_png_base64().to_owned());
    Base64Png { base64: framed, is_default }
}

impl Image {
    /// Reorders a BGRA pixel buffer into RGBA by swapping the first and third
    /// byte of every complete pixel.
    pub fn bgra_to_rgba(pixels: &[u8]) -> (r: Vec<u8>)
        ensures
            r@ == bgra_swapped(pixels@),
    {
        let mut out: Vec<u8> = slice_to_vec(pixels);
        let n = out.len();
        let mut i: usize = 0;
        while n >= 4 && i <= n - 4
            invariant
                n == out.len(),
                out.len() == pixels@.len(),
                i % 4 == 0,
                i <= n,
                forall|j: int| 0 <= j < i ==> out@[j] == bgra_swapped(pixels@)[j],
                forall|j: int| i <= j < n ==> out@[j] == pixels@[j],
            decreases n - i,
        {
            let b = out[i];
            let r_chan = out[i + 2];
            out.set(i, r_chan);
            out.set(i + 2, b);
            proof {
                assert forall|j: int| 0 <= j < i + 4 implies out@[j] == bgra_swapped(pixels@)[j]
                by {
                    if i <= j < i + 4 {
                        assert(j - (j % 4) == i);
                    }
                }
            }
            i = i + 4;
        }
        proof {
            assert forall|j: int| 0 <= j < n implies out@[j] == bgra_swapped(pixels@)[j] by {
                if i <= j {
                    assert(j - (j % 4) + 4 > n);
                }
            }
            assert(out@ =~= bgra_swapped(pixels@));
        }
        out
    }

    /// Whether `candidate` is the framed encoding of the platform's generic
    /// placeholder icon.
    pub fn is_default_base64_png(&self, candidate: &str) -> (r: bool)
        ensures
            r == (candidate@ == spec_default_png()),
    {
        let s = candidate.to_owned();
        let d = default_png_base64().to_owned();
        s.eq(&d)
    }

    /// The raw pixel bytes, base64-encoded.
    pub fn as_base64_raw(&self) -> (r: String)
        requires
            self.pixels@.len() * 4 <= usize::MAX,
        ensures
            r@ == base64_of(self.pixels@),
    {
        encode_base64(self.pixels.as_slice())
    }

    /// The image encoded as a framed base64 PNG string.
    ///
    /// Rejects a pixel buffer that disagrees with the declared dimensions;
    /// any refusal by the PNG encoder itself surfaces as
    /// [`EncodeError::EncodingFailed`].
    pub fn as_base64_png(&self) -> (r: Result<Base64Png, EncodeError>)
        ensures
            (r matches Err(e) && e == EncodeError::BadDimensions) <==> !self.size_ok(),
            r matches Ok(b) ==> self.size_ok() && b.base64@ == spec_data_prefix() + base64_of(
                png_of(self.pixels@, self.width, self.height),
            ) && b.is_default == (b.base64@ == spec_default_png()),
    {
        let w = self.width as u64;
        let h = self.height as u64;
        proof {
            assert(w * h <= 0xffff_ffffu64 * 0xffff_ffffu64) by (nonlinear_arith)
                requires
                    w <= 0xffff_ffffu64,
                    h <= 0xffff_ffffu64,
            ;
        }
        let expected: u128 = (w * h) as u128 * 4;
        if (self.pixels.len() as u128) != expected {
            return Err(EncodeError::BadDimensions);
        }
        match encode_png_rgba(self.pixels.as_slice(), self.width, self.height) {
            Ok(png) => {
                if (png.len() as u128) * 4 <= usize::MAX as u128 {
                    Ok(wrap_png_base64(png.as_slice()))
                } else {
                    Err(EncodeError::EncodingFailed)
                }
            },
            Err(_) => Err(EncodeError::EncodingFailed),
        }
    }
}

} // verus!
