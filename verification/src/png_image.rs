//! The PNG encoding of an image, made by the `png` crate.

use vstd::prelude::*;

verus! {

/// The error type of the `png` crate's encoder.
#[verifier::external_type_specification]
#[verifier::external_body]
pub struct ExEncodingError(png::EncodingError);

/// The four bytes of `x`, most significant first.
pub open spec fn be32(x: u32) -> Seq<u8> {
    seq![
        (x / 0x100_0000) as u8,
        ((x / 0x1_0000) % 0x100) as u8,
        ((x / 0x100) % 0x100) as u8,
        (x % 0x100) as u8,
    ]
}

/// The first bytes of an 8-bit RGB PNG file of `width` by `height` pixels:
/// the PNG signature, then the start of the `IHDR` chunk (its length 13, its
/// type, the width, the height, bit depth 8, color type 2 for RGB, and zero
/// for compression, filter and interlacing).
pub open spec fn png_rgb8_header(width: u32, height: u32) -> Seq<u8> {
    seq![137u8, 80u8, 78u8, 71u8, 13u8, 10u8, 26u8, 10u8] + be32(13) + seq![73u8, 72u8, 68u8, 82u8]
        + be32(width) + be32(height) + seq![8u8, 2u8, 0u8, 0u8, 0u8]
}

/// `be32` writes `x` in base 256, most significant byte first.
pub proof fn lemma_be32_value(x: u32)
    ensures
        be32(x).len() == 4,
        be32(x)[0] * 0x100_0000 + be32(x)[1] * 0x1_0000 + be32(x)[2] * 0x100 + be32(x)[3] == x,
{
    let b0 = x / 0x100_0000;
    let r0 = x % 0x100_0000;
    assert(x == b0 * 0x100_0000 + r0 && r0 < 0x100_0000 && b0 < 0x100) by (nonlinear_arith)
        requires
            b0 == x / 0x100_0000,
            r0 == x % 0x100_0000,
            x <= 0xffff_ffff,
    ;
    assert(((x / 0x1_0000) % 0x100) * 0x1_0000 + ((x / 0x100) % 0x100) * 0x100 + x % 0x100 == r0)
        by (nonlinear_arith)
        requires
            r0 == x % 0x100_0000,
    ;
}

/// The bytes of the PNG file that the `png` crate writes for `width` by
/// `height` pixels of 8-bit RGB `data`, with its default compression and
/// filter.
pub uninterp spec fn png_rgb8_encoding(width: u32, height: u32, data: Seq<u8>) -> Seq<u8>;

/// Encodes `data`, `width` by `height` pixels of three bytes each, into a
/// PNG file in memory with `png::Encoder` (`new`, `set_color(RGB)`,
/// `set_depth(Eight)`, `write_header`, `Writer::write_image_data`, and the
/// drop of the `Writer`, which adds the end chunk).
/// Claimed of it: `write_header` fails exactly when the width or the height
/// is zero; nothing else can fail, as the data has the size the header
/// announces and writing into a vector never fails; the bytes written
/// depend on the three arguments alone; and they start with the PNG
/// signature and the `IHDR` chunk that `write_header` writes first
/// (`Writer::init`, big-endian width then height, bit depth 8, color type
/// RGB, no interlacing).
#[verifier::external_body]
pub(crate) fn encode_png_rgb8(width: u32, height: u32, data: &[u8]) -> (r: Result<
    Vec<u8>,
    png::EncodingError,
>)
    requires
        data@.len() == width * height * 3,
    ensures
        r is Err <==> (width == 0 || height == 0),
        r matches Ok(bytes) ==> bytes@ == png_rgb8_encoding(width, height, data@),
        r matches Ok(bytes) ==> bytes@.len() >= 29 && bytes@.take(29) == png_rgb8_header(
            width,
            height,
        ),
{
    let mut buf: Vec<u8> = Vec::new();
    {
        let mut encoder = png::Encoder::new(&mut buf, width, height);
        encoder.set_color(png::ColorType::RGB);
        encoder.set_depth(png::BitDepth::Eight);
        let mut writer = encoder.write_header()?;
        writer.write_image_data(data)?;
    }
    Ok(buf)
}

} // verus!
