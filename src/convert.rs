use vstd::prelude::*;
use crate::error::SixelError;
use crate::sixel::{encode_sixel, sixel_stream, Rgb};

verus! {

#[verifier::external_type_specification]
#[verifier::external_body]
pub struct ExDynamicImage(image::DynamicImage);

/// A pixel of an RGBA raster.
#[derive(Clone, Copy, Debug, PartialEq, Eq, Structural)]
pub struct Rgba {
    pub r: u8,
    pub g: u8,
    pub b: u8,
    pub a: u8,
}

/// An RGBA raster, one pixel per position in row-major order.
pub struct RgbaRaster {
    pub width: u32,
    pub height: u32,
    pub pixels: Vec<Rgba>,
}

impl RgbaRaster {
    /// There is exactly one pixel per position.
    pub open spec fn wf(&self) -> bool {
        self.pixels@.len() == self.width * self.height
    }
}

/// A raster reduced to a palette, with one palette index per pixel in row-major order.
pub struct IndexedImage {
    pub width: u32,
    pub height: u32,
    pub palette: Vec<Rgb>,
    pub indices: Vec<u8>,
}

impl IndexedImage {
    /// There is exactly one index per pixel.
    pub open spec fn wf(&self) -> bool {
        self.indices@.len() == self.width * self.height
    }

    /// The sixel stream of this image.
    pub open spec fn sixel_spec(&self) -> Seq<u8> {
        sixel_stream(self.width as nat, self.height as nat, self.palette@, self.indices@)
    }

    /// Encodes this image as a sixel escape sequence.
    pub fn to_sixel(&self) -> (r: Vec<u8>)
        requires
            self.wf(),
        ensures
            r@ == self.sixel_spec(),
    {
        encode_sixel(self.width, self.height, &self.palette, &self.indices)
    }
}

/// Largest width an image can be scaled to: the scaled height is at most `u32::MAX`,
/// so a buffer of four channels per pixel stays within a 64-bit `usize`.
pub const MAX_SCALED_WIDTH: u32 = 0x4000_0000;

/// Width and height of `image`.
pub uninterp spec fn image_dims(image: image::DynamicImage) -> (u32, u32);

/// Width and height that `image` takes when scaled to fit within `width` columns,
/// keeping its aspect ratio.
pub uninterp spec fn resized_dims(image: image::DynamicImage, width: u32) -> (u32, u32);

/// Width and height of `image` once scaled to `width` columns, when a width is given.
pub open spec fn scaled_dims(image: image::DynamicImage, width: Option<u32>) -> (u32, u32) {
    match width {
        Some(w) => resized_dims(image, w),
        None => image_dims(image),
    }
}

/// Relies on `image::DynamicImage::resize`: fits the image within `width` columns
/// and unbounded rows, keeping its aspect ratio, with Lanczos resampling; the size
/// depends on the image and the width alone. It panics when a pixel buffer's length
/// overflows `usize`, which the bound on `width` rules out.
#[verifier::external_body]
fn resize_to_width(image: &image::DynamicImage, width: u32) -> (r: image::DynamicImage)
    requires
        width <= MAX_SCALED_WIDTH,
    ensures
        image_dims(r) == resized_dims(*image, width),
{
    image.resize(width, u32::MAX, image::imageops::FilterType::Lanczos3)
}

/// Relies on `image::DynamicImage::into_rgba8`: the RGBA buffer it returns has the
/// image's width and height and holds one pixel per position, row by row.
#[verifier::external_body]
fn rgba_raster(image: image::DynamicImage) -> (r: RgbaRaster)
    ensures
        r.wf(),
        (r.width, r.height) == image_dims(image),
{
    let buffer = image.into_rgba8();
    let pixels = buffer.pixels().map(|p| Rgba { r: p[0], g: p[1], b: p[2], a: p[3] }).collect();
    RgbaRaster { width: buffer.width(), height: buffer.height(), pixels }
}

/// The RGBA raster of `image`, scaled first to `width` columns when a width is given.
pub fn scaled_rgba(image: image::DynamicImage, width: Option<u32>) -> (r: RgbaRaster)
    requires
        width matches Some(w) ==> w <= MAX_SCALED_WIDTH,
    ensures
        r.wf(),
        (r.width, r.height) == scaled_dims(image, width),
{
    match width {
        Some(w) => {
            let scaled = resize_to_width(&image, w);
            rgba_raster(scaled)
        },
        None => rgba_raster(image),
    }
}

/// Relies on imagequant (`Attributes::new_image`, `Attributes::quantize`,
/// `QuantizationResult::remapped`, with the default sRGB gamma and full dithering):
/// on success the index buffer holds one palette index per pixel.
#[verifier::external_body]
fn quantize(raster: &RgbaRaster) -> (r: Result<(Vec<Rgb>, Vec<u8>), imagequant::liq_error>)
    ensures
        r is Ok ==> r->Ok_0.1@.len() == raster.width * raster.height,
{
    let pixels: Vec<rgb::RGBA8> = raster.pixels.iter().map(|p| rgb::RGBA8 { r: p.r, g: p.g, b: p.b, a: p.a }).collect();
    let attributes = imagequant::new();
    let mut image = attributes.new_image(pixels, raster.width as usize, raster.height as usize, Default::default())?;
    let mut result = attributes.quantize(&mut image)?;
    let (palette, indices) = result.remapped(&mut image)?;
    Ok((palette.iter().map(|c| Rgb { r: c.r, g: c.g, b: c.b }).collect(), indices))
}

/// Reduces an RGBA raster to a palette and one palette index per pixel.
pub fn quantize_raster(raster: &RgbaRaster) -> (r: Result<IndexedImage, SixelError>)
    requires
        raster.wf(),
    ensures
        match r {
            Ok(img) => img.wf() && img.width == raster.width && img.height == raster.height,
            Err(e) => e is Liq,
        },
{
    match quantize(raster) {
        Ok((palette, indices)) => Ok(
            IndexedImage { width: raster.width, height: raster.height, palette, indices },
        ),
        Err(e) => Err(SixelError::Liq(e)),
    }
}

/// Converts an image into a sixel escape sequence: optionally scaled to `width`
/// columns, quantized, then encoded. On success the bytes are the sixel stream of
/// a palette-indexed raster of the scaled image's dimensions; the only failure is
/// that of the quantizer.
pub fn image_to_sixel(width: Option<u32>, image: image::DynamicImage) -> (r: Result<
    Vec<u8>,
    SixelError,
>)
    requires
        width matches Some(w) ==> w <= MAX_SCALED_WIDTH,
    ensures
        match r {
            Ok(bytes) => exists|p: Seq<Rgb>, idx: Seq<u8>|
                idx.len() == scaled_dims(image, width).0 * scaled_dims(image, width).1
                    && bytes@ == sixel_stream(
                    scaled_dims(image, width).0 as nat,
                    scaled_dims(image, width).1 as nat,
                    p,
                    idx,
                ),
            Err(e) => e is Liq,
        },
{
    let ghost dims = scaled_dims(image, width);
    let raster = scaled_rgba(image, width);
    let indexed = quantize_raster(&raster)?;
    let bytes = indexed.to_sixel();
    assert(indexed.width == dims.0 && indexed.height == dims.1);
    assert(indexed.indices@.len() == indexed.width * indexed.height && bytes@ == sixel_stream(
        indexed.width as nat,
        indexed.height as nat,
        indexed.palette@,
        indexed.indices@,
    ));
    Ok(bytes)
}

} // verus!
