use pica::convert::{image_to_sixel, quantize_raster, scaled_rgba, IndexedImage, Rgba, RgbaRaster};
use pica::sixel::Rgb;

fn red_blue(w: u32, h: u32) -> image::DynamicImage {
    let img = image::RgbaImage::from_fn(w, h, |x, _| {
        if x % 2 == 0 {
            image::Rgba([255, 0, 0, 255])
        } else {
            image::Rgba([0, 0, 255, 255])
        }
    });
    image::DynamicImage::ImageRgba8(img)
}

#[test]
fn quantizer_gives_one_index_per_pixel() {
    let red = Rgba { r: 255, g: 0, b: 0, a: 255 };
    let blue = Rgba { r: 0, g: 0, b: 255, a: 255 };
    let raster = RgbaRaster { width: 2, height: 2, pixels: vec![red, blue, red, blue] };
    let img = quantize_raster(&raster).ok().expect("quantizes");
    assert_eq!((img.width, img.height), (2, 2));
    assert_eq!(img.indices.len(), 4);
    assert_eq!(img.indices[0], img.indices[2]);
    assert_eq!(img.indices[1], img.indices[3]);
    assert_ne!(img.indices[0], img.indices[1]);
    let red_entry = img.palette[img.indices[0] as usize];
    assert!(red_entry.r > 200 && red_entry.b < 50);
}

#[test]
fn indexed_image_encodes() {
    let img = IndexedImage {
        width: 1,
        height: 1,
        palette: vec![Rgb { r: 255, g: 0, b: 0 }],
        indices: vec![0],
    };
    assert_eq!(img.to_sixel(), b"\x1bPq\"1;1;1;1#0;2;100;0;0#0@$-\x1b\\".to_vec());
}

#[test]
fn image_converts_at_its_own_size() {
    let out = image_to_sixel(None, red_blue(3, 2)).ok().expect("converts");
    assert!(out.starts_with(b"\x1bPq\"1;1;3;2#"));
    assert!(out.ends_with(b"-\x1b\\"));
}

#[test]
fn image_is_scaled_to_the_requested_width() {
    let out = image_to_sixel(Some(6), red_blue(3, 2)).ok().expect("converts");
    assert!(out.starts_with(b"\x1bPq\"1;1;6;4#"));
    assert!(out.ends_with(b"\x1b\\"));
}

#[test]
fn argument_errors_are_kept() {
    let e = pica::error::SixelError::from(lexopt::Error::from("width is not a number"));
    match e {
        pica::error::SixelError::Arg(inner) => {
            assert_eq!(inner.to_string(), "width is not a number")
        }
        _ => panic!("expected an argument error"),
    }
}

#[test]
fn raster_is_scaled_only_when_a_width_is_given() {
    let same = scaled_rgba(red_blue(3, 2), None);
    assert_eq!((same.width, same.height, same.pixels.len()), (3, 2, 6));
    assert_eq!(same.pixels[0], Rgba { r: 255, g: 0, b: 0, a: 255 });
    assert_eq!(same.pixels[1], Rgba { r: 0, g: 0, b: 255, a: 255 });
    let scaled = scaled_rgba(red_blue(3, 2), Some(6));
    assert_eq!((scaled.width, scaled.height, scaled.pixels.len()), (6, 4, 24));
}
