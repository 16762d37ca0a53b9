//! Images handled through the `image` crate: decoding, scaling and encoding.
//! An image is opaque here; what is known of it is how it came about, and
//! each step's result is a function of that history.

use std::io::Cursor;
use vstd::prelude::*;
use crate::database::vec_bytes_opt;

verus! {

#[verifier::external_type_specification]
#[verifier::external_body]
pub struct ExDynamicImage(image::DynamicImage);

/// The resampling filters of image scaling.
#[derive(Debug, Clone, Copy, PartialEq, Eq)]
pub enum ResizeFilter {
    Nearest,
    Triangle,
    CatmullRom,
    Gaussian,
    Lanczos3,
}

/// The formats that images are encoded in.
#[derive(Debug, Clone, Copy, PartialEq, Eq)]
pub enum ImageEncoding {
    Png,
}

/// How an image came about: decoded from bytes, or scaled from another
/// image to fit a width and height with a filter.
pub enum ImageOrigin {
    Decoded(Seq<u8>),
    Resized(Box<ImageOrigin>, u32, u32, ResizeFilter),
}

/// A decoded or scaled image, with how it came about.  Only the functions
/// of this module make one, so its origin is always the true one.
pub struct Image {
    img: image::DynamicImage,
    origin: Ghost<ImageOrigin>,
}

impl Image {
    /// How the image came about.
    pub closed spec fn origin(&self) -> ImageOrigin {
        self.origin@
    }
}

/// `image::load_from_memory` accepts the bytes.
pub uninterp spec fn image_decodes(bytes: Seq<u8>) -> bool;

/// The bytes that `DynamicImage::write_to` writes, in the given format, for
/// the image with the given origin; none when it fails.
pub uninterp spec fn encoded_image(origin: ImageOrigin, format: ImageEncoding) -> Option<Seq<u8>>;

/// The width and height, as `GenericImageView::dimensions` gives them, of
/// the image with the given origin.
pub uninterp spec fn image_size(origin: ImageOrigin) -> (u32, u32);

/// An image of size `new` is the image of size `old` scaled to the largest
/// size that fits `width` by `height` with its aspect ratio kept: it fits,
/// it reaches the bound on one side, and on the other side it is within one
/// pixel of the exact proportion (so `new.0 / new.1` is `old.0 / old.1` up
/// to rounding).
pub open spec fn fits_scaled(old: (u32, u32), new: (u32, u32), width: u32, height: u32) -> bool {
    let cross = new.0 as int * old.1 as int - new.1 as int * old.0 as int;
    &&& 1 <= new.0 <= width
    &&& 1 <= new.1 <= height
    &&& (new.0 == width && -(old.0 as int) <= cross <= old.0 as int) || (new.1 == height && -(
    old.1 as int) <= cross <= old.1 as int)
}

/// Calls `image::load_from_memory`; whether it succeeds is named by
/// `image_decodes`, and the image is the one decoded from the bytes.
#[verifier::external_body]
pub fn decode_image(bytes: &[u8]) -> (img: Option<Image>)
    ensures
        img is Some <==> image_decodes(bytes@),
        img matches Some(i) ==> i.origin() == ImageOrigin::Decoded(bytes@),
{
    match image::load_from_memory(bytes) {
        Ok(img) => Some(Image { img, origin: Ghost(ImageOrigin::Decoded(bytes@)) }),
        Err(_) => None,
    }
}

/// Calls `DynamicImage::resize` with the given filter, which scales the
/// image to the largest size that fits `width` by `height` and keeps its
/// aspect ratio; the result is the image scaled from this one.  Where
/// neither the image nor the bounds have a zero side, its size is what
/// `fits_scaled` says (the scale factor is the smaller of the two ratios
/// `width / w` and `height / h`, each side rounded to the nearest pixel and
/// at least one).
#[verifier::external_body]
pub fn resize_image(img: &Image, width: u32, height: u32, filter: ResizeFilter) -> (small: Image)
    ensures
        small.origin() == ImageOrigin::Resized(Box::new(img.origin()), width, height, filter),
        image_size(img.origin()).0 >= 1 && image_size(img.origin()).1 >= 1 && width >= 1 && height
            >= 1 ==> fits_scaled(image_size(img.origin()), image_size(small.origin()), width, height),
{
    let f = match filter {
        ResizeFilter::Nearest => image::imageops::FilterType::Nearest,
        ResizeFilter::Triangle => image::imageops::FilterType::Triangle,
        ResizeFilter::CatmullRom => image::imageops::FilterType::CatmullRom,
        ResizeFilter::Gaussian => image::imageops::FilterType::Gaussian,
        ResizeFilter::Lanczos3 => image::imageops::FilterType::Lanczos3,
    };
    let origin = Ghost(ImageOrigin::Resized(Box::new(img.origin()), width, height, filter));
    Image { img: img.img.resize(width, height, f), origin }
}

/// Calls `DynamicImage::write_to` into a byte buffer in the given format;
/// the bytes, or the failure, are named by `encoded_image`.
#[verifier::external_body]
pub fn encode_image(img: &Image, format: ImageEncoding) -> (bytes: Option<Vec<u8>>)
    ensures
        vec_bytes_opt(bytes) == encoded_image(img.origin(), format),
{
    let f = match format {
        ImageEncoding::Png => image::ImageOutputFormat::Png,
    };
    let mut bytes: Vec<u8> = Vec::new();
    match img.img.write_to(&mut Cursor::new(&mut bytes), f) {
        Ok(()) => Some(bytes),
        Err(_) => None,
    }
}

} // verus!
