//! The pixel buffers that the library reads and fills.
//!
//! Each type holds one buffer of the `image` crate. What a buffer holds is described by two names:
//! its size, and the map from a coordinate `(x, y)` to the pixel that stands there. The private
//! functions below are the only places that touch the crate, and their contracts are trusted.

use vstd::prelude::*;

verus! {

/// An 8-bit RGB image.
#[verifier::external_body]
pub struct RgbImage {
    inner: image::RgbImage,
}

/// An 8-bit grayscale image.
#[verifier::external_body]
pub struct GrayImage {
    inner: image::GrayImage,
}

/// A 16-bit RGB image.
#[verifier::external_body]
pub struct Rgb16Image {
    inner: image::ImageBuffer<image::Rgb<u16>, Vec<u16>>,
}

/// The width and the height of an RGB image.
pub uninterp spec fn rgb_size(img: RgbImage) -> (u32, u32);

/// The pixel at each coordinate of an RGB image.
pub uninterp spec fn rgb_pixels(img: RgbImage) -> Map<(int, int), [u8; 3]>;

/// The width and the height of a grayscale image.
pub uninterp spec fn gray_size(img: GrayImage) -> (u32, u32);

/// The level at each coordinate of a grayscale image.
pub uninterp spec fn gray_pixels(img: GrayImage) -> Map<(int, int), u8>;

/// The width and the height of a 16-bit RGB image.
pub uninterp spec fn rgb16_size(img: Rgb16Image) -> (u32, u32);

/// The pixel at each coordinate of a 16-bit RGB image.
pub uninterp spec fn rgb16_pixels(img: Rgb16Image) -> Map<(int, int), [u16; 3]>;

/// `image::ImageBuffer::dimensions`: the width and the height.
#[verifier::external_body]
fn rgb_dimensions(img: &RgbImage) -> (size: (u32, u32))
    ensures
        size == rgb_size(*img),
{
    img.inner.dimensions()
}

/// `image::ImageBuffer::get_pixel`: the pixel at a coordinate inside the image. It panics outside.
#[verifier::external_body]
fn rgb_get(img: &RgbImage, x: u32, y: u32) -> (p: [u8; 3])
    requires
        x < rgb_size(*img).0,
        y < rgb_size(*img).1,
    ensures
        p == rgb_pixels(*img)[(x as int, y as int)],
{
    img.inner.get_pixel(x, y).0
}

/// `image::ImageBuffer::put_pixel`: replaces the pixel at a coordinate inside the image and
/// nothing else. It panics outside.
#[verifier::external_body]
fn rgb_put(img: &mut RgbImage, x: u32, y: u32, p: [u8; 3])
    requires
        x < rgb_size(*old(img)).0,
        y < rgb_size(*old(img)).1,
    ensures
        rgb_size(*final(img)) == rgb_size(*old(img)),
        rgb_pixels(*final(img)) == rgb_pixels(*old(img)).insert((x as int, y as int), p),
{
    img.inner.put_pixel(x, y, image::Rgb(p))
}

/// `image::ImageBuffer::from_pixel`: an image of the given size in which every pixel is `p`. It
/// panics where the bytes of a row cannot be counted, or the three bytes of every pixel do not fit in
/// a vector.
#[verifier::external_body]
fn rgb_filled(width: u32, height: u32, p: [u8; 3]) -> (img: RgbImage)
    requires
        3 * width <= usize::MAX,
        3 * (width * height) <= isize::MAX,
    ensures
        rgb_size(img) == (width, height),
        forall|x: int, y: int|
            0 <= x < width && 0 <= y < height ==> #[trigger] rgb_pixels(img)[(x, y)] == p,
{
    RgbImage { inner: image::RgbImage::from_pixel(width, height, image::Rgb(p)) }
}

/// `image::ImageBuffer::clone`: an image of the same size with the same pixels.
#[verifier::external_body]
fn rgb_clone(img: &RgbImage) -> (copy: RgbImage)
    ensures
        rgb_size(copy) == rgb_size(*img),
        rgb_pixels(copy) == rgb_pixels(*img),
{
    RgbImage { inner: img.inner.clone() }
}

/// `image::ImageBuffer::dimensions`: the width and the height.
#[verifier::external_body]
fn gray_dimensions(img: &GrayImage) -> (size: (u32, u32))
    ensures
        size == gray_size(*img),
{
    img.inner.dimensions()
}

/// `image::ImageBuffer::get_pixel`: the level at a coordinate inside the image. It panics outside.
#[verifier::external_body]
fn gray_get(img: &GrayImage, x: u32, y: u32) -> (v: u8)
    requires
        x < gray_size(*img).0,
        y < gray_size(*img).1,
    ensures
        v == gray_pixels(*img)[(x as int, y as int)],
{
    img.inner.get_pixel(x, y).0[0]
}

/// `image::ImageBuffer::put_pixel`: replaces the level at a coordinate inside the image and
/// nothing else. It panics outside.
#[verifier::external_body]
fn gray_put(img: &mut GrayImage, x: u32, y: u32, v: u8)
    requires
        x < gray_size(*old(img)).0,
        y < gray_size(*old(img)).1,
    ensures
        gray_size(*final(img)) == gray_size(*old(img)),
        gray_pixels(*final(img)) == gray_pixels(*old(img)).insert((x as int, y as int), v),
{
    img.inner.put_pixel(x, y, image::Luma([v]))
}

/// `image::ImageBuffer::new`: an image of the given size in which every level is zero. It panics
/// where one byte for every pixel does not fit in a vector.
#[verifier::external_body]
fn gray_new(width: u32, height: u32) -> (img: GrayImage)
    requires
        width * height <= isize::MAX,
    ensures
        gray_size(img) == (width, height),
        forall|x: int, y: int|
            0 <= x < width && 0 <= y < height ==> #[trigger] gray_pixels(img)[(x, y)] == 0,
{
    GrayImage { inner: image::GrayImage::new(width, height) }
}

/// `image::ImageBuffer::dimensions`: the width and the height.
#[verifier::external_body]
fn rgb16_dimensions(img: &Rgb16Image) -> (size: (u32, u32))
    ensures
        size == rgb16_size(*img),
{
    img.inner.dimensions()
}

/// `image::ImageBuffer::get_pixel`: the pixel at a coordinate inside the image. It panics outside.
#[verifier::external_body]
fn rgb16_get(img: &Rgb16Image, x: u32, y: u32) -> (p: [u16; 3])
    requires
        x < rgb16_size(*img).0,
        y < rgb16_size(*img).1,
    ensures
        p == rgb16_pixels(*img)[(x as int, y as int)],
{
    img.inner.get_pixel(x, y).0
}

/// `image::ImageBuffer::put_pixel`: replaces the pixel at a coordinate inside the image and
/// nothing else. It panics outside.
#[verifier::external_body]
fn rgb16_put(img: &mut Rgb16Image, x: u32, y: u32, p: [u16; 3])
    requires
        x < rgb16_size(*old(img)).0,
        y < rgb16_size(*old(img)).1,
    ensures
        rgb16_size(*final(img)) == rgb16_size(*old(img)),
        rgb16_pixels(*final(img)) == rgb16_pixels(*old(img)).insert((x as int, y as int), p),
{
    img.inner.put_pixel(x, y, image::Rgb(p))
}

/// `image::ImageBuffer::from_pixel`: an image of the given size in which every pixel is `p`. It
/// panics where the samples of a row cannot be counted, or the six bytes of every pixel do not fit in
/// a vector.
#[verifier::external_body]
fn rgb16_filled(width: u32, height: u32, p: [u16; 3]) -> (img: Rgb16Image)
    requires
        3 * width <= usize::MAX,
        6 * (width * height) <= isize::MAX,
    ensures
        rgb16_size(img) == (width, height),
        forall|x: int, y: int|
            0 <= x < width && 0 <= y < height ==> #[trigger] rgb16_pixels(img)[(x, y)] == p,
{
    Rgb16Image { inner: image::ImageBuffer::from_pixel(width, height, image::Rgb(p)) }
}

impl RgbImage {
    /// The width.
    pub open spec fn w(&self) -> int {
        rgb_size(*self).0 as int
    }

    /// The height.
    pub open spec fn h(&self) -> int {
        rgb_size(*self).1 as int
    }

    /// The pixel at `(x, y)`.
    pub open spec fn px(&self, x: int, y: int) -> [u8; 3] {
        rgb_pixels(*self)[(x, y)]
    }

    /// Whether `(x, y)` is a coordinate of the image.
    pub open spec fn has(&self, x: int, y: int) -> bool {
        0 <= x < self.w() && 0 <= y < self.h()
    }

    /// An image of the given size in which every pixel is `p`.
    pub fn from_pixel(width: u32, height: u32, p: [u8; 3]) -> (img: RgbImage)
        requires
            3 * width <= usize::MAX,
            3 * (width * height) <= isize::MAX,
        ensures
            img.w() == width,
            img.h() == height,
            forall|x: int, y: int| img.has(x, y) ==> #[trigger] img.px(x, y) == p,
    {
        rgb_filled(width, height, p)
    }

    /// The width and the height.
    pub fn dimensions(&self) -> (size: (u32, u32))
        ensures
            size.0 == self.w(),
            size.1 == self.h(),
    {
        rgb_dimensions(self)
    }

    /// The pixel at `(x, y)`.
    pub fn get_pixel(&self, x: u32, y: u32) -> (p: [u8; 3])
        requires
            self.has(x as int, y as int),
        ensures
            p == self.px(x as int, y as int),
    {
        rgb_get(self, x, y)
    }

    /// Replaces the pixel at `(x, y)`.
    pub fn put_pixel(&mut self, x: u32, y: u32, p: [u8; 3])
        requires
            old(self).has(x as int, y as int),
        ensures
            final(self).w() == old(self).w(),
            final(self).h() == old(self).h(),
            forall|i: int, j: int|
                #[trigger] final(self).px(i, j) == if i == x && j == y {
                    p
                } else {
                    old(self).px(i, j)
                },
    {
        rgb_put(self, x, y, p)
    }

    /// An image of the same size with the same pixels.
    pub fn duplicate(&self) -> (copy: RgbImage)
        ensures
            copy.w() == self.w(),
            copy.h() == self.h(),
            forall|x: int, y: int| #[trigger] copy.px(x, y) == self.px(x, y),
    {
        rgb_clone(self)
    }
}

impl GrayImage {
    /// The width.
    pub open spec fn w(&self) -> int {
        gray_size(*self).0 as int
    }

    /// The height.
    pub open spec fn h(&self) -> int {
        gray_size(*self).1 as int
    }

    /// The level at `(x, y)`.
    pub open spec fn px(&self, x: int, y: int) -> u8 {
        gray_pixels(*self)[(x, y)]
    }

    /// Whether `(x, y)` is a coordinate of the image.
    pub open spec fn has(&self, x: int, y: int) -> bool {
        0 <= x < self.w() && 0 <= y < self.h()
    }

    /// A black image of the given size.
    pub fn new(width: u32, height: u32) -> (img: GrayImage)
        requires
            width * height <= isize::MAX,
        ensures
            img.w() == width,
            img.h() == height,
            forall|x: int, y: int| img.has(x, y) ==> #[trigger] img.px(x, y) == 0,
    {
        gray_new(width, height)
    }

    /// The width and the height.
    pub fn dimensions(&self) -> (size: (u32, u32))
        ensures
            size.0 == self.w(),
            size.1 == self.h(),
    {
        gray_dimensions(self)
    }

    /// The level at `(x, y)`.
    pub fn get_pixel(&self, x: u32, y: u32) -> (v: u8)
        requires
            self.has(x as int, y as int),
        ensures
            v == self.px(x as int, y as int),
    {
        gray_get(self, x, y)
    }

    /// Replaces the level at `(x, y)`.
    pub fn put_pixel(&mut self, x: u32, y: u32, v: u8)
        requires
            old(self).has(x as int, y as int),
        ensures
            final(self).w() == old(self).w(),
            final(self).h() == old(self).h(),
            forall|i: int, j: int|
                #[trigger] final(self).px(i, j) == if i == x && j == y {
                    v
                } else {
                    old(self).px(i, j)
                },
    {
        gray_put(self, x, y, v)
    }
}

impl Rgb16Image {
    /// The width.
    pub open spec fn w(&self) -> int {
        rgb16_size(*self).0 as int
    }

    /// The height.
    pub open spec fn h(&self) -> int {
        rgb16_size(*self).1 as int
    }

    /// The pixel at `(x, y)`.
    pub open spec fn px(&self, x: int, y: int) -> [u16; 3] {
        rgb16_pixels(*self)[(x, y)]
    }

    /// Whether `(x, y)` is a coordinate of the image.
    pub open spec fn has(&self, x: int, y: int) -> bool {
        0 <= x < self.w() && 0 <= y < self.h()
    }

    /// An image of the given size in which every pixel is `p`.
    pub fn from_pixel(width: u32, height: u32, p: [u16; 3]) -> (img: Rgb16Image)
        requires
            3 * width <= usize::MAX,
            6 * (width * height) <= isize::MAX,
        ensures
            img.w() == width,
            img.h() == height,
            forall|x: int, y: int| img.has(x, y) ==> #[trigger] img.px(x, y) == p,
    {
        rgb16_filled(width, height, p)
    }

    /// The width and the height.
    pub fn dimensions(&self) -> (size: (u32, u32))
        ensures
            size.0 == self.w(),
            size.1 == self.h(),
    {
        rgb16_dimensions(self)
    }

    /// The pixel at `(x, y)`.
    pub fn get_pixel(&self, x: u32, y: u32) -> (p: [u16; 3])
        requires
            self.has(x as int, y as int),
        ensures
            p == self.px(x as int, y as int),
    {
        rgb16_get(self, x, y)
    }

    /// Replaces the pixel at `(x, y)`.
    pub fn put_pixel(&mut self, x: u32, y: u32, p: [u16; 3])
        requires
            old(self).has(x as int, y as int),
        ensures
            final(self).w() == old(self).w(),
            final(self).h() == old(self).h(),
            forall|i: int, j: int|
                #[trigger] final(self).px(i, j) == if i == x && j == y {
                    p
                } else {
                    old(self).px(i, j)
                },
    {
        rgb16_put(self, x, y, p)
    }
}

} // verus!
