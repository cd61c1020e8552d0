//! A texture read from the pixels of an image.

use vstd::prelude::*;

use crate::texture::Texture;
use crate::vec3::{floor_div, lemma_quotient_between, Vec3, ONE};

verus! {

/// The number of bytes of a pixel: red, green and blue.
pub const BYTES_PER_PIXEL: usize = 3;

/// An image as a texture: its pixels row by row from the top, each with a
/// byte for red, green and blue.
#[derive(Debug)]
pub struct ImageTexture {
    pub data: Vec<u8>,
    pub width: usize,
    pub height: usize,
}

/// A surface coordinate kept between nothing and one.
pub open spec fn kept(c: i32) -> int {
    if c < 0 {
        0
    } else if c > ONE {
        ONE as int
    } else {
        c as int
    }
}

/// The pixel under the fraction `c` of an axis of `extent` pixels: the
/// fraction of the extent, rounded down, and the last pixel for the whole
/// of it.
pub open spec fn pixel_under(c: int, extent: int) -> int {
    let at = (c * extent) / (ONE as int);
    if at >= extent {
        extent - 1
    } else {
        at
    }
}

fn clamp_unit(c: i32) -> (k: i32)
    ensures
        k == kept(c),
{
    if c < 0 {
        0
    } else if c > 65536 {
        65536
    } else {
        c
    }
}

fn pixel_index(c: i32, extent: usize) -> (at: usize)
    requires
        0 <= c <= ONE,
        extent > 0,
    ensures
        at == pixel_under(c as int, extent as int),
        at < extent,
{
    proof {
        assert(0 <= c * extent < (extent + 1) * 65536) by (nonlinear_arith)
            requires
                0 <= c <= 65536,
                extent > 0,
        ;
        lemma_quotient_between(c * extent, 65536, 0, extent as int);
    }
    let at = floor_div((c as i128) * (extent as i128), 65536);
    if at >= extent as i128 {
        extent - 1
    } else {
        at as usize
    }
}

/// A byte of color as a channel: the byte over 255, rounded down.
pub open spec fn channel_of(byte: u8) -> i32 {
    ((byte * ONE) / 255) as i32
}

fn channel(byte: u8) -> (c: i32)
    ensures
        c == channel_of(byte),
{
    ((byte as i32 * 65536) / 255) as i32
}

impl ImageTexture {
    /// The texture of the image with the given bytes, `width` pixels wide
    /// and `height` pixels high.
    pub fn new(data: Vec<u8>, width: usize, height: usize) -> (texture: Self)
        ensures
            texture.data == data,
            texture.width == width,
            texture.height == height,
    {
        Self { height, width, data }
    }

    /// Where the bytes of the pixel under the surface coordinates `u` and
    /// `v` start; `v` runs from the bottom of the image to its top.
    pub open spec fn offset(&self, u: i32, v: i32) -> int {
        let i = pixel_under(kept(u), self.width as int);
        let j = pixel_under(ONE - kept(v), self.height as int);
        BYTES_PER_PIXEL * i + BYTES_PER_PIXEL * self.width * j
    }

    /// Whether the image holds the three bytes of the pixel under `u` and
    /// `v`.
    pub open spec fn covers(&self, u: i32, v: i32) -> bool {
        self.width > 0 && self.height > 0 && self.offset(u, v) + 2 < self.data@.len()
    }
}

impl Texture for ImageTexture {
    /// The color of the pixel under `u` and `v`; black where the image
    /// does not hold that pixel, as for an image without bytes.
    open spec fn color(&self, u: i32, v: i32, p: Vec3) -> Vec3 {
        if self.covers(u, v) {
            Vec3 {
                x: channel_of(self.data@[self.offset(u, v)]),
                y: channel_of(self.data@[self.offset(u, v) + 1]),
                z: channel_of(self.data@[self.offset(u, v) + 2]),
            }
        } else {
            Vec3::zero()
        }
    }

    fn value(&self, u: i32, v: i32, _p: Vec3) -> (c: Vec3) {
        if self.data.len() == 0 || self.width == 0 || self.height == 0 {
            return Vec3::new(0, 0, 0);
        }
        let s = clamp_unit(u);
        let t = 65536 - clamp_unit(v);

        let i = pixel_index(s, self.width);
        let j = pixel_index(t, self.height);

        let len = self.data.len() as u128;
        proof {
            assert(0 <= self.width * j < 0x1_0000_0000_0000_0000 * 0x1_0000_0000_0000_0000)
                by (nonlinear_arith)
                requires
                    0 <= self.width < 0x1_0000_0000_0000_0000,
                    0 <= j < 0x1_0000_0000_0000_0000,
            ;
            assert(0x1_0000_0000_0000_0000 * 0x1_0000_0000_0000_0000
                == 0x1_0000_0000_0000_0000_0000_0000_0000_0000int) by (nonlinear_arith);
            assert(self.offset(u, v) == 3 * i + 3 * (self.width * j)) by (nonlinear_arith)
                requires
                    self.offset(u, v) == 3 * i + 3 * self.width * j,
            ;
        }
        let rows: u128 = (self.width as u128) * (j as u128);
        if rows >= len {
            return Vec3::new(0, 0, 0);
        }
        let pixel: u128 = 3 * (i as u128) + 3 * rows;
        if pixel + 2 >= len {
            return Vec3::new(0, 0, 0);
        }
        let pixel = pixel as usize;

        let r = channel(self.data[pixel]);
        let g = channel(self.data[pixel + 1]);
        let b = channel(self.data[pixel + 2]);

        Vec3::new(r, g, b)
    }
}

} // verus!
