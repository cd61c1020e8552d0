//! Textures: the color of a surface at a point.

use vstd::prelude::*;

use crate::perlin::{is_permutation, Perlin, POINT_COUNT};
use crate::vec3::{floor_div, lemma_quotient_between, Vec3, ONE};

pub mod image;

verus! {

/// A color for every point of a surface.
///
/// [`Texture::color`] names what [`Texture::value`] returns, which is a
/// function of its arguments.
pub trait Texture {
    /// The color that [`Texture::value`] reports.
    spec fn color(&self, u: i32, v: i32, p: Vec3) -> Vec3;

    /// The color at the surface coordinates `u`, `v` and the point `p`.
    fn value(&self, u: i32, v: i32, p: Vec3) -> (c: Vec3)
        ensures
            c == self.color(u, v, p),
    ;
}

/// The same color everywhere.
pub struct SolidColor {
    pub color_value: Vec3,
}

impl SolidColor {
    /// The texture of the color with the given channels.
    pub fn new(red: i32, green: i32, blue: i32) -> (solid: Self)
        ensures
            solid.color_value == (Vec3 { x: red, y: green, z: blue }),
    {
        Self { color_value: Vec3::new(red, green, blue) }
    }
}

impl Texture for SolidColor {
    open spec fn color(&self, u: i32, v: i32, p: Vec3) -> Vec3 {
        self.color_value
    }

    fn value(&self, _u: i32, _v: i32, _p: Vec3) -> (c: Vec3) {
        self.color_value
    }
}

/// Half a turn in ticks: pi, rounded down.
pub const PI: i64 = 205887;

/// The sign of the sine of an angle of `angle` ticks: nothing at a whole
/// number of half turns, positive in every even half turn and negative in
/// every odd one.
pub open spec fn sine_sign(angle: int) -> int {
    if angle % (PI as int) == 0 {
        0
    } else if (angle / (PI as int)) % 2 == 0 {
        1
    } else {
        -1
    }
}

/// Whether the product of the sines of `frequency` times each coordinate of
/// `p` is negative: the point lies in an odd cell of the checkerboard.
pub open spec fn in_odd_cell(p: Vec3, frequency: int) -> bool {
    sine_sign(frequency * p.x) * sine_sign(frequency * p.y) * sine_sign(frequency * p.z) < 0
}

/// The sign of the sine of `frequency` times `c`.
fn sign_of_sine(c: i32, frequency: i64) -> (sign: i8)
    requires
        0 < frequency <= 1000,
    ensures
        sign == sine_sign(frequency * c),
{
    assert(-0x8000_0000 * 1000 <= frequency * c <= 0x8000_0000 * 1000) by (nonlinear_arith)
        requires
            0 < frequency <= 1000,
            -0x8000_0000 <= c <= 0x8000_0000,
    ;
    let angle: i128 = (frequency as i128) * (c as i128);
    let half_turns = floor_div(angle, 205887);
    let turns = floor_div(half_turns, 2);
    proof {
        lemma_quotient_between(angle as int, 205887, -0x100_0000_0000, 0x100_0000_0000);
        lemma_quotient_between(half_turns as int, 2, -0x100_0000_0000, 0x100_0000_0000);
        vstd::arithmetic::div_mod::lemma_fundamental_div_mod(angle as int, 205887);
        vstd::arithmetic::div_mod::lemma_fundamental_div_mod(half_turns as int, 2);
    }
    if angle - half_turns * 205887 == 0 {
        0
    } else if turns * 2 == half_turns {
        1
    } else {
        -1
    }
}

/// Whether `p` lies in an odd cell of the checkerboard of the given
/// frequency.
fn odd_cell(p: Vec3, frequency: i64) -> (odd: bool)
    requires
        0 < frequency <= 1000,
    ensures
        odd == in_odd_cell(p, frequency as int),
{
    let sx = sign_of_sine(p.x, frequency);
    let sy = sign_of_sine(p.y, frequency);
    let sz = sign_of_sine(p.z, frequency);
    assert(sx * sy * sz < 0 <==> (sx != 0 && sy != 0 && sz != 0 && ((sx < 0) != (sy < 0)) != (sz
        < 0))) by (nonlinear_arith)
        requires
            -1 <= sx <= 1,
            -1 <= sy <= 1,
            -1 <= sz <= 1,
    ;
    sx != 0 && sy != 0 && sz != 0 && ((sx < 0) != (sy < 0)) != (sz < 0)
}

/// A checkerboard in space with cells a tenth of a half turn wide, of two
/// textures.
pub struct CheckerTexture<O, E> {
    odd: O,
    even: E,
}

impl CheckerTexture<SolidColor, SolidColor> {
    /// The checkerboard of the color `c1` on the even cells and `c2` on the
    /// odd ones.
    pub fn new_from_colors(c1: Vec3, c2: Vec3) -> (checker: Self)
        ensures
            checker.tiles() == (
                SolidColor { color_value: c2 },
                SolidColor { color_value: c1 },
            ),
    {
        Self { even: SolidColor::new(c1.x, c1.y, c1.z), odd: SolidColor::new(c2.x, c2.y, c2.z) }
    }
}

impl<O, E> CheckerTexture<O, E> {
    /// The textures of the odd and of the even cells.
    pub closed spec fn tiles(self) -> (O, E) {
        (self.odd, self.even)
    }
}

impl<O: Texture, E: Texture> Texture for CheckerTexture<O, E> {
    open spec fn color(&self, u: i32, v: i32, p: Vec3) -> Vec3 {
        if in_odd_cell(p, 10) {
            self.tiles().0.color(u, v, p)
        } else {
            self.tiles().1.color(u, v, p)
        }
    }

    fn value(&self, u: i32, v: i32, p: Vec3) -> (c: Vec3) {
        if odd_cell(p, 10) {
            self.odd.value(u, v, p)
        } else {
            self.even.value(u, v, p)
        }
    }
}

/// A checkerboard in space with cells a hundredth of a half turn wide, of
/// two textures.
pub struct TightCheckerTexture<O, E> {
    odd: O,
    even: E,
}

impl TightCheckerTexture<SolidColor, SolidColor> {
    /// The checkerboard of the color `c1` on the even cells and `c2` on the
    /// odd ones.
    pub fn new_from_colors(c1: Vec3, c2: Vec3) -> (checker: Self)
        ensures
            checker.tiles() == (
                SolidColor { color_value: c2 },
                SolidColor { color_value: c1 },
            ),
    {
        Self { even: SolidColor::new(c1.x, c1.y, c1.z), odd: SolidColor::new(c2.x, c2.y, c2.z) }
    }
}

impl<O, E> TightCheckerTexture<O, E> {
    /// The textures of the odd and of the even cells.
    pub closed spec fn tiles(self) -> (O, E) {
        (self.odd, self.even)
    }
}

impl<O: Texture, E: Texture> Texture for TightCheckerTexture<O, E> {
    open spec fn color(&self, u: i32, v: i32, p: Vec3) -> Vec3 {
        if in_odd_cell(p, 100) {
            self.tiles().0.color(u, v, p)
        } else {
            self.tiles().1.color(u, v, p)
        }
    }

    fn value(&self, u: i32, v: i32, p: Vec3) -> (c: Vec3) {
        if odd_cell(p, 100) {
            self.odd.value(u, v, p)
        } else {
            self.even.value(u, v, p)
        }
    }
}

/// Grey noise: at every point the value of a random lattice, on all three
/// channels.
pub struct NoiseTexture {
    noise: Perlin,
}

impl NoiseTexture {
    /// The lattice behind the texture.
    pub closed spec fn lattice(self) -> Perlin {
        self.noise
    }

    /// A noise texture over a fresh random lattice: 256 values of at least
    /// nothing and less than one, behind a permutation for each axis.
    pub fn new() -> (noise: Self)
        ensures
            noise.lattice().values().len() == POINT_COUNT,
            forall|k: int|
                0 <= k < POINT_COUNT ==> 0 <= #[trigger] noise.lattice().values()[k] < ONE,
            is_permutation(noise.lattice().permutations().0),
            is_permutation(noise.lattice().permutations().1),
            is_permutation(noise.lattice().permutations().2),
    {
        Self { noise: Perlin::new() }
    }
}

impl Texture for NoiseTexture {
    open spec fn color(&self, u: i32, v: i32, p: Vec3) -> Vec3 {
        let n = self.lattice().noise_at(p);
        Vec3 { x: n, y: n, z: n }
    }

    fn value(&self, _u: i32, _v: i32, p: Vec3) -> (c: Vec3) {
        let n = self.noise.noise(p);
        Vec3::new(n, n, n)
    }
}

} // verus!
