use pathtracer::perlin::Perlin;
use pathtracer::texture::image::ImageTexture;
use pathtracer::texture::{
    CheckerTexture, NoiseTexture, SolidColor, Texture, TightCheckerTexture,
};
use pathtracer::vec3::{Vec3, ONE};

fn two_by_two() -> ImageTexture {
    ImageTexture::new(vec![10, 20, 30, 40, 50, 60, 70, 80, 90, 100, 110, 120], 2, 2)
}

#[test]
fn a_solid_color_is_the_same_everywhere() {
    let solid = SolidColor::new(1, 2, 3);
    assert_eq!(solid.color_value, Vec3::new(1, 2, 3));
    assert_eq!(solid.value(0, 0, Vec3::new(0, 0, 0)), Vec3::new(1, 2, 3));
    assert_eq!(solid.value(ONE, -7, Vec3::new(9, 9, 9)), Vec3::new(1, 2, 3));
}

#[test]
fn the_checkerboard_changes_with_the_sign_of_the_sines() {
    let even = Vec3::new(1, 1, 1);
    let odd = Vec3::new(2, 2, 2);
    let checker = CheckerTexture::new_from_colors(even, odd);
    assert_eq!(checker.value(0, 0, Vec3::new(6553, 6553, 6553)), even);
    assert_eq!(checker.value(0, 0, Vec3::new(26214, 6553, 6553)), odd);
    assert_eq!(checker.value(0, 0, Vec3::new(26214, 26214, 6553)), even);
    assert_eq!(checker.value(0, 0, Vec3::new(26214, 26214, 26214)), odd);
    assert_eq!(checker.value(0, 0, Vec3::new(-6553, 6553, 6553)), odd);
    // Where a sine is nothing the product is not negative.
    assert_eq!(checker.value(0, 0, Vec3::new(0, 26214, 6553)), even);
}

#[test]
fn the_tight_checkerboard_has_ten_cells_for_one() {
    let even = Vec3::new(1, 1, 1);
    let odd = Vec3::new(2, 2, 2);
    let checker = TightCheckerTexture::new_from_colors(even, odd);
    assert_eq!(checker.value(0, 0, Vec3::new(26214, 26214, 26214)), even);
    assert_eq!(checker.value(0, 0, Vec3::new(6553, 26214, 26214)), odd);
    assert_eq!(checker.value(0, 0, Vec3::new(6553, 6553, 6553)), odd);
    assert_eq!(checker.value(0, 0, Vec3::new(-6553, 26214, 26214)), even);
}

#[test]
fn the_pixel_under_a_surface_coordinate() {
    let image = two_by_two();
    let p = Vec3::new(0, 0, 0);
    // The second coordinate runs upwards, the rows of the image downwards.
    assert_eq!(image.value(0, ONE, p), Vec3::new(2570, 5140, 7710));
    assert_eq!(image.value(ONE, 0, p), Vec3::new(25700, 28270, 30840));
    assert_eq!(image.value(ONE / 2, ONE / 2, p), Vec3::new(25700, 28270, 30840));
    assert_eq!(image.value(ONE / 2 - 1, ONE / 2 + 1, p), Vec3::new(2570, 5140, 7710));
    assert_eq!(image.value(ONE / 2, ONE, p), Vec3::new(40 * 65536 / 255, 50 * 65536 / 255, 60 * 65536 / 255));
    assert_eq!(image.value(0, 0, p), Vec3::new(70 * 65536 / 255, 80 * 65536 / 255, 90 * 65536 / 255));
}

#[test]
fn surface_coordinates_are_kept_between_nothing_and_one() {
    let image = two_by_two();
    let p = Vec3::new(0, 0, 0);
    assert_eq!(image.value(-5, 2 * ONE, p), image.value(0, ONE, p));
    assert_eq!(image.value(i32::MAX, i32::MIN, p), image.value(ONE, 0, p));
}

#[test]
fn an_image_without_the_pixel_is_black_there() {
    let p = Vec3::new(0, 0, 0);
    let black = Vec3::new(0, 0, 0);
    assert_eq!(ImageTexture::new(Vec::new(), 2, 2).value(0, 0, p), black);
    assert_eq!(ImageTexture::new(vec![1, 2, 3], 0, 1).value(0, 0, p), black);
    assert_eq!(ImageTexture::new(vec![1, 2, 3], 1, 0).value(0, 0, p), black);
    let short = ImageTexture::new(vec![255, 255, 255, 255, 255], 2, 1);
    assert_eq!(short.value(0, 0, p), Vec3::new(ONE, ONE, ONE));
    assert_eq!(short.value(ONE, 0, p), black);
    let huge = ImageTexture::new(vec![9, 9, 9], usize::MAX, usize::MAX);
    assert_eq!(huge.value(ONE, 0, p), black);
}

#[test]
fn the_image_keeps_what_it_was_given() {
    let image = two_by_two();
    assert_eq!(image.width, 2);
    assert_eq!(image.height, 2);
    assert_eq!(image.data.len(), 12);
}

#[test]
fn the_lattice_gives_a_part_of_one_for_every_point() {
    let perlin = Perlin::new();
    let mut seen = std::collections::HashSet::new();
    for x in -70..70 {
        for y in [-3, 0, 5] {
            let p = Vec3::new(x * 16384 + 5, y * 16384 + 7, x * 125);
            let n = perlin.noise(p);
            assert!(0 <= n && n < ONE);
            seen.insert(n);
        }
    }
    // The values are drawn at random, not all alike.
    assert!(seen.len() > 50);
}

#[test]
fn the_lattice_has_four_cells_to_the_unit_and_repeats_after_256() {
    let perlin = Perlin::new();
    let p = Vec3::new(100, 20000, 40000);
    assert_eq!(perlin.noise(p), perlin.noise(p));
    assert_eq!(perlin.noise(p), perlin.noise(Vec3::new(16383, 16384, 49151)));
    assert_eq!(perlin.noise(p), perlin.noise(Vec3::new(100 + 64 * ONE, 20000 + 128 * ONE, 40000)));
    // Cells are rounded towards nothing, so the cell around nothing is twice as wide.
    assert_eq!(perlin.noise(Vec3::new(-16383, 0, 0)), perlin.noise(Vec3::new(16383, 0, 0)));
}

#[test]
fn noise_is_grey() {
    let noise = NoiseTexture::new();
    for k in 0..100 {
        let c = noise.value(0, 0, Vec3::new(k * 9973, k * 7919, -k * 104729));
        assert!(c.x == c.y && c.y == c.z);
        assert!(0 <= c.x && c.x < ONE);
    }
}
