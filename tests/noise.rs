use ennead_protocol::color::Color;
use ennead_protocol::image::RgbImage;
use ennead_protocol::noise::{blue_noise, nearest};

#[test]
fn nearest_palette_colour() {
    assert_eq!(nearest([255, 255, 255]), Color::White);
    assert_eq!(nearest([3, 1, 2]), Color::Black);
    assert_eq!(nearest([250, 120, 10]), Color::Orange);
    assert_eq!(nearest([128, 128, 128]), Color::Orange);
    assert_eq!(nearest([10, 200, 30]), Color::Green);
}

#[test]
fn nearest_prefers_first_on_tie() {
    // Red and Orange are both 64 away.
    assert_eq!(nearest([255, 64, 0]), Color::Red);
}

#[test]
fn blue_noise_only_where_texture_covers() {
    let mut image = RgbImage {
        width: 2,
        height: 2,
        pixels: vec![[250, 250, 250], [10, 10, 10], [0, 0, 250], [1, 2, 3]],
    };
    let noise = RgbImage { width: 1, height: 1, pixels: vec![[128, 128, 128]] };
    blue_noise(&mut image, &noise);
    assert_eq!(
        image.pixels,
        vec![[255, 255, 255], [10, 10, 10], [0, 0, 250], [1, 2, 3]]
    );
}

#[test]
fn blue_noise_shifts_then_quantizes() {
    let mut image = RgbImage {
        width: 2,
        height: 1,
        pixels: vec![[10, 10, 10], [0, 0, 200]],
    };
    let noise = RgbImage { width: 3, height: 2, pixels: vec![[0, 0, 0]; 6] };
    blue_noise(&mut image, &noise);
    // 10 + 128 = 138 in each channel is nearest to Orange; 200 + 128 clamps to 255, and
    // [128, 128, 255] is nearest to White.
    assert_eq!(image.pixels, vec![Color::Orange.rgb(), Color::White.rgb()]);
}
