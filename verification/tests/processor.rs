use pixel_palette_colorizer::color_space::{ColorSpace, RgbSpace};
use pixel_palette_colorizer::processor::{nearest, remap_pixel, remap_pixels};

#[test]
fn transparent_pixels_are_not_remapped() {
    let mut img = vec![[100u8, 150, 200, 0]];
    let palette = vec![[255u8, 0, 0, 255]];
    let stats = remap_pixels(&mut img, &palette, &RgbSpace);
    assert_eq!(stats.pixels_changed, 0);
    assert_eq!(img[0], [100, 150, 200, 0]);
}

#[test]
fn nearest_color_replaces_pixel() {
    let mut img = vec![[100u8, 150, 200, 255]];
    let palette = vec![[255u8, 0, 0, 255], [0u8, 0, 255, 255]];
    let stats = remap_pixels(&mut img, &palette, &RgbSpace);
    assert_eq!(stats.pixels_changed, 1);
    assert_eq!(img[0], [0, 0, 255, 255]);
}

#[test]
fn alpha_is_preserved_after_remap() {
    let mut img = vec![[200u8, 200, 200, 128]];
    let palette = vec![[0u8, 0, 0, 255]];
    let stats = remap_pixels(&mut img, &palette, &RgbSpace);
    assert_eq!(img[0][3], 128);
    assert_eq!(stats.pixels_changed, 1);
}

#[test]
fn identical_pixel_is_not_counted_as_changed() {
    let mut img = vec![[255u8, 0, 0, 255]];
    let palette = vec![[255u8, 0, 0, 255]];
    let stats = remap_pixels(&mut img, &palette, &RgbSpace);
    assert_eq!(stats.pixels_changed, 0);
}

#[test]
fn rgb_squared_distance_values() {
    assert_eq!(RgbSpace::squared_distance(&[255, 255, 255, 255], &[0, 0, 0, 255]), 195075);
    assert_eq!(RgbSpace::squared_distance(&[1, 2, 3, 0], &[4, 6, 3, 200]), 25);
    assert_eq!(RgbSpace.distance_key(&[10, 20, 30, 40], &[10, 20, 30, 0]), Some(0));
}

#[test]
fn nearest_takes_first_of_equal_keys_and_skips_none() {
    assert_eq!(nearest(&[None, Some(5), Some(3), Some(3)]), Some(2));
    assert_eq!(nearest(&[None, None]), None);
    assert_eq!(nearest(&[]), None);
    assert_eq!(nearest(&[Some(u64::MAX), Some(7)]), Some(1));
}

#[test]
fn remap_pixel_keeps_pixel_when_no_key_is_finite() {
    let palette = [[1u8, 2, 3, 4], [5, 6, 7, 8]];
    assert_eq!(remap_pixel(&[9, 9, 9, 200], &palette, &[None, None]), [9, 9, 9, 200]);
    assert_eq!(remap_pixel(&[9, 9, 9, 200], &palette, &[Some(4), Some(1)]), [5, 6, 7, 200]);
    assert_eq!(remap_pixel(&[9, 9, 9, 0], &palette, &[Some(4), Some(1)]), [9, 9, 9, 0]);
}

#[test]
fn remap_counts_only_changed_pixels_over_a_buffer() {
    let mut img = vec![
        [250u8, 10, 10, 255],
        [0, 0, 250, 90],
        [255, 0, 0, 255],
        [1, 2, 3, 0],
        [0, 0, 255, 255],
    ];
    let palette = vec![[255u8, 0, 0, 7], [0u8, 0, 255, 255]];
    let stats = remap_pixels(&mut img, &palette, &RgbSpace);
    assert_eq!(
        img,
        vec![[255u8, 0, 0, 255], [0, 0, 255, 90], [255, 0, 0, 255], [1, 2, 3, 0], [0, 0, 255, 255]]
    );
    assert_eq!(stats.pixels_changed, 2);
}

#[test]
fn remapping_twice_changes_nothing_more() {
    let mut img = vec![[12u8, 200, 77, 255], [90, 90, 90, 3], [0, 0, 0, 0]];
    let palette = vec![[0u8, 0, 0, 255], [128, 128, 128, 255], [0, 255, 0, 255]];
    remap_pixels(&mut img, &palette, &RgbSpace);
    let once = img.clone();
    let stats = remap_pixels(&mut img, &palette, &RgbSpace);
    assert_eq!(stats.pixels_changed, 0);
    assert_eq!(img, once);
}

struct ReverseSpace;

impl ColorSpace for ReverseSpace {
    fn key_of(&self, p1: [u8; 4], p2: [u8; 4]) -> Option<u64> {
        self.distance_key(&p1, &p2)
    }

    fn distance_key(&self, _p1: &[u8; 4], p2: &[u8; 4]) -> Option<u64> {
        if p2[0] == 0 {
            None
        } else {
            Some(255 - p2[0] as u64)
        }
    }
}

#[test]
fn remap_follows_the_keys_of_the_colour_space() {
    let mut img = vec![[10u8, 10, 10, 255], [0, 0, 0, 0]];
    let palette = vec![[0u8, 0, 0, 255], [100, 1, 1, 255], [200, 2, 2, 255], [200, 3, 3, 255]];
    let stats = remap_pixels(&mut img, &palette, &ReverseSpace);
    assert_eq!(img, vec![[200u8, 2, 2, 255], [0, 0, 0, 0]]);
    assert_eq!(stats.pixels_changed, 1);
}
