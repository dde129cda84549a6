use rat_king::coverage::{count_pixels, PixelCounts};

const WHITE: [u8; 4] = [255, 255, 255, 255];
const BLACK: [u8; 4] = [0, 0, 0, 255];
const PALE: [u8; 4] = [250, 250, 250, 255];
const GREY_BLUE: [u8; 4] = [255, 255, 249, 255];

fn image(pixels: &[[u8; 4]]) -> Vec<u8> {
    pixels.iter().flat_map(|p| p.iter().copied()).collect()
}

#[test]
fn counts_inside_and_outside() {
    let solid = image(&[BLACK, BLACK, WHITE, WHITE]);
    let pattern = image(&[BLACK, WHITE, BLACK, WHITE]);
    assert_eq!(
        count_pixels(&solid, &pattern),
        PixelCounts { solid_fill: 2, pattern: 2, in_bounds: 1, out_of_bounds: 1 }
    );
}

#[test]
fn threshold_is_strict_and_alpha_ignored() {
    let solid = image(&[PALE, GREY_BLUE, [255, 255, 255, 0]]);
    let pattern = image(&[GREY_BLUE, PALE, WHITE]);
    assert_eq!(
        count_pixels(&solid, &pattern),
        PixelCounts { solid_fill: 1, pattern: 1, in_bounds: 0, out_of_bounds: 1 }
    );
}

#[test]
fn empty_images_count_nothing() {
    assert_eq!(
        count_pixels(&[], &[]),
        PixelCounts { solid_fill: 0, pattern: 0, in_bounds: 0, out_of_bounds: 0 }
    );
}
