use seam_carving::filter::{
    apply_gaussian_blur, apply_grayscale, apply_sobel, quantize, Plane, LUMINANCE_UNIT,
};
use seam_carving::image::{Pixel, PpmFile};
use seam_carving::resize::{importance, IMPORTANCE_UNIT};
use seam_carving::seam::{EnergyGrid, ResizeError};

fn plane(unit: u64, rows: Vec<Vec<i64>>) -> Plane {
    Plane { width: rows.first().map_or(0, |r| r.len()), height: rows.len(), unit, rows }
}

#[test]
fn luminance_uses_the_three_weights() {
    let pixels = vec![
        Pixel { r: 255, g: 0, b: 0 },
        Pixel { r: 0, g: 255, b: 0 },
        Pixel { r: 0, g: 0, b: 255 },
        Pixel { r: 10, g: 20, b: 30 },
    ];
    let image = PpmFile::new(2, 2, pixels).unwrap();
    let gray = apply_grayscale(&image);
    assert_eq!(gray.unit, 2_550_000);
    assert_eq!(gray.unit, LUMINANCE_UNIT);
    assert_eq!(gray.rows, vec![vec![550_800, 1_816_875], vec![184_110, 185_760]]);
}

#[test]
fn white_is_brighter_than_full_intensity() {
    let image = PpmFile::new(1, 1, vec![Pixel { r: 255, g: 255, b: 255 }]).unwrap();
    let gray = apply_grayscale(&image);
    assert_eq!(gray.rows, vec![vec![2_551_785]]);
    assert!(gray.rows[0][0] as u64 > gray.unit);
}

#[test]
fn blur_weights_each_neighbour() {
    let input = plane(1, vec![vec![1, 10, 100], vec![1_000, 10_000, 100_000], vec![1_000_000, 10_000_000, 100_000_000]]);
    let blurred = apply_gaussian_blur(&input);
    assert_eq!(blurred.unit, 16);
    // centre: 1 + 20 + 100 - 2000 + 40000 + 200000 + 1000000 + 20000000 + 100000000
    assert_eq!(blurred.rows[1][1], 121_238_121);
    // top left corner: 4 * 1 + 2 * 10 + 2 * 1000 + 10000
    assert_eq!(blurred.rows[0][0], 12_024);
    // top right corner: -2 * 10 + 4 * 100 + 10000 + 2 * 100000
    assert_eq!(blurred.rows[0][2], 210_380);
}

#[test]
fn blur_of_a_flat_plane_is_dimmer_at_the_border() {
    let input = plane(1, vec![vec![16; 3]; 3]);
    let blurred = apply_gaussian_blur(&input);
    assert_eq!(
        blurred.rows,
        vec![vec![144, 128, 80], vec![192, 192, 128], vec![144, 128, 80]]
    );
}

#[test]
fn blur_reads_the_input_only() {
    let input = plane(1, vec![vec![0, 0, 0, 0], vec![0, 16, 0, 0]]);
    let blurred = apply_gaussian_blur(&input);
    assert_eq!(blurred.rows, vec![vec![16, 32, 16, 0], vec![32, 64, -32, 0]]);
    assert_eq!(input.rows[1][1], 16);
}

#[test]
fn sobel_squares_the_two_gradients() {
    let input = plane(1_000, vec![vec![1, 2, 3], vec![4, 5, 6], vec![7, 8, 10]]);
    let edges = apply_sobel(&input);
    assert_eq!(edges.unit, 1_000);
    // gx = (3 - 1) + 2 * (6 - 4) + (10 - 7) = 9, gy = (1 + 4 + 3) - (7 + 16 + 10) = -25
    assert_eq!(edges.rows[1][1], 81 + 625);
    // corner: gx = 2 * 2 + 5 = 9, gy = -(2 * 4 + 5) = -13
    assert_eq!(edges.rows[0][0], 81 + 169);
}

#[test]
fn sobel_limits_the_magnitude_to_full_intensity() {
    let input = plane(10, vec![vec![0, 0, 100], vec![0, 0, 100], vec![0, 0, 100]]);
    let edges = apply_sobel(&input);
    assert_eq!(edges.rows[1][1], 100);
    assert_eq!(edges.intensity(1, 1), 255);
}

#[test]
fn flat_plane_has_no_edge_inside() {
    let input = plane(100, vec![vec![7; 4]; 4]);
    let edges = apply_sobel(&input);
    for y in 1..3 {
        for x in 1..3 {
            assert_eq!(edges.rows[y][x], 0);
            assert_eq!(edges.intensity(x, y), 0);
        }
    }
    assert_ne!(edges.rows[0][0], 0);
}

#[test]
fn black_image_stays_black_under_every_filter() {
    let image = PpmFile::new(3, 2, vec![Pixel { r: 0, g: 0, b: 0 }; 6]).unwrap();
    let gray = apply_grayscale(&image);
    assert_eq!(gray.rows, vec![vec![0; 3]; 2]);
    let blurred = apply_gaussian_blur(&gray);
    assert_eq!(blurred.rows, vec![vec![0; 3]; 2]);
    let edges = apply_sobel(&blurred);
    assert_eq!(edges.rows, vec![vec![0; 3]; 2]);
}

#[test]
fn quantize_rounds_to_the_nearest_level() {
    assert_eq!(quantize(0, 510), 0);
    // 255 * sqrt(s) / 510 = sqrt(s) / 2
    assert_eq!(quantize(1, 510), 1); // 0.5 rounds up
    assert_eq!(quantize(4, 510), 1); // 1.0
    assert_eq!(quantize(8, 510), 1); // 1.41
    assert_eq!(quantize(9, 510), 2); // 1.5 rounds up
    assert_eq!(quantize(16, 510), 2);
    assert_eq!(quantize(100, 510), 5);
    assert_eq!(quantize(510 * 510, 510), 255);
    assert_eq!(quantize(509 * 509, 510), 255); // 254.5 rounds up
    assert_eq!(quantize(508 * 508, 510), 254);
    assert_eq!(quantize(u64::MAX, 510), 255);
    assert_eq!(quantize(u64::MAX, 0xffff_ffff), 255);
    assert_eq!(quantize(0, 0xffff_ffff), 0);
}

#[test]
fn importance_chains_the_three_filters() {
    let image = PpmFile::new(3, 3, vec![Pixel { r: 128, g: 128, b: 128 }; 9]).unwrap();
    let edges = importance(&image);
    assert_eq!(edges.unit, IMPORTANCE_UNIT);
    assert_eq!(edges.unit, 40_800_000);
    assert_eq!((edges.width, edges.height), (3, 3));
    let gray = apply_grayscale(&image);
    let expected = apply_sobel(&apply_gaussian_blur(&gray));
    assert_eq!(edges.rows, expected.rows);
    // The blurred plane is flat nowhere near the border, so the centre sees
    // the dim right column: gx = (8 + 2 * 8 + 5 - 9 - 2 * 12 - 9) g, gy = 0.
    let g: i64 = 128 * 10_007;
    let gx: i64 = (5 + 16 + 5 - 9 - 24 - 9) * g;
    assert_eq!(edges.rows[1][1], (gx * gx) as u64);
}

#[test]
fn grid_takes_colour_from_the_image_and_importance_from_the_edges() {
    let pixels: Vec<Pixel> = (0..6).map(|i| Pixel { r: i, g: 10 + i, b: 20 + i }).collect();
    let image = PpmFile::new(3, 2, pixels.clone()).unwrap();
    let edges = importance(&image);
    let grid = EnergyGrid::new(&image, &edges).unwrap();
    assert_eq!((grid.width, grid.height), (3, 2));
    for y in 0..2 {
        for x in 0..3 {
            assert_eq!(grid.cells[y][x].rgb, pixels[y * 3 + x]);
            assert_eq!(grid.cells[y][x].intensity, edges.intensity(x, y));
        }
    }
    assert_eq!(grid.pixels(), pixels);
}

#[test]
fn grid_of_an_empty_image_is_degenerate() {
    let image = PpmFile::new(0, 4, vec![]).unwrap();
    let edges = importance(&image);
    assert!(matches!(EnergyGrid::new(&image, &edges), Err(ResizeError::DegenerateGrid)));
}
