use seam_carving::image::{Pixel, PpmFile};
use seam_carving::resize::{importance, resize_width};
use seam_carving::seam::ResizeError;

fn gray(v: u8) -> Pixel {
    Pixel { r: v, g: v, b: v }
}

fn image_of(width: usize, height: usize, values: &[u8]) -> PpmFile {
    let pixels: Vec<Pixel> = values.iter().map(|v| gray(*v)).collect();
    PpmFile::new(width, height, pixels).expect("buffer matches the dimensions")
}

fn levels(image: &PpmFile) -> Vec<Vec<u32>> {
    let edges = importance(image);
    (0..image.height)
        .map(|y| (0..image.width).map(|x| edges.intensity(x, y)).collect())
        .collect()
}

#[test]
fn uniform_gray_image_loses_one_column() {
    let mut image = image_of(3, 3, &[128; 9]);
    assert_eq!(resize_width(&mut image, 1), Ok(()));
    assert_eq!(image.width, 2);
    assert_eq!(image.height, 3);
    assert_eq!(image.max_val, 255);
    assert_eq!(image.pixels, vec![gray(128); 6]);
}

#[test]
fn bright_centre_importance_is_exact() {
    let image = image_of(3, 3, &[0, 0, 0, 0, 255, 0, 0, 0, 0]);
    assert_eq!(
        levels(&image),
        vec![vec![180, 143, 128], vec![191, 128, 191], vec![180, 143, 128]]
    );
}

#[test]
fn bright_centre_seam_follows_least_cost() {
    let mut image = image_of(3, 3, &[0, 0, 0, 0, 255, 0, 0, 0, 0]);
    assert_eq!(resize_width(&mut image, 1), Ok(()));
    assert_eq!(image.width, 2);
    assert_eq!(image.height, 3);
    // The costs of the bottom row are 436, 399 and 384: the seam ends in the
    // last column, passes the centre and starts in the last column.
    assert_eq!(image.pixels, vec![gray(0); 6]);
}

#[test]
fn zero_columns_keeps_every_pixel() {
    let values = [3, 1, 4, 1, 5, 9, 2, 6, 5, 3, 5, 8];
    let mut image = image_of(4, 3, &values);
    assert_eq!(resize_width(&mut image, 0), Ok(()));
    assert_eq!(image.width, 4);
    assert_eq!(image.height, 3);
    assert_eq!(image.pixels, values.iter().map(|v| gray(*v)).collect::<Vec<_>>());
}

#[test]
fn width_shrinks_by_the_number_of_columns() {
    for k in 0..5 {
        let values: Vec<u8> = (0..35).map(|i| (i * 37 % 251) as u8).collect();
        let mut image = image_of(5, 7, &values);
        assert_eq!(resize_width(&mut image, k), Ok(()));
        assert_eq!(image.width, 5 - k);
        assert_eq!(image.height, 7);
        assert_eq!(image.pixels.len(), (5 - k) * 7);
        assert!(image.is_well_formed());
    }
}

#[test]
fn removing_every_column_is_refused() {
    let mut image = image_of(3, 2, &[1, 2, 3, 4, 5, 6]);
    let before = image.clone();
    assert_eq!(resize_width(&mut image, 3), Err(ResizeError::InvalidRequest));
    assert_eq!(image.width, before.width);
    assert_eq!(image.pixels, before.pixels);
    assert_eq!(resize_width(&mut image, 4), Err(ResizeError::InvalidRequest));
    assert_eq!(image.pixels, before.pixels);
}

#[test]
fn image_without_columns_or_rows_is_degenerate() {
    let mut no_columns = image_of(0, 3, &[]);
    assert_eq!(resize_width(&mut no_columns, 0), Err(ResizeError::DegenerateGrid));
    let mut no_rows = image_of(3, 0, &[]);
    assert_eq!(resize_width(&mut no_rows, 1), Err(ResizeError::DegenerateGrid));
    let mut nothing = image_of(0, 0, &[]);
    assert_eq!(resize_width(&mut nothing, 5), Err(ResizeError::DegenerateGrid));
}

#[test]
fn single_column_image_keeps_its_column() {
    let mut image = image_of(1, 3, &[7, 8, 9]);
    assert_eq!(resize_width(&mut image, 0), Ok(()));
    assert_eq!(image.pixels, vec![gray(7), gray(8), gray(9)]);
    assert_eq!(resize_width(&mut image, 1), Err(ResizeError::InvalidRequest));
}

#[test]
fn surviving_pixels_keep_their_order_in_each_row() {
    let values: Vec<u8> = (0..30).map(|i| i as u8).collect();
    let mut image = image_of(6, 5, &values);
    assert_eq!(resize_width(&mut image, 2), Ok(()));
    for y in 0..5 {
        let row: Vec<u8> = (0..4).map(|x| image.pixels[y * 4 + x].r).collect();
        assert!(row.windows(2).all(|w| w[0] < w[1]));
        assert!(row.iter().all(|v| (*v as usize) / 6 == y));
    }
}

#[test]
fn colour_is_kept_and_not_replaced_by_luminance() {
    let pixels = vec![
        Pixel { r: 10, g: 20, b: 30 },
        Pixel { r: 40, g: 50, b: 60 },
        Pixel { r: 70, g: 80, b: 90 },
        Pixel { r: 100, g: 110, b: 120 },
    ];
    let mut image = PpmFile::new(2, 2, pixels.clone()).unwrap();
    assert_eq!(resize_width(&mut image, 1), Ok(()));
    assert_eq!(image.pixels.len(), 2);
    assert!(pixels[0..2].contains(&image.pixels[0]));
    assert!(pixels[2..4].contains(&image.pixels[1]));
}
