//! The resize driver: importance once, then one cheapest seam per column.

use vstd::prelude::*;
use crate::filter::{
    apply_gaussian_blur, apply_grayscale, apply_sobel, blurred_plane, edge_plane, luminance_plane,
    EdgeMap,
};
use crate::image::{flat_index, lemma_rows_determine_pixels, Pixel, PpmFile};
use crate::seam::{carved, colors, grid_of, rectangular, CellModel, EnergyGrid, ResizeError};

verus! {

/// Unit of the edge map that the filters produce for an image: the luminance
/// unit times the sixteen of the smoothing kernel.
pub const IMPORTANCE_UNIT: u64 = 40_800_000;

/// The grid that a resize starts from: every pixel of the image with the
/// importance that luminance, smoothing and edge detection, in this order,
/// give it.
pub open spec fn initial_grid(image: Seq<Seq<Pixel>>) -> Seq<Seq<CellModel>> {
    grid_of(
        image,
        edge_plane(blurred_plane(luminance_plane(image)), IMPORTANCE_UNIT as int),
        IMPORTANCE_UNIT as int,
    )
}

/// Computes the edge map of an image: luminance, then smoothing, then edge
/// strength.
pub fn importance(image: &PpmFile) -> (edges: EdgeMap)
    requires
        image.wf(),
    ensures
        edges.wf(),
        edges.width == image.width,
        edges.height == image.height,
        edges.unit == IMPORTANCE_UNIT,
        edges@ == edge_plane(blurred_plane(luminance_plane(image.rows())), IMPORTANCE_UNIT as int),
{
    let gray = apply_grayscale(image);
    let blurred = apply_gaussian_blur(&gray);
    apply_sobel(&blurred)
}

/// Narrows an image by `columns` columns: `columns` times over, the cheapest
/// seam of the current grid is found and removed. The importance of a pixel is
/// computed once, before the first removal, and stays with the pixel.
///
/// An image without rows or columns is refused as degenerate; a request that
/// would leave no column is refused as invalid. A refused image is unchanged.
pub fn resize_width(image: &mut PpmFile, columns: usize) -> (res: Result<(), ResizeError>)
    requires
        old(image).wf(),
    ensures
        res matches Err(ResizeError::DegenerateGrid) <==> old(image).width == 0 || old(image).height == 0,
        res matches Err(ResizeError::InvalidRequest) <==> old(image).width > 0 && old(image).height > 0
            && columns >= old(image).width,
        res is Err ==> *final(image) == *old(image),
        res is Ok ==> {
            &&& final(image).wf()
            &&& final(image).width == old(image).width - columns
            &&& final(image).height == old(image).height
            &&& final(image).rows() == colors(carved(initial_grid(old(image).rows()), columns as nat))
        },
        res is Ok && columns == 0 ==> final(image).pixels@ == old(image).pixels@,
{
    if image.width == 0 || image.height == 0 {
        return Err(ResizeError::DegenerateGrid);
    }
    if columns >= image.width {
        return Err(ResizeError::InvalidRequest);
    }
    let edges = importance(image);
    let ghost start = initial_grid(image.rows());
    let mut grid = match EnergyGrid::new(image, &edges) {
        Ok(grid) => grid,
        Err(e) => {
            return Err(e);
        },
    };
    let mut removed: usize = 0;
    while removed < columns
        invariant
            grid.wf(),
            removed <= columns < old(image).width,
            grid.width == old(image).width - removed,
            grid.height == old(image).height,
            grid@ == carved(start, removed as nat),
        decreases columns - removed,
    {
        match grid.carve_seam() {
            Ok(()) => {},
            Err(e) => {
                return Err(e);
            },
        }
        removed += 1;
    }
    let pixels = grid.pixels();
    image.pixels = pixels;
    image.width = grid.width;
    proof {
        let target = colors(grid@);
        assert forall|y: int| 0 <= y < image.rows().len() implies #[trigger] image.rows()[y] =~= target[y] by {
            assert forall|x: int| 0 <= x < image.rows()[y].len() implies image.rows()[y][x] == target[y][x] by {
                assert(image.pixels[flat_index(x, y, grid.width as int)] == grid@[y][x].rgb);
            }
        }
        assert(image.rows() =~= target);
        if columns == 0 {
            lemma_colors_of_initial_grid(old(image).rows());
            lemma_rows_determine_pixels(*image, *old(image));
        }
    }
    Ok(())
}

/// The grid that a resize starts from holds the image's own colours.
pub proof fn lemma_colors_of_initial_grid(image: Seq<Seq<Pixel>>)
    ensures
        colors(initial_grid(image)) == image,
        initial_grid(image).len() == image.len(),
        forall|w: int| rectangular(image, w) ==> rectangular(initial_grid(image), w),
{
    let g = initial_grid(image);
    assert forall|y: int| 0 <= y < image.len() implies #[trigger] colors(g)[y] =~= image[y] by {}
    assert(colors(g) =~= image);
}

/// Removing no column leaves the picture as it is: the colours of the grid
/// after zero rounds are those of the image.
pub proof fn lemma_zero_columns_is_identity(image: Seq<Seq<Pixel>>)
    ensures
        colors(carved(initial_grid(image), 0)) == image,
{
    lemma_colors_of_initial_grid(image);
}

} // verus!
