//! The filters that turn colour into importance: luminance, smoothing and edge
//! strength.
//!
//! Filtered values are exact. A [`Plane`] holds integers together with the
//! integer `unit` that stands for full intensity, so a stored `v` means the
//! fraction `v / unit`. A filter that divides multiplies the unit instead, and
//! no rounding happens before the final reduction to 256 levels.

use vstd::prelude::*;
use crate::image::{Pixel, PpmFile};

verus! {

/// Unit of a luminance plane: 255 for the sample scale times 10 000 for the
/// four decimal places of the luminance weights.
pub const LUMINANCE_UNIT: u64 = 2_550_000;

/// Largest magnitude of a luminance value: all three samples at 255.
pub const LUMINANCE_LIMIT: i64 = 2_551_785;

/// Largest magnitude that [`apply_gaussian_blur`] accepts in its input, so that
/// sixteen times the value fits in 64 bits.
pub const BLUR_LIMIT: i64 = 0x07ff_ffff_ffff_ffff;

/// Largest unit that [`apply_gaussian_blur`] accepts in its input.
pub const BLUR_UNIT_LIMIT: u64 = 0x0fff_ffff_ffff_ffff;

/// Largest magnitude that [`apply_sobel`] accepts in its input, so that the
/// squared gradient fits in 64 bits.
pub const SOBEL_LIMIT: i64 = 0x1000_0000;

/// Largest unit that [`apply_sobel`] accepts, so that its square fits in 64 bits.
pub const SOBEL_UNIT_LIMIT: u64 = 0xffff_ffff;

/// A grid of exact scalar values: the stored integer `v` stands for `v / unit`.
#[derive(Debug)]
pub struct Plane {
    pub width: usize,
    pub height: usize,
    pub unit: u64,
    pub rows: Vec<Vec<i64>>,
}

impl View for Plane {
    type V = Seq<Seq<int>>;

    open spec fn view(&self) -> Seq<Seq<int>> {
        Seq::new(
            self.rows.len() as nat,
            |y: int| Seq::new(self.rows[y].len() as nat, |x: int| self.rows[y][x] as int),
        )
    }
}

impl Plane {
    /// The plane is a rectangle of `height` rows and `width` columns and its
    /// unit is positive.
    pub open spec fn wf(&self) -> bool {
        &&& self.unit >= 1
        &&& self.rows.len() == self.height
        &&& forall|y: int| 0 <= y < self.height ==> (#[trigger] self.rows[y]).len() == self.width
    }

    /// No value is larger in magnitude than `limit`.
    pub open spec fn within(&self, limit: int) -> bool {
        forall|x: int, y: int|
            0 <= y < self.rows.len() && 0 <= x < self.rows[y].len() ==> -limit <= #[trigger] self.rows[y][x]
                <= limit
    }
}

/// The value in column `x` of row `y`, or zero outside the plane: a neighbour
/// beyond the border adds nothing to a weighted sum.
pub open spec fn sample(p: Seq<Seq<int>>, x: int, y: int) -> int {
    if 0 <= y < p.len() && 0 <= x < p[y].len() {
        p[y][x]
    } else {
        0
    }
}

/// Luminance of a pixel over [`LUMINANCE_UNIT`]: `0.216 r + 0.7125 g + 0.0722 b`
/// of the samples as fractions of 255.
pub open spec fn luminance(p: Pixel) -> int {
    2160 * p.r + 7125 * p.g + 722 * p.b
}

/// Sixteen times the smoothed value at column `x` of row `y`: the centre
/// weighs 4, the neighbours above, below and to the right 2, the one to the
/// left −2, and the four diagonal ones 1.
pub open spec fn blur_at(p: Seq<Seq<int>>, x: int, y: int) -> int {
    sample(p, x - 1, y - 1) + 2 * sample(p, x, y - 1) + sample(p, x + 1, y - 1)
        - 2 * sample(p, x - 1, y) + 4 * sample(p, x, y) + 2 * sample(p, x + 1, y)
        + sample(p, x - 1, y + 1) + 2 * sample(p, x, y + 1) + sample(p, x + 1, y + 1)
}

/// The luminance of every pixel of an image given as rows.
pub open spec fn luminance_plane(image: Seq<Seq<Pixel>>) -> Seq<Seq<int>> {
    Seq::new(image.len(), |y: int| Seq::new(image[y].len(), |x: int| luminance(image[y][x])))
}

/// The smoothed plane, sixteen times over: [`blur_at`] at every position.
pub open spec fn blurred_plane(p: Seq<Seq<int>>) -> Seq<Seq<int>> {
    Seq::new(p.len(), |y: int| Seq::new(p[y].len(), |x: int| blur_at(p, x, y)))
}

/// Reads the neighbour of a cell that lies `dx` columns and `dy` rows away, or
/// zero where the plane has none.
fn tap(p: &Plane, x: usize, y: usize, dx: i8, dy: i8) -> (v: i64)
    requires
        p.wf(),
        x < p.width,
        y < p.height,
        -1 <= dx <= 1,
        -1 <= dy <= 1,
    ensures
        v == sample(p@, x + dx, y + dy),
{
    if (dx < 0 && x == 0) || (dy < 0 && y == 0) || (dx > 0 && x + 1 >= p.width) || (dy > 0 && y + 1
        >= p.height) {
        return 0;
    }
    let xx: usize = if dx < 0 {
        x - 1
    } else if dx > 0 {
        x + 1
    } else {
        x
    };
    let yy: usize = if dy < 0 {
        y - 1
    } else if dy > 0 {
        y + 1
    } else {
        y
    };
    p.rows[yy][xx]
}

/// Reduces an image to its luminance. The weights are those of the formula
/// above; they add up to slightly more than one, so a white pixel is a little
/// brighter than full intensity.
pub fn apply_grayscale(image: &PpmFile) -> (gray: Plane)
    requires
        image.wf(),
    ensures
        gray.wf(),
        gray.width == image.width,
        gray.height == image.height,
        gray.unit == LUMINANCE_UNIT,
        gray.within(LUMINANCE_LIMIT as int),
        gray@ == luminance_plane(image.rows()),
{
    let mut rows: Vec<Vec<i64>> = Vec::new();
    let mut y: usize = 0;
    while y < image.height
        invariant
            image.wf(),
            y <= image.height,
            rows.len() == y,
            forall|j: int| 0 <= j < y ==> (#[trigger] rows[j]).len() == image.width,
            forall|i: int, j: int|
                0 <= j < y && 0 <= i < image.width ==> #[trigger] rows[j][i] == luminance(image.rows()[j][i]),
        decreases image.height - y,
    {
        let mut row: Vec<i64> = Vec::new();
        let mut x: usize = 0;
        while x < image.width
            invariant
                image.wf(),
                y < image.height,
                x <= image.width,
                row.len() == x,
                forall|i: int| 0 <= i < x ==> #[trigger] row[i] == luminance(image.rows()[y as int][i]),
            decreases image.width - x,
        {
            let p = image.pixel_at(x, y);
            let v: i64 = 2160 * (p.r as i64) + 7125 * (p.g as i64) + 722 * (p.b as i64);
            row.push(v);
            x += 1;
        }
        rows.push(row);
        y += 1;
    }
    let gray = Plane { width: image.width, height: image.height, unit: LUMINANCE_UNIT, rows };
    proof {
        let target = luminance_plane(image.rows());
        assert forall|j: int| 0 <= j < gray@.len() implies #[trigger] gray@[j] =~= target[j] by {
            assert forall|i: int| 0 <= i < gray@[j].len() implies gray@[j][i] == target[j][i] by {
                assert(gray.rows[j][i] == luminance(image.rows()[j][i]));
            }
        }
        assert(gray@ =~= target);
    }
    gray
}

/// Magnitude of a smoothed value in terms of the largest magnitude around it.
pub proof fn lemma_blur_bound(p: Seq<Seq<int>>, x: int, y: int, limit: int)
    requires
        0 <= limit,
        forall|i: int, j: int| 0 <= j < p.len() && 0 <= i < p[j].len() ==> -limit <= #[trigger] p[j][i] <= limit,
    ensures
        -16 * limit <= blur_at(p, x, y) <= 16 * limit,
{
    assert forall|i: int, j: int| -limit <= #[trigger] sample(p, i, j) <= limit by {
        if 0 <= j < p.len() && 0 <= i < p[j].len() {
            assert(-limit <= p[j][i] <= limit);
        }
    }
}

/// Smooths a plane with the 3 by 3 kernel of [`blur_at`]. Neighbours beyond
/// the border are left out and the weights are not rescaled, so the border is
/// dimmer. The result reads the input only; its unit is sixteen times the
/// input's.
pub fn apply_gaussian_blur(plane: &Plane) -> (blurred: Plane)
    requires
        plane.wf(),
        plane.within(BLUR_LIMIT as int),
        plane.unit <= BLUR_UNIT_LIMIT,
    ensures
        blurred.wf(),
        blurred.width == plane.width,
        blurred.height == plane.height,
        blurred.unit == 16 * plane.unit,
        blurred@ == blurred_plane(plane@),
        forall|limit: int| 0 <= limit && #[trigger] plane.within(limit) ==> blurred.within(16 * limit),
{
    let mut rows: Vec<Vec<i64>> = Vec::new();
    let mut y: usize = 0;
    while y < plane.height
        invariant
            plane.wf(),
            plane.within(BLUR_LIMIT as int),
            y <= plane.height,
            rows.len() == y,
            forall|j: int| 0 <= j < y ==> (#[trigger] rows[j]).len() == plane.width,
            forall|i: int, j: int|
                0 <= j < y && 0 <= i < plane.width ==> #[trigger] rows[j][i] == blur_at(plane@, i, j),
        decreases plane.height - y,
    {
        let mut row: Vec<i64> = Vec::new();
        let mut x: usize = 0;
        while x < plane.width
            invariant
                plane.wf(),
                plane.within(BLUR_LIMIT as int),
                y < plane.height,
                x <= plane.width,
                row.len() == x,
                forall|i: int| 0 <= i < x ==> #[trigger] row[i] == blur_at(plane@, i, y as int),
            decreases plane.width - x,
        {
            proof {
                lemma_samples_within(plane, BLUR_LIMIT as int);
            }
            let up_left: i64 = tap(plane, x, y, -1, -1);
            let up: i64 = tap(plane, x, y, 0, -1);
            let up_right: i64 = tap(plane, x, y, 1, -1);
            let left: i64 = tap(plane, x, y, -1, 0);
            let center: i64 = tap(plane, x, y, 0, 0);
            let right: i64 = tap(plane, x, y, 1, 0);
            let down_left: i64 = tap(plane, x, y, -1, 1);
            let down: i64 = tap(plane, x, y, 0, 1);
            let down_right: i64 = tap(plane, x, y, 1, 1);
            let above: i64 = up_left + 2 * up + up_right;
            let beside: i64 = 4 * center + 2 * right - 2 * left;
            let below: i64 = down_left + 2 * down + down_right;
            row.push(above + beside + below);
            x += 1;
        }
        rows.push(row);
        y += 1;
    }
    let blurred = Plane { width: plane.width, height: plane.height, unit: 16 * plane.unit, rows };
    proof {
        let target = blurred_plane(plane@);
        assert forall|j: int| 0 <= j < blurred@.len() implies #[trigger] blurred@[j] =~= target[j] by {
            assert forall|i: int| 0 <= i < blurred@[j].len() implies blurred@[j][i] == target[j][i] by {
                assert(blurred.rows[j][i] == blur_at(plane@, i, j));
            }
        }
        assert(blurred@ =~= target);
        assert forall|limit: int| 0 <= limit && #[trigger] plane.within(limit) implies blurred.within(
            16 * limit,
        ) by {
            lemma_samples_within(plane, limit);
            assert forall|x: int, y: int|
                0 <= y < blurred.rows.len() && 0 <= x < blurred.rows[y].len() implies -16 * limit
                <= #[trigger] blurred.rows[y][x] <= 16 * limit by {
                lemma_blur_bound(plane@, x, y, limit);
                assert(blurred@[y][x] == blur_at(plane@, x, y));
            }
        }
    }
    blurred
}

/// Where the values of a plane are bounded, so is every sample of its view.
pub proof fn lemma_samples_within(p: &Plane, limit: int)
    requires
        0 <= limit,
        p.within(limit),
    ensures
        forall|i: int, j: int| -limit <= #[trigger] sample(p@, i, j) <= limit,
        forall|i: int, j: int| 0 <= j < p@.len() && 0 <= i < p@[j].len() ==> -limit <= #[trigger] p@[j][i] <= limit,
{
    assert forall|i: int, j: int| 0 <= j < p@.len() && 0 <= i < p@[j].len() implies -limit <= #[trigger] p@[j][i]
        <= limit by {
        assert(-limit <= p.rows[j][i] <= limit);
    }
    assert forall|i: int, j: int| -limit <= #[trigger] sample(p@, i, j) <= limit by {
        if 0 <= j < p@.len() && 0 <= i < p@[j].len() {
            assert(-limit <= p@[j][i] <= limit);
        }
    }
}

/// Horizontal gradient at column `x` of row `y`: the column to the right minus
/// the column to the left, the middle row counted twice.
pub open spec fn sobel_x(p: Seq<Seq<int>>, x: int, y: int) -> int {
    sample(p, x + 1, y - 1) - sample(p, x - 1, y - 1) + 2 * sample(p, x + 1, y) - 2 * sample(p, x - 1, y)
        + sample(p, x + 1, y + 1) - sample(p, x - 1, y + 1)
}

/// Vertical gradient at column `x` of row `y`: the row above minus the row
/// below, the middle column counted twice.
pub open spec fn sobel_y(p: Seq<Seq<int>>, x: int, y: int) -> int {
    sample(p, x - 1, y - 1) + 2 * sample(p, x, y - 1) + sample(p, x + 1, y - 1) - sample(p, x - 1, y + 1)
        - 2 * sample(p, x, y + 1) - sample(p, x + 1, y + 1)
}

/// Square of the gradient magnitude at column `x` of row `y`, limited to the
/// square of `unit`: the magnitude itself is limited to full intensity.
pub open spec fn edge_strength(p: Seq<Seq<int>>, unit: int, x: int, y: int) -> int {
    let gx = sobel_x(p, x, y);
    let gy = sobel_y(p, x, y);
    let squared = gx * gx + gy * gy;
    if squared > unit * unit {
        unit * unit
    } else {
        squared
    }
}

/// The edge strength at every position of a plane.
pub open spec fn edge_plane(p: Seq<Seq<int>>, unit: int) -> Seq<Seq<int>> {
    Seq::new(p.len(), |y: int| Seq::new(p[y].len(), |x: int| edge_strength(p, unit, x, y)))
}

/// The magnitude whose square over `unit * unit` is `squared` reaches the
/// level `k` of 255 when rounded to the nearest level, halves rounded up:
/// `255 * sqrt(squared) / unit >= k - 1/2`.
pub open spec fn reaches_level(squared: int, unit: int, k: int) -> bool {
    (2 * k - 1) * (2 * k - 1) * (unit * unit) <= 260100 * squared
}

/// The highest level up to `k` that the magnitude reaches, or zero.
pub open spec fn level_up_to(squared: int, unit: int, k: int) -> int
    decreases k,
{
    if k <= 0 {
        0
    } else if reaches_level(squared, unit, k) {
        k
    } else {
        level_up_to(squared, unit, k - 1)
    }
}

/// The magnitude on the scale of 0 to 255, rounded to the nearest level.
pub open spec fn level(squared: int, unit: int) -> int {
    level_up_to(squared, unit, 255)
}

/// A magnitude that reaches a level reaches every lower one.
pub proof fn lemma_reaches_lower(squared: int, unit: int, k: int, lower: int)
    requires
        1 <= lower <= k,
        reaches_level(squared, unit, k),
    ensures
        reaches_level(squared, unit, lower),
{
    let a = 2 * lower - 1;
    let b = 2 * k - 1;
    let u = unit * unit;
    assert(0 <= u) by (nonlinear_arith)
        requires
            u == unit * unit,
    ;
    assert(a * a <= b * b) by (nonlinear_arith)
        requires
            0 <= a <= b,
    ;
    assert((a * a) * u <= (b * b) * u) by (nonlinear_arith)
        requires
            a * a <= b * b,
            0 <= u,
    ;
}

/// [`level`] rounds to the nearest level: the result lies between 0 and 255,
/// the magnitude reaches it, and reaches no higher level.
pub proof fn lemma_level_rounds(squared: int, unit: int)
    ensures
        0 <= level(squared, unit) <= 255,
        level(squared, unit) >= 1 ==> reaches_level(squared, unit, level(squared, unit)),
        forall|k: int| level(squared, unit) < k <= 255 ==> !reaches_level(squared, unit, k),
{
    lemma_level_up_to(squared, unit, 255);
}

/// The highest level up to `k` is one that the magnitude reaches, and it
/// reaches none between that and `k`.
pub proof fn lemma_level_up_to(squared: int, unit: int, k: int)
    requires
        0 <= k,
    ensures
        0 <= level_up_to(squared, unit, k) <= k,
        level_up_to(squared, unit, k) >= 1 ==> reaches_level(squared, unit, level_up_to(squared, unit, k)),
        forall|j: int| level_up_to(squared, unit, k) < j <= k ==> !reaches_level(squared, unit, j),
    decreases k,
{
    if k > 0 && !reaches_level(squared, unit, k) {
        lemma_level_up_to(squared, unit, k - 1);
    }
}

/// A level that the magnitude reaches, with none above it reached, is the
/// rounded level.
pub proof fn lemma_level_is(squared: int, unit: int, found: int)
    requires
        0 <= found <= 255,
        found >= 1 ==> reaches_level(squared, unit, found),
        found < 255 ==> !reaches_level(squared, unit, found + 1),
    ensures
        level(squared, unit) == found,
{
    lemma_level_rounds(squared, unit);
    let l = level(squared, unit);
    if l < found {
        assert(!reaches_level(squared, unit, found));
    } else if l > found {
        lemma_reaches_lower(squared, unit, l, found + 1);
    }
}

/// Squares of gradient magnitudes: the stored integer `s` stands for the
/// magnitude `sqrt(s) / unit`, and none exceeds full intensity.
#[derive(Debug)]
pub struct EdgeMap {
    pub width: usize,
    pub height: usize,
    pub unit: u64,
    pub rows: Vec<Vec<u64>>,
}

impl View for EdgeMap {
    type V = Seq<Seq<int>>;

    open spec fn view(&self) -> Seq<Seq<int>> {
        Seq::new(
            self.rows.len() as nat,
            |y: int| Seq::new(self.rows[y].len() as nat, |x: int| self.rows[y][x] as int),
        )
    }
}

impl EdgeMap {
    /// The map is a rectangle of `height` rows and `width` columns, and the
    /// square of its unit fits in 64 bits.
    pub open spec fn wf(&self) -> bool {
        &&& 1 <= self.unit <= SOBEL_UNIT_LIMIT
        &&& self.rows.len() == self.height
        &&& forall|y: int| 0 <= y < self.height ==> (#[trigger] self.rows[y]).len() == self.width
    }

    /// The importance of the cell in column `x` of row `y`: its magnitude
    /// rounded to the nearest of 256 levels.
    pub fn intensity(&self, x: usize, y: usize) -> (k: u32)
        requires
            self.wf(),
            x < self.width,
            y < self.height,
        ensures
            k == level(self@[y as int][x as int], self.unit as int),
            k <= 255,
    {
        quantize(self.rows[y][x], self.unit)
    }
}

/// Whether the magnitude reaches the level `k`, computed without overflow.
fn reaches(squared: u64, unit: u64, k: u32) -> (r: bool)
    requires
        1 <= k <= 256,
        unit <= SOBEL_UNIT_LIMIT,
    ensures
        r == reaches_level(squared as int, unit as int, k as int),
{
    let odd: u128 = 2 * (k as u128) - 1;
    let u: u128 = unit as u128;
    assert(odd * odd <= 511 * 511) by (nonlinear_arith)
        requires
            0 <= odd <= 511,
    ;
    assert(u * u <= 0xffff_ffff * 0xffff_ffff) by (nonlinear_arith)
        requires
            0 <= u <= 0xffff_ffff,
    ;
    let odd_squared: u128 = odd * odd;
    let unit_squared: u128 = u * u;
    assert(odd_squared * unit_squared <= 261121 * 0xffff_fffe_0000_0001) by (nonlinear_arith)
        requires
            0 <= odd_squared <= 261121,
            0 <= unit_squared <= 0xffff_fffe_0000_0001,
    ;
    assert(260100 * (squared as u128) <= 260100 * 0xffff_ffff_ffff_ffff);
    odd_squared * unit_squared <= 260100 * (squared as u128)
}

/// Rounds a magnitude, given by its square over `unit * unit`, to the nearest
/// of the levels 0 to 255.
pub fn quantize(squared: u64, unit: u64) -> (k: u32)
    requires
        unit <= SOBEL_UNIT_LIMIT,
    ensures
        k == level(squared as int, unit as int),
        k <= 255,
{
    let mut low: u32 = 0;
    let mut high: u32 = 256;
    while high - low > 1
        invariant
            unit <= SOBEL_UNIT_LIMIT,
            0 <= low < high <= 256,
            low >= 1 ==> reaches_level(squared as int, unit as int, low as int),
            high <= 255 ==> !reaches_level(squared as int, unit as int, high as int),
        decreases high - low,
    {
        let middle: u32 = low + (high - low) / 2;
        if reaches(squared, unit, middle) {
            low = middle;
        } else {
            high = middle;
        }
    }
    proof {
        lemma_level_is(squared as int, unit as int, low as int);
    }
    low
}

/// Gradient magnitude over `limit`-bounded values.
pub proof fn lemma_sobel_bound(p: Seq<Seq<int>>, x: int, y: int, limit: int)
    requires
        0 <= limit,
        forall|i: int, j: int| -limit <= #[trigger] sample(p, i, j) <= limit,
    ensures
        -8 * limit <= sobel_x(p, x, y) <= 8 * limit,
        -8 * limit <= sobel_y(p, x, y) <= 8 * limit,
        0 <= sobel_x(p, x, y) * sobel_x(p, x, y) <= 64 * limit * limit,
        0 <= sobel_y(p, x, y) * sobel_y(p, x, y) <= 64 * limit * limit,
{
    let gx = sobel_x(p, x, y);
    let gy = sobel_y(p, x, y);
    let m = 8 * limit;
    assert(0 <= gx * gx <= m * m) by (nonlinear_arith)
        requires
            -m <= gx <= m,
    ;
    assert(0 <= gy * gy <= m * m) by (nonlinear_arith)
        requires
            -m <= gy <= m,
    ;
    assert(m * m == 64 * limit * limit) by (nonlinear_arith)
        requires
            m == 8 * limit,
    ;
}

/// Measures edge strength with the two 3 by 3 gradient kernels of [`sobel_x`]
/// and [`sobel_y`]. Neighbours beyond the border are left out. The result reads
/// the input only and keeps its unit.
pub fn apply_sobel(plane: &Plane) -> (edges: EdgeMap)
    requires
        plane.wf(),
        plane.within(SOBEL_LIMIT as int),
        plane.unit <= SOBEL_UNIT_LIMIT,
    ensures
        edges.wf(),
        edges.width == plane.width,
        edges.height == plane.height,
        edges.unit == plane.unit,
        edges@ == edge_plane(plane@, plane.unit as int),
{
    let unit: u64 = plane.unit;
    assert(unit * unit <= 0xffff_ffff * 0xffff_ffff) by (nonlinear_arith)
        requires
            0 <= unit <= 0xffff_ffff,
    ;
    let full: u64 = unit * unit;
    let mut rows: Vec<Vec<u64>> = Vec::new();
    let mut y: usize = 0;
    while y < plane.height
        invariant
            plane.wf(),
            plane.within(SOBEL_LIMIT as int),
            unit == plane.unit,
            full == unit * unit,
            y <= plane.height,
            rows.len() == y,
            forall|j: int| 0 <= j < y ==> (#[trigger] rows[j]).len() == plane.width,
            forall|i: int, j: int|
                0 <= j < y && 0 <= i < plane.width ==> #[trigger] rows[j][i] == edge_strength(
                    plane@,
                    unit as int,
                    i,
                    j,
                ),
        decreases plane.height - y,
    {
        let mut row: Vec<u64> = Vec::new();
        let mut x: usize = 0;
        while x < plane.width
            invariant
                plane.wf(),
                plane.within(SOBEL_LIMIT as int),
                unit == plane.unit,
                full == unit * unit,
                y < plane.height,
                x <= plane.width,
                row.len() == x,
                forall|i: int|
                    0 <= i < x ==> #[trigger] row[i] == edge_strength(plane@, unit as int, i, y as int),
            decreases plane.width - x,
        {
            proof {
                lemma_samples_within(plane, SOBEL_LIMIT as int);
                lemma_sobel_bound(plane@, x as int, y as int, SOBEL_LIMIT as int);
            }
            let up_left: i64 = tap(plane, x, y, -1, -1);
            let up: i64 = tap(plane, x, y, 0, -1);
            let up_right: i64 = tap(plane, x, y, 1, -1);
            let left: i64 = tap(plane, x, y, -1, 0);
            let right: i64 = tap(plane, x, y, 1, 0);
            let down_left: i64 = tap(plane, x, y, -1, 1);
            let down: i64 = tap(plane, x, y, 0, 1);
            let down_right: i64 = tap(plane, x, y, 1, 1);
            let gx: i64 = up_right - up_left + 2 * right - 2 * left + down_right - down_left;
            let gy: i64 = up_left + 2 * up + up_right - down_left - 2 * down - down_right;
            let gx_squared: i64 = gx * gx;
            let gy_squared: i64 = gy * gy;
            let squared: u64 = (gx_squared as u64) + (gy_squared as u64);
            let clamped: u64 = if squared > full {
                full
            } else {
                squared
            };
            row.push(clamped);
            x += 1;
        }
        rows.push(row);
        y += 1;
    }
    let edges = EdgeMap { width: plane.width, height: plane.height, unit, rows };
    proof {
        let target = edge_plane(plane@, unit as int);
        assert forall|j: int| 0 <= j < edges@.len() implies #[trigger] edges@[j] =~= target[j] by {
            assert forall|i: int| 0 <= i < edges@[j].len() implies edges@[j][i] == target[j][i] by {
                assert(edges.rows[j][i] == edge_strength(plane@, unit as int, i, j));
            }
        }
        assert(edges@ =~= target);
    }
    edges
}

/// Every value of the plane is `v`.
pub open spec fn flat(p: Seq<Seq<int>>, v: int) -> bool {
    forall|x: int, y: int| 0 <= y < p.len() && 0 <= x < p[y].len() ==> #[trigger] p[y][x] == v
}

/// The position has all eight neighbours inside a plane that is `w` wide.
pub open spec fn interior(p: Seq<Seq<int>>, w: int, x: int, y: int) -> bool {
    &&& 1 <= y < p.len() - 1
    &&& 1 <= x < w - 1
    &&& p[y - 1].len() == w
    &&& p[y].len() == w
    &&& p[y + 1].len() == w
}

/// A gray pixel's luminance is 1.0007 times its sample, since the weights add
/// up to that much. So luminance leaves a gray pixel as it is exactly when
/// the pixel is black.
pub proof fn lemma_luminance_of_gray(c: u8)
    ensures
        luminance(Pixel { r: c, g: c, b: c }) == 10007 * c,
        luminance(Pixel { r: c, g: c, b: c }) * 255 == c * LUMINANCE_UNIT <==> c == 0,
{
}

/// Inside a flat plane the smoothed value is three quarters of the plane's
/// value: the kernel's weights add up to twelve sixteenths there, the left
/// neighbour counting against the others. So smoothing leaves the value as it
/// is exactly when it is zero.
pub proof fn lemma_blur_of_flat(p: Seq<Seq<int>>, w: int, v: int, x: int, y: int)
    requires
        flat(p, v),
        interior(p, w, x, y),
    ensures
        blur_at(p, x, y) == 12 * v,
        blur_at(p, x, y) == 16 * v <==> v == 0,
{
    lemma_samples_of_flat(p, w, v, x, y);
}

/// Inside a flat plane there is no edge: both gradients vanish, and the
/// importance is zero.
pub proof fn lemma_sobel_of_flat(p: Seq<Seq<int>>, w: int, v: int, unit: int, x: int, y: int)
    requires
        flat(p, v),
        interior(p, w, x, y),
        unit >= 1,
    ensures
        sobel_x(p, x, y) == 0,
        sobel_y(p, x, y) == 0,
        edge_strength(p, unit, x, y) == 0,
        level(edge_strength(p, unit, x, y), unit) == 0,
{
    lemma_samples_of_flat(p, w, v, x, y);
    lemma_level_of_zero(unit);
}

/// A black image stays black under every filter: its luminance is zero
/// everywhere, and a plane of zeros is smoothed to zeros and has no edge, on
/// the border as well as inside.
pub proof fn lemma_filters_keep_black(image: Seq<Seq<Pixel>>, unit: int)
    requires
        forall|x: int, y: int|
            0 <= y < image.len() && 0 <= x < image[y].len() ==> #[trigger] image[y][x] == (Pixel {
                r: 0,
                g: 0,
                b: 0,
            }),
        unit >= 1,
    ensures
        flat(luminance_plane(image), 0),
        flat(blurred_plane(luminance_plane(image)), 0),
        flat(edge_plane(blurred_plane(luminance_plane(image)), unit), 0),
        forall|x: int, y: int|
            0 <= y < image.len() && 0 <= x < image[y].len() ==> level(
                #[trigger] edge_plane(blurred_plane(luminance_plane(image)), unit)[y][x],
                unit,
            ) == 0,
{
    let gray = luminance_plane(image);
    assert(flat(gray, 0)) by {
        assert forall|x: int, y: int| 0 <= y < gray.len() && 0 <= x < gray[y].len() implies #[trigger] gray[y][x]
            == 0 by {
            assert(image[y][x] == Pixel { r: 0, g: 0, b: 0 });
        }
    }
    lemma_flat_zero_stays(gray, unit);
    let blurred = blurred_plane(gray);
    lemma_flat_zero_stays(blurred, unit);
    lemma_level_of_zero(unit);
}

/// A plane of zeros is smoothed to zeros and has no edge anywhere.
pub proof fn lemma_flat_zero_stays(p: Seq<Seq<int>>, unit: int)
    requires
        flat(p, 0),
        unit >= 1,
    ensures
        flat(blurred_plane(p), 0),
        flat(edge_plane(p, unit), 0),
{
    assert forall|i: int, j: int| #[trigger] sample(p, i, j) == 0 by {
        if 0 <= j < p.len() && 0 <= i < p[j].len() {
            assert(p[j][i] == 0);
        }
    }
    assert(0 <= unit * unit) by (nonlinear_arith);
    let edges = edge_plane(p, unit);
    assert forall|x: int, y: int| 0 <= y < edges.len() && 0 <= x < edges[y].len() implies #[trigger] edges[y][x]
        == 0 by {
        assert(sobel_x(p, x, y) == 0);
        assert(sobel_y(p, x, y) == 0);
        assert(edge_strength(p, unit, x, y) == 0);
    }
}

/// The nine samples around an inner position of a flat plane.
proof fn lemma_samples_of_flat(p: Seq<Seq<int>>, w: int, v: int, x: int, y: int)
    requires
        flat(p, v),
        interior(p, w, x, y),
    ensures
        forall|dx: int, dy: int| -1 <= dx <= 1 && -1 <= dy <= 1 ==> #[trigger] sample(p, x + dx, y + dy) == v,
{
    assert forall|dx: int, dy: int| -1 <= dx <= 1 && -1 <= dy <= 1 implies #[trigger] sample(
        p,
        x + dx,
        y + dy,
    ) == v by {
        assert(p[y + dy][x + dx] == v);
    }
}

/// No magnitude at all rounds to level zero.
pub proof fn lemma_level_of_zero(unit: int)
    requires
        unit >= 1,
    ensures
        level(0, unit) == 0,
{
    assert((2 * 1 - 1) * (2 * 1 - 1) * (unit * unit) >= 1) by (nonlinear_arith)
        requires
            unit >= 1,
    ;
    lemma_level_is(0, unit, 0);
}

} // verus!
