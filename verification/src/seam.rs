//! The energy grid and the search for, and removal of, its cheapest vertical seam.
//!
//! A seam is a path with one cell in every row whose column moves by at most one
//! from a row to the next. The cost of a seam is the sum of the importance of
//! its cells. The grid finds the cheapest seam by dynamic programming from the
//! top row down and removes it by walking backpointers from the bottom row up.

use vstd::prelude::*;
use crate::filter::{level, EdgeMap};
use crate::image::{flat_index, lemma_flat_index_in_range, Pixel, PpmFile};

verus! {

/// Why a resize cannot be carried out.
#[derive(Clone, Copy, Debug, PartialEq, Eq, Structural)]
pub enum ResizeError {
    /// The request would leave no column in the image.
    InvalidRequest,
    /// The image has no rows or no columns.
    DegenerateGrid,
}

/// What a grid position means to the algorithm: how important the pixel is and
/// which colour it has. Both stay with the cell for as long as it is in the grid.
pub struct CellModel {
    pub intensity: u32,
    pub rgb: Pixel,
}

/// A grid position together with the scratch state of the current search.
#[derive(Clone, Copy, Debug)]
pub struct Energy {
    /// Cost of the cheapest path from the top row that ends in this cell.
    pub value: u128,
    /// Column of the previous cell on that path.
    pub parent_x: usize,
    /// Row of the previous cell on that path.
    pub parent_y: usize,
    /// Colour of the pixel.
    pub rgb: Pixel,
    /// Importance of the pixel.
    pub intensity: u32,
}

impl Energy {
    /// The part of the cell that outlives a search.
    pub open spec fn model(self) -> CellModel {
        CellModel { intensity: self.intensity, rgb: self.rgb }
    }
}

/// The cells of an image, row by row, with the image's current dimensions.
pub struct EnergyGrid {
    pub cells: Vec<Vec<Energy>>,
    pub width: usize,
    pub height: usize,
}

/// Number of columns of a grid given as rows.
pub open spec fn grid_width<T>(g: Seq<Seq<T>>) -> int {
    if g.len() > 0 {
        g[0].len() as int
    } else {
        0
    }
}

/// Every row of `g` is `w` cells long.
pub open spec fn rectangular<T>(g: Seq<Seq<T>>, w: int) -> bool {
    forall|y: int| 0 <= y < g.len() ==> (#[trigger] g[y]).len() == w
}

/// The column, in the row above, that a path ending in column `x` comes from,
/// given the costs of reaching the cell above to the left, straight above and
/// above to the right. A neighbour outside the grid is never chosen. The left
/// neighbour is compared with the right one first: where it is strictly
/// cheaper, it is taken if it is also strictly cheaper than the one straight
/// above. Otherwise the right neighbour is taken if it is strictly cheaper
/// than the one straight above. In every other case, so whenever the one
/// straight above ties for cheapest, the path comes from straight above.
pub open spec fn choose_parent(x: int, w: int, left: int, center: int, right: int) -> int {
    let has_left = x > 0;
    let has_right = x + 1 < w;
    if has_left && (!has_right || left < right) {
        if left < center {
            x - 1
        } else {
            x
        }
    } else if has_right && right < center {
        x + 1
    } else {
        x
    }
}

/// Cost of the path that the search selects for the cell in column `x` of row
/// `y`: the cell's own importance plus the cost of the selected cell above.
pub open spec fn path_cost(g: Seq<Seq<CellModel>>, x: int, y: int) -> int
    decreases y, 1int,
{
    if y <= 0 {
        g[0][x].intensity as int
    } else {
        g[y][x].intensity + path_cost(g, parent_column(g, x, y), y - 1)
    }
}

/// Column of the cell in row `y - 1` that the search selects as predecessor of
/// the cell in column `x` of row `y`. A cell of the top row has none and stands
/// for itself.
pub open spec fn parent_column(g: Seq<Seq<CellModel>>, x: int, y: int) -> int
    decreases y, 0int,
{
    if y <= 0 {
        x
    } else {
        choose_parent(
            x,
            grid_width(g),
            path_cost(g, x - 1, y - 1),
            path_cost(g, x, y - 1),
            path_cost(g, x + 1, y - 1),
        )
    }
}

/// `i` is the position of the first smallest element of `s`.
pub open spec fn is_first_min(s: Seq<int>, i: int) -> bool {
    &&& 0 <= i < s.len()
    &&& forall|j: int| 0 <= j < s.len() ==> s[i] <= #[trigger] s[j]
    &&& forall|j: int| 0 <= j < i ==> s[i] < #[trigger] s[j]
}

/// Position of the first smallest element of a non-empty sequence.
pub open spec fn first_min(s: Seq<int>) -> int {
    choose|i: int| is_first_min(s, i)
}

/// Costs of the selected paths that end in the bottom row, by column.
pub open spec fn bottom_costs(g: Seq<Seq<CellModel>>) -> Seq<int> {
    Seq::new(grid_width(g) as nat, |x: int| path_cost(g, x, g.len() - 1))
}

/// Column in which the cheapest seam crosses row `y`: in the bottom row the
/// first column of least cost, and above it the selected predecessor of the
/// seam's cell in the row below.
pub open spec fn seam_column(g: Seq<Seq<CellModel>>, y: int) -> int
    decreases g.len() - y,
{
    if y >= g.len() - 1 {
        first_min(bottom_costs(g))
    } else {
        parent_column(g, seam_column(g, y + 1), y + 1)
    }
}

/// The grid after its cheapest seam has been taken out: every row loses the
/// cell that the seam crosses and keeps the others in order.
pub open spec fn without_seam(g: Seq<Seq<CellModel>>) -> Seq<Seq<CellModel>> {
    Seq::new(g.len(), |y: int| g[y].remove(seam_column(g, y)))
}

/// The grid after `k` rounds of removing the cheapest seam.
pub open spec fn carved(g: Seq<Seq<CellModel>>, k: nat) -> Seq<Seq<CellModel>>
    decreases k,
{
    if k == 0 {
        g
    } else {
        without_seam(carved(g, (k - 1) as nat))
    }
}

/// The colours of a grid's cells.
pub open spec fn colors(g: Seq<Seq<CellModel>>) -> Seq<Seq<Pixel>> {
    Seq::new(g.len(), |y: int| Seq::new(g[y].len(), |x: int| g[y][x].rgb))
}

/// The selected predecessor of a cell lies inside the grid, and the cost of a
/// selected path is at most the largest importance times the number of its cells.
pub proof fn lemma_path_cost_bounds(g: Seq<Seq<CellModel>>, x: int, y: int)
    requires
        rectangular(g, grid_width(g)),
        0 <= y < g.len(),
        0 <= x < grid_width(g),
    ensures
        0 <= parent_column(g, x, y) < grid_width(g),
        y > 0 ==> x - 1 <= parent_column(g, x, y) <= x + 1,
        0 <= path_cost(g, x, y) <= (y + 1) * u32::MAX,
    decreases y,
{
    if y > 0 {
        let p = parent_column(g, x, y);
        lemma_path_cost_bounds(g, p, y - 1);
        assert((y + 1) * u32::MAX == y * u32::MAX + u32::MAX) by (nonlinear_arith);
    }
}

/// A sequence has at most one first smallest element.
pub proof fn lemma_first_min_unique(s: Seq<int>, i: int)
    requires
        is_first_min(s, i),
    ensures
        first_min(s) == i,
{
    let j = first_min(s);
    assert(is_first_min(s, j));
    if j < i {
        assert(s[i] < s[j]);
        assert(s[j] <= s[i]);
    } else if i < j {
        assert(s[j] < s[i]);
        assert(s[i] <= s[j]);
    }
}

/// The cheapest seam stays inside the grid and moves by at most one column
/// from each row to the next.
pub proof fn lemma_seam_is_connected(g: Seq<Seq<CellModel>>, y: int)
    requires
        rectangular(g, grid_width(g)),
        grid_width(g) >= 1,
        0 <= y < g.len(),
    ensures
        0 <= seam_column(g, y) < grid_width(g),
        y + 1 < g.len() ==> seam_column(g, y + 1) - 1 <= seam_column(g, y) <= seam_column(g, y + 1) + 1,
    decreases g.len() - y,
{
    if y >= g.len() - 1 {
        let costs = bottom_costs(g);
        lemma_first_min_exists(costs);
    } else {
        lemma_seam_is_connected(g, y + 1);
        lemma_path_cost_bounds(g, seam_column(g, y + 1), y + 1);
    }
}

/// A non-empty sequence has a first smallest element.
pub proof fn lemma_first_min_exists(s: Seq<int>)
    requires
        s.len() >= 1,
    ensures
        is_first_min(s, first_min(s)),
    decreases s.len(),
{
    if s.len() == 1 {
        assert(is_first_min(s, 0));
    } else {
        let t = s.drop_last();
        lemma_first_min_exists(t);
        let m = first_min(t);
        let n = s.len() - 1;
        assert(forall|j: int| 0 <= j < n ==> t[j] == s[j]);
        if s[n] < s[m] {
            assert forall|j: int| 0 <= j < s.len() implies s[n] <= #[trigger] s[j] by {
                if j < n {
                    assert(t[m] <= t[j]);
                }
            }
            assert forall|j: int| 0 <= j < n implies s[n] < #[trigger] s[j] by {
                assert(t[m] <= t[j]);
            }
            assert(is_first_min(s, n));
        } else {
            assert forall|j: int| 0 <= j < s.len() implies s[m] <= #[trigger] s[j] by {
                if j < n {
                    assert(t[m] <= t[j]);
                }
            }
            assert forall|j: int| 0 <= j < m implies s[m] < #[trigger] s[j] by {
                assert(t[m] < t[j]);
            }
            assert(is_first_min(s, m));
        }
    }
}

/// The grid of an image: every pixel with the importance that an edge map
/// gives it, the magnitude rounded to the nearest of 256 levels.
pub open spec fn grid_of(image: Seq<Seq<Pixel>>, edges: Seq<Seq<int>>, unit: int) -> Seq<Seq<CellModel>> {
    Seq::new(
        image.len(),
        |y: int|
            Seq::new(
                image[y].len(),
                |x: int| CellModel { intensity: level(edges[y][x], unit) as u32, rgb: image[y][x] },
            ),
    )
}

/// Every round of carving keeps the grid a rectangle of the same height and
/// makes it one column narrower, as long as a column is left.
pub proof fn lemma_carved_is_rectangular(g: Seq<Seq<CellModel>>, w: int, k: nat)
    requires
        g.len() >= 1,
        rectangular(g, w),
        k < w,
    ensures
        carved(g, k).len() == g.len(),
        rectangular(carved(g, k), w - k),
        grid_width(carved(g, k)) == w - k,
    decreases k,
{
    if k > 0 {
        lemma_carved_is_rectangular(g, w, (k - 1) as nat);
        let c = carved(g, (k - 1) as nat);
        assert forall|y: int| 0 <= y < c.len() implies (#[trigger] without_seam(c)[y]).len() == w - k by {
            lemma_seam_is_connected(c, y);
        }
    }
}

/// `columns` names a seam of the grid: one column for every row, inside the
/// grid, moving by at most one from a row to the next.
pub open spec fn is_seam(g: Seq<Seq<CellModel>>, columns: Seq<int>) -> bool {
    &&& columns.len() == g.len()
    &&& forall|y: int| 0 <= y < g.len() ==> 0 <= #[trigger] columns[y] < grid_width(g)
    &&& forall|y: int| 0 <= y < g.len() - 1 ==> -1 <= columns[y + 1] - #[trigger] columns[y] <= 1
}

/// Total importance of the cells that a seam crosses in the rows `0 ..= y`.
pub open spec fn seam_total(g: Seq<Seq<CellModel>>, columns: Seq<int>, y: int) -> int
    decreases y + 1,
{
    if y < 0 {
        0
    } else {
        seam_total(g, columns, y - 1) + g[y][columns[y]].intensity
    }
}

/// The cheapest seam, by row.
pub open spec fn cheapest_seam(g: Seq<Seq<CellModel>>) -> Seq<int> {
    Seq::new(g.len(), |y: int| seam_column(g, y))
}

/// The selected predecessor is the cheapest of the cells above that a path
/// may come from.
pub proof fn lemma_parent_is_cheapest(g: Seq<Seq<CellModel>>, x: int, y: int, from: int)
    requires
        1 <= y,
        0 <= from < grid_width(g),
        x - 1 <= from <= x + 1,
    ensures
        path_cost(g, parent_column(g, x, y), y - 1) <= path_cost(g, from, y - 1),
{
}

/// No path from the top row to a cell costs less than the path that the
/// search selects for it.
pub proof fn lemma_path_cost_is_least(g: Seq<Seq<CellModel>>, columns: Seq<int>, y: int)
    requires
        is_seam(g, columns),
        0 <= y < g.len(),
    ensures
        path_cost(g, columns[y], y) <= seam_total(g, columns, y),
    decreases y,
{
    if y > 0 {
        lemma_path_cost_is_least(g, columns, y - 1);
        assert(-1 <= columns[y - 1 + 1] - columns[y - 1] <= 1);
        lemma_parent_is_cheapest(g, columns[y], y, columns[y - 1]);
    } else {
        assert(seam_total(g, columns, -1) == 0);
    }
}

/// The cheapest seam costs, down to any row, what the search accumulated for
/// the cell in which it crosses that row.
pub proof fn lemma_cheapest_seam_total(g: Seq<Seq<CellModel>>, y: int)
    requires
        0 <= y < g.len(),
    ensures
        seam_total(g, cheapest_seam(g), y) == path_cost(g, seam_column(g, y), y),
    decreases y,
{
    if y > 0 {
        lemma_cheapest_seam_total(g, y - 1);
    } else {
        assert(seam_total(g, cheapest_seam(g), -1) == 0);
    }
}

/// What is removed is a seam, and no seam of the grid has a smaller total
/// importance.
pub proof fn lemma_cheapest_seam_is_least(g: Seq<Seq<CellModel>>, columns: Seq<int>)
    requires
        g.len() >= 1,
        grid_width(g) >= 1,
        rectangular(g, grid_width(g)),
        is_seam(g, columns),
    ensures
        is_seam(g, cheapest_seam(g)),
        seam_total(g, cheapest_seam(g), g.len() - 1) <= seam_total(g, columns, g.len() - 1),
{
    let last = g.len() - 1;
    let best = cheapest_seam(g);
    assert forall|y: int| 0 <= y < g.len() implies 0 <= #[trigger] best[y] < grid_width(g) by {
        lemma_seam_is_connected(g, y);
    }
    assert forall|y: int| 0 <= y < g.len() - 1 implies -1 <= best[y + 1] - #[trigger] best[y] <= 1 by {
        lemma_seam_is_connected(g, y);
    }
    lemma_cheapest_seam_total(g, last);
    lemma_path_cost_is_least(g, columns, last);
    let costs = bottom_costs(g);
    lemma_first_min_exists(costs);
    assert(costs[first_min(costs)] <= costs[columns[last]]);
}

impl View for EnergyGrid {
    type V = Seq<Seq<CellModel>>;

    open spec fn view(&self) -> Seq<Seq<CellModel>> {
        Seq::new(
            self.cells.len() as nat,
            |y: int| Seq::new(self.cells[y].len() as nat, |x: int| self.cells[y][x].model()),
        )
    }
}

impl EnergyGrid {
    /// The grid is a rectangle of `height` rows and `width` columns, and has at
    /// least one of each.
    pub open spec fn wf(&self) -> bool {
        &&& self.width >= 1
        &&& self.height >= 1
        &&& self.cells.len() == self.height
        &&& forall|y: int| 0 <= y < self.height ==> (#[trigger] self.cells[y]).len() == self.width
    }

    /// No search has left a trace: every cell costs its own importance and
    /// points to itself.
    pub open spec fn is_reset(&self) -> bool {
        forall|x: int, y: int|
            0 <= y < self.height && 0 <= x < self.width ==> {
                let e = #[trigger] self.cells[y][x];
                e.value == e.intensity && e.parent_x == x && e.parent_y == y
            }
    }

    /// Sets every cell's cost to its importance and its backpointer to itself.
    pub fn reset_costs(&mut self)
        requires
            old(self).wf(),
        ensures
            final(self).wf(),
            final(self).is_reset(),
            final(self)@ == old(self)@,
            final(self).width == old(self).width,
            final(self).height == old(self).height,
    {
        let mut y: usize = 0;
        while y < self.height
            invariant
                self.wf(),
                self.width == old(self).width,
                self.height == old(self).height,
                y <= self.height,
                self@ == old(self)@,
                forall|x: int, j: int|
                    0 <= j < y && 0 <= x < self.width ==> {
                        let e = #[trigger] self.cells[j][x];
                        e.value == e.intensity && e.parent_x == x && e.parent_y == j
                    },
            decreases self.height - y,
        {
            let mut x: usize = 0;
            while x < self.width
                invariant
                    self.wf(),
                    self.width == old(self).width,
                    self.height == old(self).height,
                    y < self.height,
                    x <= self.width,
                    self@ == old(self)@,
                    forall|i: int, j: int|
                        0 <= j < y && 0 <= i < self.width ==> {
                            let e = #[trigger] self.cells[j][i];
                            e.value == e.intensity && e.parent_x == i && e.parent_y == j
                        },
                    forall|i: int|
                        0 <= i < x ==> {
                            let e = #[trigger] self.cells[y as int][i];
                            e.value == e.intensity && e.parent_x == i && e.parent_y == y
                        },
                decreases self.width - x,
            {
                let ghost before = *self;
                let intensity = self.cells[y][x].intensity;
                self.cells[y][x].value = intensity as u128;
                self.cells[y][x].parent_x = x;
                self.cells[y][x].parent_y = y;
                proof {
                    assert(self@ =~~= before@);
                }
                x += 1;
            }
            y += 1;
        }
    }
    /// Rows `0 .. rows` hold the result of the search: every cell's cost is the
    /// cost of its selected path and its backpointer names the selected
    /// predecessor in the row above (itself, in the top row).
    pub open spec fn settled_through(&self, rows: int) -> bool {
        forall|x: int, y: int|
            0 <= y < rows && 0 <= x < self.width ==> {
                let e = #[trigger] self.cells[y][x];
                &&& e.value == path_cost(self@, x, y)
                &&& e.parent_x == parent_column(self@, x, y)
                &&& e.parent_y == if y == 0 {
                    0
                } else {
                    y - 1
                }
            }
    }

    /// The whole grid holds the result of the search.
    pub open spec fn settled(&self) -> bool {
        self.settled_through(self.height as int)
    }

    /// Runs the search from the second row down: every cell adds to its cost the
    /// cost of the predecessor that [`choose_parent`] selects and records that
    /// predecessor as its backpointer.
    pub fn accumulate_costs(&mut self)
        requires
            old(self).wf(),
            old(self).is_reset(),
        ensures
            final(self).wf(),
            final(self).settled(),
            final(self)@ == old(self)@,
            final(self).width == old(self).width,
            final(self).height == old(self).height,
    {
        let ghost g = self@;
        assert(rectangular(g, grid_width(g)) && grid_width(g) == self.width && g.len() == self.height);
        let mut y: usize = 1;
        while y < self.height
            invariant
                self.wf(),
                self.width == old(self).width,
                self.height == old(self).height,
                1 <= y <= self.height,
                self@ == g,
                rectangular(g, grid_width(g)),
                grid_width(g) == self.width,
                g.len() == self.height,
                self.settled_through(y as int),
                forall|i: int, j: int|
                    y <= j < self.height && 0 <= i < self.width ==> {
                        let e = #[trigger] self.cells[j][i];
                        e.value == e.intensity && e.parent_x == i && e.parent_y == j
                    },
            decreases self.height - y,
        {
            let mut x: usize = 0;
            while x < self.width
                invariant
                    self.wf(),
                    self.width == old(self).width,
                    self.height == old(self).height,
                    1 <= y < self.height,
                    x <= self.width,
                    self@ == g,
                    rectangular(g, grid_width(g)),
                    grid_width(g) == self.width,
                    g.len() == self.height,
                    self.settled_through(y as int),
                    forall|i: int|
                        0 <= i < x ==> {
                            let e = #[trigger] self.cells[y as int][i];
                            &&& e.value == path_cost(g, i, y as int)
                            &&& e.parent_x == parent_column(g, i, y as int)
                            &&& e.parent_y == y - 1
                        },
                    forall|i: int|
                        x <= i < self.width ==> {
                            let e = #[trigger] self.cells[y as int][i];
                            e.value == e.intensity && e.parent_x == i && e.parent_y == y
                        },
                    forall|i: int, j: int|
                        y < j < self.height && 0 <= i < self.width ==> {
                            let e = #[trigger] self.cells[j][i];
                            e.value == e.intensity && e.parent_x == i && e.parent_y == j
                        },
                decreases self.width - x,
            {
                let ghost before = *self;
                proof {
                    lemma_path_cost_bounds(g, x as int, y - 1);
                    if x > 0 {
                        lemma_path_cost_bounds(g, x - 1, y - 1);
                    }
                    if x + 1 < self.width {
                        lemma_path_cost_bounds(g, x + 1, y - 1);
                    }
                    assert(y * u32::MAX <= usize::MAX * u32::MAX) by (nonlinear_arith)
                        requires
                            y <= usize::MAX,
                    ;
                    assert(usize::MAX * u32::MAX < 0x1_0000_0000_0000_0000 * 0x1_0000_0000) by (nonlinear_arith)
                        requires
                            usize::MAX < 0x1_0000_0000_0000_0000,
                            u32::MAX < 0x1_0000_0000,
                    ;
                }
                let top_left: u128 = if x > 0 {
                    self.cells[y - 1][x - 1].value
                } else {
                    u128::MAX
                };
                let top_center: u128 = self.cells[y - 1][x].value;
                let top_right: u128 = if x < self.width - 1 {
                    self.cells[y - 1][x + 1].value
                } else {
                    u128::MAX
                };
                let own: u128 = self.cells[y][x].value;
                proof {
                    let up = y - 1;
                    assert(self.cells[up][x as int].value == path_cost(g, x as int, up));
                    if x > 0 {
                        assert(self.cells[up][x - 1].value == path_cost(g, x - 1, up));
                    }
                    if x + 1 < self.width {
                        assert(self.cells[up][x + 1].value == path_cost(g, x + 1, up));
                    }
                    assert(self.cells[y as int][x as int].model() == g[y as int][x as int]);
                    assert(own == g[y as int][x as int].intensity);
                    assert(path_cost(g, x as int, y as int) == g[y as int][x as int].intensity + path_cost(
                        g,
                        parent_column(g, x as int, y as int),
                        up,
                    ));
                }
                if top_left < top_right {
                    if top_left < top_center {
                        self.cells[y][x].value = own + top_left;
                        self.cells[y][x].parent_x = x - 1;
                        self.cells[y][x].parent_y = y - 1;
                    } else {
                        self.cells[y][x].value = own + top_center;
                        self.cells[y][x].parent_x = x;
                        self.cells[y][x].parent_y = y - 1;
                    }
                } else if top_right < top_center {
                    self.cells[y][x].value = own + top_right;
                    self.cells[y][x].parent_x = x + 1;
                    self.cells[y][x].parent_y = y - 1;
                } else {
                    self.cells[y][x].value = own + top_center;
                    self.cells[y][x].parent_x = x;
                    self.cells[y][x].parent_y = y - 1;
                }
                proof {
                    assert(self@ =~~= before@);
                    assert(forall|i: int, j: int|
                        0 <= j < self.height && 0 <= i < self.width && !(j == y && i == x)
                            ==> self.cells[j][i] == before.cells[j][i]);
                }
                x += 1;
            }
            y += 1;
        }
    }
    /// The accumulated costs stored in the bottom row, by column.
    pub open spec fn bottom_values(&self) -> Seq<int> {
        Seq::new(self.width as nat, |x: int| self.cells[self.height - 1][x].value as int)
    }

    /// Returns the first column of the bottom row whose stored cost is least.
    pub fn cheapest_bottom(&self) -> (column: usize)
        requires
            self.wf(),
        ensures
            is_first_min(self.bottom_values(), column as int),
    {
        let ghost s = self.bottom_values();
        let last: usize = self.height - 1;
        let mut min_id: usize = 0;
        let mut min_energy: u128 = u128::MAX;
        let mut i: usize = 0;
        while i < self.width
            invariant
                self.wf(),
                last == self.height - 1,
                s == self.bottom_values(),
                i <= self.width,
                min_id == 0 || min_id < i,
                i == 0 ==> min_energy == u128::MAX,
                i > 0 ==> s[min_id as int] == min_energy,
                forall|j: int| 0 <= j < i ==> min_energy <= #[trigger] s[j],
                forall|j: int| 0 <= j < min_id ==> min_energy < #[trigger] s[j],
            decreases self.width - i,
        {
            let v: u128 = self.cells[last][i].value;
            assert(v == s[i as int]);
            if min_energy > v {
                min_energy = v;
                min_id = i;
            }
            i += 1;
        }
        min_id
    }

    /// Searches the grid for its cheapest seam: clears what an earlier search
    /// left, accumulates the costs and returns the column in which the seam
    /// reaches the bottom row. The backpointers then lead from there to the top.
    pub fn find_seam(&mut self) -> (column: usize)
        requires
            old(self).wf(),
        ensures
            final(self).wf(),
            final(self).settled(),
            final(self)@ == old(self)@,
            final(self).width == old(self).width,
            final(self).height == old(self).height,
            column == seam_column(old(self)@, old(self).height - 1),
            column < old(self).width,
    {
        self.reset_costs();
        self.accumulate_costs();
        let column = self.cheapest_bottom();
        proof {
            assert(grid_width(self@) == self.width);
            assert(self.bottom_values() =~= bottom_costs(self@));
            lemma_first_min_unique(bottom_costs(self@), column as int);
        }
        column
    }

    /// Every backpointer below the top row names a cell of the row above.
    pub open spec fn links_valid(&self) -> bool {
        forall|x: int, y: int|
            1 <= y < self.height && 0 <= x < self.width ==> {
                let e = #[trigger] self.cells[y][x];
                e.parent_y == y - 1 && e.parent_x < self.width
            }
    }

    /// Column in which the path that the backpointers describe crosses row `y`,
    /// when it reaches the bottom row in column `start`.
    pub open spec fn trace_column(&self, start: int, y: int) -> int
        decreases self.height - y,
    {
        if y >= self.height - 1 {
            start
        } else {
            self.cells[y + 1][self.trace_column(start, y + 1)].parent_x as int
        }
    }

    /// The path that valid backpointers describe stays inside the grid.
    pub proof fn lemma_trace_in_grid(&self, start: int, y: int)
        requires
            self.wf(),
            self.links_valid(),
            0 <= start < self.width,
            0 <= y < self.height,
        ensures
            0 <= self.trace_column(start, y) < self.width,
        decreases self.height - y,
    {
        if y < self.height - 1 {
            self.lemma_trace_in_grid(start, y + 1);
        }
    }

    /// After a search the backpointers are valid, and followed from the column
    /// that the search returned they describe the cheapest seam.
    pub proof fn lemma_settled_trace(&self, y: int)
        requires
            self.wf(),
            self.settled(),
            0 <= y < self.height,
        ensures
            self.links_valid(),
            self.trace_column(seam_column(self@, self.height - 1), y) == seam_column(self@, y),
        decreases self.height - y,
    {
        let g = self@;
        assert(grid_width(g) == self.width);
        assert(rectangular(g, grid_width(g)));
        assert forall|i: int, j: int| 1 <= j < self.height && 0 <= i < self.width implies {
            let e = #[trigger] self.cells[j][i];
            e.parent_y == j - 1 && e.parent_x < self.width
        } by {
            lemma_path_cost_bounds(g, i, j);
        }
        if y < self.height - 1 {
            self.lemma_settled_trace(y + 1);
            lemma_seam_is_connected(g, y + 1);
        }
    }
    /// Removes the path that the backpointers describe from the column `start`
    /// of the bottom row up to the top row: one cell from every row, the cells
    /// to its right moving one column to the left. A grid of a single column is
    /// left as it is and the request is refused.
    pub fn remove_seam(&mut self, start: usize) -> (res: Result<(), ResizeError>)
        requires
            old(self).wf(),
            old(self).links_valid(),
            start < old(self).width,
        ensures
            res is Err <==> old(self).width < 2,
            res is Err ==> res == Err::<(), ResizeError>(ResizeError::InvalidRequest) && *final(self) == *old(
                self,
            ),
            res is Ok ==> {
                &&& final(self).wf()
                &&& final(self).width == old(self).width - 1
                &&& final(self).height == old(self).height
                &&& final(self)@ == Seq::new(
                    old(self).height as nat,
                    |y: int| old(self)@[y].remove(old(self).trace_column(start as int, y)),
                )
            },
    {
        if self.width < 2 {
            return Err(ResizeError::InvalidRequest);
        }
        let ghost before = *self;
        let mut current_x: usize = start;
        let mut current_y: usize = self.height - 1;
        let mut done: usize = 0;
        while done < self.height
            invariant
                before.wf(),
                before.links_valid(),
                start < before.width,
                self.width == before.width,
                self.height == before.height,
                self.cells.len() == self.height,
                done <= self.height,
                done < self.height ==> current_y == self.height - 1 - done && current_x
                    == before.trace_column(start as int, current_y as int),
                forall|y: int|
                    self.height - done <= y < self.height ==> (#[trigger] self.cells[y])@
                        == before.cells[y]@.remove(before.trace_column(start as int, y)),
                forall|y: int| 0 <= y < self.height - done ==> #[trigger] self.cells[y] == before.cells[y],
            decreases self.height - done,
        {
            proof {
                before.lemma_trace_in_grid(start as int, current_y as int);
                if current_y > 0 {
                    before.lemma_trace_in_grid(start as int, current_y - 1);
                }
            }
            assert(self.cells[current_y as int] == before.cells[current_y as int]);
            let parent_x: usize = self.cells[current_y][current_x].parent_x;
            let parent_y: usize = self.cells[current_y][current_x].parent_y;
            self.cells[current_y].remove(current_x);
            current_y = parent_y;
            current_x = parent_x;
            done += 1;
        }
        self.width -= 1;
        proof {
            let target = Seq::new(
                before.height as nat,
                |y: int| before@[y].remove(before.trace_column(start as int, y)),
            );
            assert forall|y: int| 0 <= y < self.height implies (#[trigger] self.cells[y]).len() == self.width
                && self@[y] =~= target[y] by {
                before.lemma_trace_in_grid(start as int, y);
            }
            assert(self@ =~= target);
        }
        Ok(())
    }

    /// Finds the cheapest seam and removes it. A grid of a single column is
    /// refused, since its only column cannot be taken away.
    pub fn carve_seam(&mut self) -> (res: Result<(), ResizeError>)
        requires
            old(self).wf(),
        ensures
            res is Err <==> old(self).width < 2,
            res is Err ==> res == Err::<(), ResizeError>(ResizeError::InvalidRequest) && final(self)@ == old(
                self,
            )@ && final(self).wf() && final(self).width == old(self).width && final(self).height == old(
                self,
            ).height,
            res is Ok ==> {
                &&& final(self).wf()
                &&& final(self).width == old(self).width - 1
                &&& final(self).height == old(self).height
                &&& final(self)@ == without_seam(old(self)@)
            },
    {
        if self.width < 2 {
            return Err(ResizeError::InvalidRequest);
        }
        let start = self.find_seam();
        let ghost searched = *self;
        proof {
            searched.lemma_settled_trace(0);
        }
        let res = self.remove_seam(start);
        proof {
            let g = searched@;
            assert forall|y: int| 0 <= y < searched.height implies searched.trace_column(start as int, y)
                == seam_column(g, y) by {
                searched.lemma_settled_trace(y);
            }
            assert(self@ =~= without_seam(g));
        }
        res
    }
    /// Builds the grid of an image from its pixels and the edge map of the same
    /// size. An image without rows or without columns has no grid.
    pub fn new(image: &PpmFile, edges: &EdgeMap) -> (res: Result<EnergyGrid, ResizeError>)
        requires
            image.wf(),
            edges.wf(),
            edges.width == image.width,
            edges.height == image.height,
        ensures
            res is Err <==> image.width == 0 || image.height == 0,
            res is Err ==> res matches Err(ResizeError::DegenerateGrid),
            res matches Ok(grid) ==> {
                &&& grid.wf()
                &&& grid.width == image.width
                &&& grid.height == image.height
                &&& grid@ == grid_of(image.rows(), edges@, edges.unit as int)
            },
    {
        if image.width == 0 || image.height == 0 {
            return Err(ResizeError::DegenerateGrid);
        }
        let ghost target = grid_of(image.rows(), edges@, edges.unit as int);
        let mut cells: Vec<Vec<Energy>> = Vec::new();
        let mut y: usize = 0;
        while y < image.height
            invariant
                image.wf(),
                edges.wf(),
                edges.width == image.width,
                edges.height == image.height,
                target == grid_of(image.rows(), edges@, edges.unit as int),
                y <= image.height,
                cells.len() == y,
                forall|j: int| 0 <= j < y ==> (#[trigger] cells[j]).len() == image.width,
                forall|i: int, j: int|
                    0 <= j < y && 0 <= i < image.width ==> (#[trigger] cells[j][i]).model() == target[j][i],
            decreases image.height - y,
        {
            let mut row: Vec<Energy> = Vec::new();
            let mut x: usize = 0;
            while x < image.width
                invariant
                    image.wf(),
                    edges.wf(),
                    edges.width == image.width,
                    edges.height == image.height,
                    target == grid_of(image.rows(), edges@, edges.unit as int),
                    y < image.height,
                    x <= image.width,
                    row.len() == x,
                    forall|i: int| 0 <= i < x ==> (#[trigger] row[i]).model() == target[y as int][i],
                decreases image.width - x,
            {
                let intensity: u32 = edges.intensity(x, y);
                let rgb = image.pixel_at(x, y);
                row.push(Energy { value: 0, parent_x: x, parent_y: y, rgb, intensity });
                x += 1;
            }
            cells.push(row);
            y += 1;
        }
        let grid = EnergyGrid { cells, width: image.width, height: image.height };
        proof {
            assert forall|j: int| 0 <= j < grid@.len() implies #[trigger] grid@[j] =~= target[j] by {
                assert forall|i: int| 0 <= i < grid@[j].len() implies grid@[j][i] == target[j][i] by {
                    assert(grid.cells[j][i].model() == target[j][i]);
                }
            }
            assert(grid@ =~= target);
        }
        Ok(grid)
    }

    /// The colours of the grid's cells, row after row.
    pub fn pixels(&self) -> (out: Vec<Pixel>)
        requires
            self.wf(),
        ensures
            out.len() == self.width * self.height,
            forall|x: int, y: int|
                0 <= y < self.height && 0 <= x < self.width ==> out[flat_index(x, y, self.width as int)]
                    == (#[trigger] self@[y][x]).rgb,
    {
        let mut out: Vec<Pixel> = Vec::new();
        let mut y: usize = 0;
        while y < self.height
            invariant
                self.wf(),
                y <= self.height,
                out.len() == y * self.width,
                forall|i: int, j: int|
                    0 <= j < y && 0 <= i < self.width ==> out[flat_index(i, j, self.width as int)]
                        == (#[trigger] self@[j][i]).rgb,
            decreases self.height - y,
        {
            let mut x: usize = 0;
            while x < self.width
                invariant
                    self.wf(),
                    y < self.height,
                    x <= self.width,
                    out.len() == y * self.width + x,
                    forall|i: int, j: int|
                        0 <= j < y && 0 <= i < self.width ==> out[flat_index(i, j, self.width as int)]
                            == (#[trigger] self@[j][i]).rgb,
                    forall|i: int|
                        0 <= i < x ==> out[flat_index(i, y as int, self.width as int)] == (#[trigger] self@[y as int][i]).rgb,
                decreases self.width - x,
            {
                let ghost before = out@;
                out.push(self.cells[y][x].rgb);
                proof {
                    assert forall|i: int, j: int| 0 <= j < y && 0 <= i < self.width implies out[flat_index(
                        i,
                        j,
                        self.width as int,
                    )] == (#[trigger] self@[j][i]).rgb by {
                        lemma_flat_index_in_range(i, j, self.width as int, y as int);
                        assert(before[flat_index(i, j, self.width as int)] == self@[j][i].rgb);
                    }
                    assert(self@[y as int][x as int] == self.cells[y as int][x as int].model());
                }
                x += 1;
            }
            proof {
                assert((y + 1) * self.width == y * self.width + self.width) by (nonlinear_arith);
            }
            y += 1;
        }
        proof {
            assert(self.height * self.width == self.width * self.height) by (nonlinear_arith);
        }
        out
    }
}

} // verus!
