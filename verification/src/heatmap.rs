//! The dense probability map: how it is put together from the detector's
//! cell-encoded output, and how candidates are read off it.
use vstd::prelude::*;
use vstd::arithmetic::div_mod::{lemma_fundamental_div_mod, lemma_fundamental_div_mod_converse};
use crate::error::{describe_dims, dims_message, SuperPointError};
use crate::keypoint::{Keypoint, UNITS_PER_PIXEL};
use crate::model::{cell_grid_of, cell_grid_shape, heatmap_shape_message};
use crate::score::is_probability;

verus! {

/// The dense map for `rows` by `cols` cells whose per-cell probabilities are
/// `probs`, laid out channel by channel, each channel row by row.
///
/// Pixel `(row, col)` of the map is class `(row % 8) * 8 + col % 8` of cell
/// `(row / 8, col / 8)`. The last class of each cell, the dustbin, is left out.
pub open spec fn depth_to_space(probs: Seq<u32>, rows: int, cols: int) -> Seq<u32> {
    Seq::new(
        (rows * 8 * (cols * 8)) as nat,
        |p: int|
            {
                let row = p / (cols * 8);
                let col = p % (cols * 8);
                probs[((row % 8) * 8 + col % 8) * (rows * cols) + (row / 8) * cols + col / 8]
            },
    )
}

/// Whether `values` probabilities fill a raw heatmap of shape `dims`.
pub open spec fn decodable(dims: Seq<i64>, values: nat) -> bool {
    cell_grid_of(dims) matches Some((rows, cols)) && values == 65 * (rows * cols)
}

/// The message for probabilities that do not fill the shape they come with.
pub open spec fn data_length_message(dims: Seq<i64>) -> Seq<char> {
    dims_message("Heatmap data does not fill a tensor of dimensions "@, dims, ""@)
}

/// The keypoint that stands for cell `p` of a map of the given width, cells
/// counted row by row.
pub open spec fn cell_keypoint(cells: Seq<u32>, width: int, p: int) -> Keypoint {
    Keypoint {
        x: ((p % width) * UNITS_PER_PIXEL) as u128,
        y: ((p / width) * UNITS_PER_PIXEL) as u128,
        score: cells[p],
        scale: None,
        angle: None,
    }
}

/// One keypoint for every cell of the map, row by row.
pub open spec fn grid_keypoints(cells: Seq<u32>, width: int) -> Seq<Keypoint> {
    Seq::new(cells.len(), |p: int| cell_keypoint(cells, width, p))
}

/// The test that a keypoint's score is strictly above `threshold`.
pub open spec fn exceeds(threshold: u32) -> spec_fn(Keypoint) -> bool {
    |k: Keypoint| k.score > threshold
}

/// The candidates of a map: the keypoints of the cells whose value is
/// strictly above `threshold`, row by row.
pub open spec fn candidates_of(cells: Seq<u32>, width: int, threshold: u32) -> Seq<Keypoint> {
    grid_keypoints(cells, width).filter(exceeds(threshold))
}

/// A dense map of probability keys, `width` by `height`, stored row by row.
pub struct ProbabilityGrid {
    width: usize,
    height: usize,
    cells: Vec<u32>,
}

impl View for ProbabilityGrid {
    type V = Seq<u32>;

    closed spec fn view(&self) -> Seq<u32> {
        self.cells@
    }
}

impl ProbabilityGrid {
    #[verifier::type_invariant]
    spec fn well_formed(self) -> bool {
        self.cells@.len() == self.width * self.height
    }

    pub closed spec fn spec_width(&self) -> usize {
        self.width
    }

    pub closed spec fn spec_height(&self) -> usize {
        self.height
    }

    /// A map of the given size over `cells`, if they fill it.
    pub fn new(width: usize, height: usize, cells: Vec<u32>) -> (made: Option<ProbabilityGrid>)
        ensures
            match made {
                Some(grid) => {
                    &&& grid@ == cells@
                    &&& grid.spec_width() == width
                    &&& grid.spec_height() == height
                },
                None => true,
            },
            made is Some <==> cells@.len() == width * height,
    {
        assert(width * height <= 0xffff_ffff_ffff_ffff * 0xffff_ffff_ffff_ffff) by (nonlinear_arith)
            requires
                width <= 0xffff_ffff_ffff_ffff,
                height <= 0xffff_ffff_ffff_ffff,
        ;
        if cells.len() as u128 != (width as u128) * (height as u128) {
            return None;
        }
        Some(ProbabilityGrid { width, height, cells })
    }

    /// Puts the dense map together from the per-cell probabilities of a raw
    /// heatmap of shape `dims`: drops each cell's dustbin class and spreads
    /// the other sixty-four over the cell's eight by eight pixels.
    pub fn decode(dims: &Vec<i64>, probs: &Vec<u32>) -> (decoded: Result<
        ProbabilityGrid,
        SuperPointError,
    >)
        ensures
            decoded is Ok <==> decodable(dims@, probs@.len()),
            decoded matches Ok(grid) ==> {
                &&& cell_grid_of(dims@) matches Some((rows, cols))
                &&& grid.spec_height() == rows * 8
                &&& grid.spec_width() == cols * 8
                &&& grid@ == depth_to_space(probs@, rows, cols)
            },
            decoded matches Err(e) ==> {
                &&& e matches SuperPointError::Inference(m)
                &&& cell_grid_of(dims@) is None ==> m@ == heatmap_shape_message(dims@)
                &&& cell_grid_of(dims@) is Some ==> m@ == data_length_message(dims@)
            },
    {
        let (rows, cols) = match cell_grid_shape(dims) {
            Ok(shape) => shape,
            Err(e) => {
                return Err(e);
            },
        };
        assert(rows * cols <= 0x1fff_ffff_ffff_ffff * 0x1fff_ffff_ffff_ffff) by (nonlinear_arith)
            requires
                rows <= 0x1fff_ffff_ffff_ffff,
                cols <= 0x1fff_ffff_ffff_ffff,
        ;
        let plane: u128 = (rows as u128) * (cols as u128);
        let count = probs.len();
        if plane > 0xffff_ffff_ffff_ffff || count as u128 != 65 * plane {
            return Err(
                SuperPointError::Inference(
                    describe_dims("Heatmap data does not fill a tensor of dimensions ", dims, ""),
                ),
            );
        }
        let width: usize = cols * 8;
        let height: usize = rows * 8;
        let per_channel: usize = plane as usize;
        let total: usize = (64 * plane) as usize;
        assert(total == height * width) by (nonlinear_arith)
            requires
                total == 64 * (rows * cols),
                height == rows * 8,
                width == cols * 8,
        ;
        let ghost map = depth_to_space(probs@, rows as int, cols as int);
        let mut cells: Vec<u32> = Vec::with_capacity(total);
        let mut p: usize = 0;
        while p < total
            invariant
                p <= total,
                total == height * width,
                total == 64 * per_channel,
                per_channel == rows * cols,
                width == cols * 8,
                height == rows * 8,
                probs@.len() == 65 * per_channel,
                map == depth_to_space(probs@, rows as int, cols as int),
                cells@ == map.take(p as int),
            decreases total - p,
        {
            assert(width > 0) by (nonlinear_arith)
                requires
                    p < height * width,
                    width >= 0,
            ;
            let row: usize = p / width;
            let col: usize = p % width;
            proof {
                lemma_source_in_range(rows as int, cols as int, p as int);
            }
            let channel: usize = (row % 8) * 8 + col % 8;
            let src: usize = channel * per_channel + (row / 8) * cols + col / 8;
            cells.push(probs[src]);
            assert(map.take(p as int).push(map[p as int]) =~= map.take(p + 1));
            p = p + 1;
        }
        assert(map.len() == total) by (nonlinear_arith)
            requires
                map.len() == (rows * 8 * (cols * 8)) as nat,
                total == height * width,
                height == rows * 8,
                width == cols * 8,
        ;
        assert(map.take(total as int) =~= map);
        assert(cells@.len() == width * height) by (nonlinear_arith)
            requires
                cells@.len() == height * width,
        ;
        Ok(ProbabilityGrid { width, height, cells })
    }

    #[verifier::when_used_as_spec(spec_width)]
    pub fn width(&self) -> (w: usize)
        ensures
            w == self.spec_width(),
    {
        self.width
    }

    #[verifier::when_used_as_spec(spec_height)]
    pub fn height(&self) -> (h: usize)
        ensures
            h == self.spec_height(),
    {
        self.height
    }

    /// The keypoints of the cells whose value is strictly above `threshold`,
    /// in the order of a scan row by row.
    pub fn candidates(&self, threshold: u32) -> (found: Vec<Keypoint>)
        ensures
            found@ == candidates_of(self@, self.spec_width() as int, threshold),
    {
        proof {
            use_type_invariant(self);
        }
        let ghost all = grid_keypoints(self@, self.width as int);
        let mut found: Vec<Keypoint> = Vec::new();
        let mut p: usize = 0;
        let mut row: usize = 0;
        let mut col: usize = 0;
        assert(all.take(0).filter(exceeds(threshold)) =~= Seq::<Keypoint>::empty()) by {
            reveal(Seq::filter);
        }
        assert(0 < self.cells@.len() ==> 0 < self.width) by (nonlinear_arith)
            requires
                self.cells@.len() == self.width * self.height,
        ;
        while p < self.cells.len()
            invariant
                self.cells@.len() == self.width * self.height,
                all == grid_keypoints(self@, self.width as int),
                p <= self.cells@.len(),
                p == row * self.width + col,
                row <= self.height,
                p < self.cells@.len() ==> col < self.width,
                found@ == all.take(p as int).filter(exceeds(threshold)),
            decreases self.cells@.len() - p,
        {
            let value = self.cells[p];
            proof {
                assert(row < self.height) by (nonlinear_arith)
                    requires
                        p == row * self.width + col,
                        p < self.width * self.height,
                        row <= self.height,
                        col >= 0,
                ;
                assert(p == self.width * row + col) by (nonlinear_arith)
                    requires
                        p == row * self.width + col,
                ;
                lemma_fundamental_div_mod_converse(p as int, self.width as int, row as int, col as int);
                assert(all.take(p as int).push(all[p as int]) =~= all.take(p + 1));
                all.take(p as int).lemma_filter_push(all[p as int], exceeds(threshold));
            }
            if value > threshold {
                found.push(
                    Keypoint::new(
                        col as u128 * UNITS_PER_PIXEL as u128,
                        row as u128 * UNITS_PER_PIXEL as u128,
                        value,
                    ),
                );
            }
            p = p + 1;
            col = col + 1;
            if col == self.width {
                col = 0;
                row = row + 1;
                assert(p == row * self.width + col) by (nonlinear_arith)
                    requires
                        p == (row - 1) * self.width + self.width,
                        col == 0,
                ;
            }
            assert(p < self.cells@.len() ==> row < self.height) by (nonlinear_arith)
                requires
                    p == row * self.width + col,
                    self.cells@.len() == self.width * self.height,
                    col >= 0,
                    self.width >= 0,
            ;
        }
        assert(all.take(p as int) =~= all);
        found
    }

    /// The value at `row` and `col`, if the map has such a pixel.
    pub fn get(&self, row: usize, col: usize) -> (value: Option<u32>)
        ensures
            value is Some <==> row < self.spec_height() && col < self.spec_width(),
            value matches Some(v) ==> 0 <= row * self.spec_width() + col < self@.len() && v
                == self@[row * self.spec_width() + col],
    {
        proof {
            use_type_invariant(self);
        }
        let count = self.cells.len();
        if row < self.height && col < self.width {
            assert(0 <= row * self.width && row * self.width + col < count) by (nonlinear_arith)
                requires
                    row < self.height,
                    col < self.width,
                    count == self.width * self.height,
            ;
            Some(self.cells[row * self.width + col])
        } else {
            None
        }
    }

    /// The cells, row by row.
    pub fn cells(&self) -> (cells: &Vec<u32>)
        ensures
            cells@ == self@,
            cells@.len() == self.spec_width() * self.spec_height(),
    {
        proof {
            use_type_invariant(self);
        }
        &self.cells
    }
}

/// Where a class of a cell lands: class `r * 8 + c` of cell `(i, j)` is pixel
/// `(i * 8 + r, j * 8 + c)` of the dense map.
pub proof fn lemma_depth_to_space_places(probs: Seq<u32>, rows: int, cols: int, i: int, j: int, r: int, c: int)
    requires
        0 <= i < rows,
        0 <= j < cols,
        0 <= r < 8,
        0 <= c < 8,
    ensures
        0 <= (i * 8 + r) * (cols * 8) + (j * 8 + c) < depth_to_space(probs, rows, cols).len(),
        depth_to_space(probs, rows, cols)[(i * 8 + r) * (cols * 8) + (j * 8 + c)] == probs[(r * 8
            + c) * (rows * cols) + i * cols + j],
{
    let width = cols * 8;
    let row = i * 8 + r;
    let col = j * 8 + c;
    let p = row * width + col;
    assert(0 <= p < rows * 8 * width) by (nonlinear_arith)
        requires
            p == row * width + col,
            0 <= row < rows * 8,
            0 <= col < width,
    ;
    assert(p == width * row + col) by (nonlinear_arith)
        requires
            p == row * width + col,
    ;
    lemma_fundamental_div_mod_converse(p, width, row, col);
    lemma_fundamental_div_mod_converse(row, 8, i, r);
    lemma_fundamental_div_mod_converse(col, 8, j, c);
}

/// Every heatmap of shape `[65, Hc, Wc]`, or `[1, 65, Hc, Wc]`, with cells
/// along both sides is decoded, whatever its size, if its values are as many
/// as the shape says.
pub proof fn lemma_filled_heatmap_is_decodable(dims: Seq<i64>, values: nat)
    requires
        dims.len() == 3 || (dims.len() == 4 && dims[0] == 1),
        dims[dims.len() - 3] == 65,
        dims[dims.len() - 2] >= 1,
        dims[dims.len() - 1] >= 1,
        values == 65 * (dims[dims.len() - 2] * dims[dims.len() - 1]),
        values <= usize::MAX,
    ensures
        decodable(dims, values),
        cell_grid_of(dims) == Some((dims[dims.len() - 2] as int, dims[dims.len() - 1] as int)),
{
    crate::model::lemma_filled_sides_are_countable(
        dims[dims.len() - 2] as int,
        dims[dims.len() - 1] as int,
        values,
    );
}

/// Decoding moves values and makes none: if every class of every cell has a
/// probability, so has every pixel of the dense map.
pub proof fn lemma_decoding_keeps_probabilities(probs: Seq<u32>, rows: int, cols: int)
    requires
        0 <= rows,
        0 <= cols,
        probs.len() == 65 * (rows * cols),
        forall|i: int| 0 <= i < probs.len() ==> is_probability(#[trigger] probs[i]),
    ensures
        forall|p: int| 0 <= p < depth_to_space(probs, rows, cols).len() ==> is_probability(
            #[trigger] depth_to_space(probs, rows, cols)[p],
        ),
{
    assert forall|p: int| 0 <= p < depth_to_space(probs, rows, cols).len() implies is_probability(
        #[trigger] depth_to_space(probs, rows, cols)[p],
    ) by {
        lemma_source_in_range(rows, cols, p);
    }
}

/// A candidate has the value of its cell, and lies on the map.
pub proof fn lemma_candidates_come_from(cells: Seq<u32>, width: int, threshold: u32, a: int)
    requires
        0 <= a < candidates_of(cells, width, threshold).len(),
    ensures
        candidates_of(cells, width, threshold)[a].score > threshold,
        exists|p: int| 0 <= p < cells.len() && candidates_of(cells, width, threshold)[a] == cell_keypoint(cells, width, p),
{
    let all = grid_keypoints(cells, width);
    all.lemma_filter_pred(exceeds(threshold), a);
    all.lemma_filter_contains_rev(exceeds(threshold), candidates_of(cells, width, threshold)[a]);
    let p = choose|p: int| 0 <= p < all.len() && all[p] == candidates_of(cells, width, threshold)[a];
    assert(all[p] == cell_keypoint(cells, width, p));
}

/// Raising the threshold never adds a candidate.
pub proof fn lemma_threshold_monotone(cells: Seq<u32>, width: int, low: u32, high: u32)
    requires
        low <= high,
    ensures
        candidates_of(cells, width, high).len() <= candidates_of(cells, width, low).len(),
{
    lemma_stricter_filter_is_shorter(grid_keypoints(cells, width), low, high);
}

/// A filter that lets less through gives no more.
proof fn lemma_stricter_filter_is_shorter(s: Seq<Keypoint>, low: u32, high: u32)
    requires
        low <= high,
    ensures
        s.filter(exceeds(high)).len() <= s.filter(exceeds(low)).len(),
    decreases s.len(),
{
    reveal(Seq::filter);
    if s.len() > 0 {
        lemma_stricter_filter_is_shorter(s.drop_last(), low, high);
    }
}

/// Every pixel of the map has its source among the first sixty-four classes.
proof fn lemma_source_in_range(rows: int, cols: int, p: int)
    requires
        0 <= rows,
        0 <= cols,
        0 <= p < rows * 8 * (cols * 8),
    ensures
        cols > 0,
        0 <= p / (cols * 8) < rows * 8,
        0 <= p % (cols * 8) < cols * 8,
        0 <= p / (cols * 8) / 8 < rows,
        0 <= p % (cols * 8) / 8 < cols,
        0 <= (p / (cols * 8) / 8) * cols + p % (cols * 8) / 8 < rows * cols,
        0 <= ((p / (cols * 8) % 8) * 8 + p % (cols * 8) % 8) * (rows * cols),
        ((p / (cols * 8) % 8) * 8 + p % (cols * 8) % 8) * (rows * cols) + (p / (cols * 8) / 8)
            * cols + p % (cols * 8) / 8 < 64 * (rows * cols),
{
    assert(cols > 0) by (nonlinear_arith)
        requires
            0 <= rows,
            0 <= cols,
            0 <= p < rows * 8 * (cols * 8),
    ;
    let width = cols * 8;
    let row = p / width;
    let col = p % width;
    lemma_fundamental_div_mod(p, width);
    assert(0 <= row < rows * 8) by (nonlinear_arith)
        requires
            p == width * row + col,
            0 <= col < width,
            0 <= p < rows * 8 * width,
    ;
    let i = row / 8;
    let j = col / 8;
    assert(0 <= i * cols + j < rows * cols) by (nonlinear_arith)
        requires
            0 <= i < rows,
            0 <= j < cols,
    ;
    let channel = (row % 8) * 8 + col % 8;
    assert(0 <= channel * (rows * cols) && channel * (rows * cols) + (i * cols + j) < 64 * (rows
        * cols)) by (nonlinear_arith)
        requires
            0 <= channel <= 63,
            0 <= i * cols + j < rows * cols,
    ;
}

} // verus!
