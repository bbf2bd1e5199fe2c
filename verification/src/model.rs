//! Shape rules for the tensors that go into and come out of the detector.
use vstd::prelude::*;
use crate::error::{describe_dims, dims_message, SuperPointError};

verus! {

/// Classes per cell: one for each pixel of the cell, and the dustbin.
pub const CHANNELS: usize = 65;

/// Pixels along one side of a cell.
pub const CELL_SIDE: usize = 8;

/// Whether `dims` is the shape `[N, 1, H, W]` of a batch of grey images.
pub open spec fn is_input_shape(dims: Seq<i64>) -> bool {
    dims.len() == 4 && dims[1] == 1
}

/// Whether the machine can count the pixels along a side of `cells` cells.
pub open spec fn countable(cells: int) -> bool {
    0 <= cells && cells * CELL_SIDE <= usize::MAX
}

/// The cell rows and columns of a raw heatmap of shape `dims`, if the shape
/// is `[65, Hc, Wc]` or `[1, 65, Hc, Wc]` and the machine can count the
/// pixels along both sides of the dense map.
pub open spec fn cell_grid_of(dims: Seq<i64>) -> Option<(int, int)> {
    let at: int = if dims.len() == 4 { 1 } else { 0 };
    if (dims.len() == 3 || (dims.len() == 4 && dims[0] == 1))
        && dims[at] == CHANNELS
        && countable(dims[at + 1] as int)
        && countable(dims[at + 2] as int) {
        Some((dims[at + 1] as int, dims[at + 2] as int))
    } else {
        None
    }
}

/// The message for an input tensor of the wrong shape.
pub open spec fn input_shape_message(dims: Seq<i64>) -> Seq<char> {
    dims_message("Expected input tensor shape [N, 1, H, W], got "@, dims, ""@)
}

/// The message for a raw heatmap of the wrong shape.
pub open spec fn heatmap_shape_message(dims: Seq<i64>) -> Seq<char> {
    dims_message(
        "Unexpected semi-heatmap dimensions: "@,
        dims,
        ". Expected [65, Hc, Wc] or [1, 65, Hc, Wc]."@,
    )
}

/// Whether `dims` is the shape `[H, W]` of one plane of values, each side
/// small enough for an image.
pub open spec fn is_plane_shape(dims: Seq<i64>) -> bool {
    dims.len() == 2 && 0 <= dims[0] <= u32::MAX && 0 <= dims[1] <= u32::MAX
}

/// Height and width of a plane of values, or an error that says
/// `complaint`.
pub fn plane_shape(dims: &Vec<i64>, complaint: &str) -> (shape: Result<(u32, u32), SuperPointError>)
    ensures
        is_plane_shape(dims@) ==> (shape matches Ok(got) && got.0 == dims@[0] && got.1 == dims@[1]),
        !is_plane_shape(dims@) ==> (shape matches Err(SuperPointError::ImageProcessing(m)) && m@
            == complaint@),
{
    if dims.len() == 2 && 0 <= dims[0] && dims[0] <= 0xffff_ffff && 0 <= dims[1] && dims[1]
        <= 0xffff_ffff {
        Ok((dims[0] as u32, dims[1] as u32))
    } else {
        Err(SuperPointError::ImageProcessing(complaint.to_string()))
    }
}

/// Accepts the shape of a batch of grey images, rejects every other shape.
pub fn check_input_shape(dims: &Vec<i64>) -> (checked: Result<(), SuperPointError>)
    ensures
        is_input_shape(dims@) ==> checked == Ok::<(), SuperPointError>(()),
        !is_input_shape(dims@) ==> (checked matches Err(SuperPointError::Inference(m))
            && m@ == input_shape_message(dims@)),
{
    if dims.len() == 4 && dims[1] == 1 {
        Ok(())
    } else {
        Err(
            SuperPointError::Inference(
                describe_dims("Expected input tensor shape [N, 1, H, W], got ", dims, ""),
            ),
        )
    }
}

/// The cell rows and columns of a raw heatmap, or why its shape is refused.
pub fn cell_grid_shape(dims: &Vec<i64>) -> (shape: Result<(usize, usize), SuperPointError>)
    ensures
        match cell_grid_of(dims@) {
            Some((rows, cols)) => (shape matches Ok(got) && got.0 == rows && got.1 == cols),
            None => (shape matches Err(SuperPointError::Inference(m))
                && m@ == heatmap_shape_message(dims@)),
        },
{
    let rank = dims.len();
    if rank == 3 || (rank == 4 && dims[0] == 1) {
        let at: usize = if rank == 4 { 1 } else { 0 };
        let channels = dims[at];
        let rows = dims[at + 1];
        let cols = dims[at + 2];
        if channels == CHANNELS as i64 && side_is_countable(rows) && side_is_countable(cols) {
            return Ok((rows as usize, cols as usize));
        }
    }
    Err(
        SuperPointError::Inference(
            describe_dims(
                "Unexpected semi-heatmap dimensions: ",
                dims,
                ". Expected [65, Hc, Wc] or [1, 65, Hc, Wc].",
            ),
        ),
    )
}

/// Whether the machine can count the pixels along a side of `cells` cells.
fn side_is_countable(cells: i64) -> (fits: bool)
    ensures
        fits == countable(cells as int),
{
    cells >= 0 && (cells as u128) * 8 <= usize::MAX as u128
}

/// A heatmap with cells along both sides whose values a vector holds has
/// sides that the machine can count.
pub proof fn lemma_filled_sides_are_countable(rows: int, cols: int, values: nat)
    requires
        1 <= rows,
        1 <= cols,
        values == 65 * (rows * cols),
        values <= usize::MAX,
    ensures
        countable(rows),
        countable(cols),
{
    assert(rows <= rows * cols && cols <= rows * cols) by (nonlinear_arith)
        requires
            1 <= rows,
            1 <= cols,
    ;
}

} // verus!
