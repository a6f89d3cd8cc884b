//! The renderer's work plan: one unit of work per image row, each with its
//! own generator seed, so that the image does not depend on how many
//! workers run the rows or in which order they finish.
use vstd::prelude::*;

verus! {

/// The camera scanline that image row `row` samples. Image rows run top to
/// bottom while the camera's vertical coordinate runs bottom to top.
pub open spec fn spec_scanline_of_row(height: u32, row: u32) -> int {
    height - 1 - row
}

/// The seed of the generator that image row `row` draws from, for a render
/// started with `seed`.
pub open spec fn spec_row_seed(seed: u64, row: u32) -> u64 {
    seed ^ (row as u64)
}

/// One unit of work: the image row it fills, the camera scanline that row
/// samples, and the seed of the generator it draws its samples from.
#[derive(Clone, Copy, Debug, PartialEq, Eq, Structural)]
pub struct RowJob {
    pub row: u32,
    pub scanline: u32,
    pub seed: u64,
}

/// The job that fills image row `row` of an image `height` rows tall.
pub open spec fn spec_row_job(height: u32, seed: u64, row: u32) -> RowJob {
    RowJob {
        row,
        scanline: spec_scanline_of_row(height, row) as u32,
        seed: spec_row_seed(seed, row),
    }
}

/// Returns the camera scanline sampled by image row `row`.
pub fn scanline_of_row(height: u32, row: u32) -> (r: u32)
    requires
        row < height,
    ensures
        r == spec_scanline_of_row(height, row),
{
    height - 1 - row
}

/// Returns the seed of the generator that image row `row` draws from.
pub fn row_seed(seed: u64, row: u32) -> (r: u64)
    ensures
        r == spec_row_seed(seed, row),
{
    seed ^ (row as u64)
}

/// Two different rows of one render never share a generator seed, so no two
/// rows draw the same sample stream.
pub proof fn lemma_row_seeds_distinct(seed: u64, a: u32, b: u32)
    requires
        a != b,
    ensures
        spec_row_seed(seed, a) != spec_row_seed(seed, b),
{
    let x = a as u64;
    let y = b as u64;
    assert(x != y);
    assert(x != y ==> seed ^ x != seed ^ y) by (bit_vector);
}

/// Plans the render of an image `height` rows tall: one job per row, in row
/// order.
pub fn plan_rows(height: u32, seed: u64) -> (jobs: Vec<RowJob>)
    ensures
        jobs@.len() == height,
        forall|y: int| 0 <= y < height ==> #[trigger] jobs@[y] == spec_row_job(height, seed, y as u32),
{
    let mut jobs: Vec<RowJob> = Vec::new();
    let mut row: u32 = 0;
    while row < height
        invariant
            row <= height,
            jobs@.len() == row,
            forall|y: int| 0 <= y < row ==> #[trigger] jobs@[y] == spec_row_job(height, seed, y as u32),
        decreases height - row,
    {
        let job = RowJob { row, scanline: scanline_of_row(height, row), seed: row_seed(seed, row) };
        jobs.push(job);
        row = row + 1;
    }
    jobs
}

/// The number of worker threads to ask the runtime for: a positive request
/// is taken as it is, zero leaves the choice to the runtime (`None`).
pub fn worker_threads(requested: usize) -> (r: Option<usize>)
    ensures
        requested == 0 ==> r is None,
        requested > 0 ==> r == Some(requested),
{
    if requested > 0 {
        Some(requested)
    } else {
        None
    }
}

} // verus!
