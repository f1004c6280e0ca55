//! The grayscale raster the renderer fills: one byte per pixel, row-major,
//! top row first.

use vstd::prelude::*;

verus! {

/// A contiguous grayscale raster together with its dimensions.
/// Invariant of every rendered buffer: `buf` holds `rows * cols` bytes.
pub struct ImageBuffer {
    pub rows: usize,
    pub cols: usize,
    pub buf: Vec<u8>,
}

impl ImageBuffer {
    /// Allocate a zero-filled raster of `rows * cols` bytes.
    pub fn new(rows: usize, cols: usize) -> (r: ImageBuffer)
        requires
            rows * cols <= usize::MAX,
        ensures
            r.rows == rows,
            r.cols == cols,
            r.buf@.len() == rows * cols,
            forall|i: int| 0 <= i < r.buf@.len() ==> r.buf@[i] == 0u8,
    {
        let n = rows * cols;
        let mut buf: Vec<u8> = Vec::new();
        while buf.len() < n
            invariant
                buf@.len() <= n,
                forall|i: int| 0 <= i < buf@.len() ==> buf@[i] == 0u8,
            decreases n - buf@.len(),
        {
            buf.push(0);
        }
        ImageBuffer { rows, cols, buf }
    }
}

} // verus!
