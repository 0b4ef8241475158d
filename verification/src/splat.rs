//! The four-channel texture weight map.

use vstd::prelude::*;

verus! {

/// A four-channel (RGBA) texture weight map: one `[r, g, b, a]` weight
/// quadruple per cell, row-major (`data[z * width + x]`), for a terrain
/// splat shader.
#[derive(Clone, Debug)]
pub struct WeightMap {
    /// Row-major RGBA weights.
    pub data: Vec<[u8; 4]>,
    /// Number of columns.
    pub width: usize,
    /// Number of rows.
    pub height: usize,
}

/// The pixel of a fresh weight map: all weight in the first channel.
pub open spec fn first_channel_pixel() -> [u8; 4] {
    [255u8, 0u8, 0u8, 0u8]
}

impl WeightMap {
    /// A `width × height` weight map with all weight in the first channel
    /// (R) of every pixel.
    pub fn new(width: usize, height: usize) -> (wm: Self)
        requires
            width * height <= usize::MAX,
        ensures
            wm.width == width,
            wm.height == height,
            wm.data@.len() == width * height,
            forall|i: int| 0 <= i < wm.data@.len() ==> #[trigger] wm.data@[i] == first_channel_pixel(),
    {
        let n = width * height;
        let mut data: Vec<[u8; 4]> = Vec::new();
        let mut i: usize = 0;
        while i < n
            invariant
                i <= n,
                data@.len() == i,
                forall|j: int| 0 <= j < i ==> #[trigger] data@[j] == first_channel_pixel(),
            decreases n - i,
        {
            data.push([255u8, 0u8, 0u8, 0u8]);
            i += 1;
        }
        WeightMap { data, width, height }
    }
}

} // verus!
