use vstd::prelude::*;

use crate::geometry::Color;

verus! {

/// Index arithmetic for a row-major grid: a cell's flat index is in range.
pub(crate) proof fn lemma_grid_index_bounds(w: int, h: int, x: int, y: int)
    by (nonlinear_arith)
    requires
        0 <= x < w,
        0 <= y < h,
    ensures
        0 <= y * w + x < w * h,
        w <= w * h,
        h <= w * h,
{
}

/// Distinct in-range cells of one row-major grid have distinct flat indices.
pub(crate) proof fn lemma_grid_index_injective(w: int, x1: int, y1: int, x2: int, y2: int)
    by (nonlinear_arith)
    requires
        0 <= x1 < w,
        0 <= x2 < w,
        y1 * w + x1 == y2 * w + x2,
    ensures
        x1 == x2 && y1 == y2,
{
}

/// A fixed-size 2D grid of colors, stored row-major, top-to-bottom and
/// left-to-right. Writes outside the grid are silently absorbed; reads
/// outside the grid return no value.
pub struct Framebuffer {
    data: Vec<Color>,
    width: u32,
    height: u32,
}

impl Framebuffer {
    /// The backing vector holds exactly one sample per grid cell.
    pub closed spec fn wf(self) -> bool {
        self.data@.len() == (self.width as int) * (self.height as int)
    }

    pub closed spec fn spec_width(self) -> int {
        self.width as int
    }

    pub closed spec fn spec_height(self) -> int {
        self.height as int
    }

    pub open spec fn in_bounds(self, x: int, y: int) -> bool {
        0 <= x < self.spec_width() && 0 <= y < self.spec_height()
    }

    /// The color stored at (x, y); meaningful only when `in_bounds(x, y)`.
    pub closed spec fn pixel(self, x: int, y: int) -> Color {
        self.data@[y * self.spec_width() + x]
    }

    /// Two framebuffers have the same dimensions.
    pub open spec fn same_size(self, other: Framebuffer) -> bool {
        self.spec_width() == other.spec_width() && self.spec_height() == other.spec_height()
    }

    pub fn new(width: u32, height: u32) -> (fb: Framebuffer)
        requires
            (width as int) * (height as int) <= usize::MAX as int,
        ensures
            fb.wf(),
            fb.spec_width() == width as int,
            fb.spec_height() == height as int,
            forall|x: int, y: int|
                fb.in_bounds(x, y) ==> fb.pixel(x, y) == (Color { r: 0, g: 0, b: 0 }),
    {
        let total: usize = (width as usize) * (height as usize);
        let mut data: Vec<Color> = Vec::new();
        let mut k: usize = 0;
        while k < total
            invariant
                k <= total,
                data@.len() == k as int,
                forall|i: int| 0 <= i < k ==> data@[i] == (Color { r: 0, g: 0, b: 0 }),
            decreases total - k,
        {
            data.push(Color { r: 0, g: 0, b: 0 });
            k = k + 1;
        }
        let fb = Framebuffer { data, width, height };
        proof {
            assert forall|x: int, y: int| fb.in_bounds(x, y) implies fb.pixel(x, y) == (Color {
                r: 0,
                g: 0,
                b: 0,
            }) by {
                lemma_grid_index_bounds(width as int, height as int, x, y);
            }
        }
        fb
    }

    pub fn width(&self) -> (w: u32)
        ensures
            w as int == self.spec_width(),
    {
        self.width
    }

    pub fn height(&self) -> (h: u32)
        ensures
            h as int == self.spec_height(),
    {
        self.height
    }

    /// Write `color` at (x, y) if the cell is inside the grid; otherwise do
    /// nothing. Out-of-range coordinates are an expected condition, never an
    /// error.
    pub fn set_pixel(&mut self, x: i32, y: i32, color: Color)
        requires
            old(self).wf(),
        ensures
            final(self).wf(),
            final(self).same_size(*old(self)),
            forall|i: int, j: int|
                old(self).in_bounds(i, j) ==> final(self).pixel(i, j) == (if i == x as int && j
                    == y as int {
                    color
                } else {
                    old(self).pixel(i, j)
                }),
    {
        self.set_pixel_wide(x as i128, y as i64, color);
    }

    /// Bounds-checked write taking wide coordinates, so that callers may hand
    /// over intermediate values that do not fit in `i32`.
    pub(crate) fn set_pixel_wide(&mut self, x: i128, y: i64, color: Color)
        requires
            old(self).wf(),
        ensures
            final(self).wf(),
            final(self).same_size(*old(self)),
            forall|i: int, j: int|
                old(self).in_bounds(i, j) ==> final(self).pixel(i, j) == (if i == x as int && j
                    == y as int {
                    color
                } else {
                    old(self).pixel(i, j)
                }),
    {
        if x >= 0 && y >= 0 && x < self.width as i128 && y < self.height as i64 {
            proof {
                lemma_grid_index_bounds(
                    self.width as int,
                    self.height as int,
                    x as int,
                    y as int,
                );
            }
            let n: usize = self.data.len();
            assert(y * self.spec_width() + x < n as int);
            let idx: usize = (y as usize) * (self.width as usize) + (x as usize);
            self.data[idx] = color;
            proof {
                assert forall|i: int, j: int| old(self).in_bounds(i, j) implies self.pixel(i, j)
                    == (if i == x as int && j == y as int {
                    color
                } else {
                    old(self).pixel(i, j)
                }) by {
                    lemma_grid_index_bounds(self.width as int, self.height as int, i, j);
                    if j * self.spec_width() + i == idx as int {
                        lemma_grid_index_injective(
                            self.width as int,
                            i,
                            j,
                            x as int,
                            y as int,
                        );
                    }
                }
            }
        }
    }

    /// Read the color at (x, y), or `None` when the cell is outside the grid.
    pub fn get_pixel(&self, x: i32, y: i32) -> (r: Option<Color>)
        requires
            self.wf(),
        ensures
            r == (if self.in_bounds(x as int, y as int) {
                Some(self.pixel(x as int, y as int))
            } else {
                None::<Color>
            }),
    {
        if x >= 0 && y >= 0 && (x as i64) < self.width as i64 && (y as i64) < self.height as i64 {
            proof {
                lemma_grid_index_bounds(self.width as int, self.height as int, x as int, y as int);
            }
            let n: usize = self.data.len();
            assert((y as int) * self.spec_width() + (x as int) < n as int);
            let idx: usize = (y as usize) * (self.width as usize) + (x as usize);
            Some(self.data[idx])
        } else {
            None
        }
    }
}

} // verus!
