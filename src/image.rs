use vstd::prelude::*;
use crate::model::Color;

verus! {

/// A decoded raster: `pixels` holds the rows top to bottom, each left to right.
#[derive(Debug)]
pub struct Image {
    pub width: usize,
    pub height: usize,
    pub pixels: Vec<Color>,
}

/// The pixel at column `x` of row `y` of a grid `width` pixels wide.
pub open spec fn pixel_at(pixels: Seq<Color>, width: int, x: int, y: int) -> Color {
    pixels[y * width + x]
}

impl Image {
    /// The grid holds exactly `width * height` pixels.
    pub open spec fn wf(&self) -> bool {
        self.pixels@.len() == self.width * self.height
    }

    /// The rows of the image, top to bottom, each `width` pixels long.
    pub fn scanlines(&self) -> (r: Vec<Vec<Color>>)
        requires
            self.wf(),
        ensures
            r@.len() == self.height,
            forall|y: int|
                0 <= y < self.height ==> (#[trigger] r@[y])@ == self.pixels@.subrange(
                    y * self.width,
                    (y + 1) * self.width,
                ),
    {
        let total = self.pixels.len();
        let mut rows: Vec<Vec<Color>> = Vec::new();
        let mut y: usize = 0;
        let mut start: usize = 0;
        while y < self.height
            invariant
                self.wf(),
                total == self.pixels@.len(),
                y <= self.height,
                start == y * self.width,
                rows@.len() == y,
                forall|k: int|
                    0 <= k < y ==> (#[trigger] rows@[k])@ == self.pixels@.subrange(
                        k * self.width,
                        (k + 1) * self.width,
                    ),
            decreases self.height - y,
        {
            assert(start + self.width <= self.pixels@.len()) by (nonlinear_arith)
                requires
                    start == y * self.width,
                    y < self.height,
                    self.pixels@.len() == self.width * self.height,
            ;
            assert(start + self.width == (y + 1) * self.width) by (nonlinear_arith)
                requires
                    start == y * self.width,
            ;
            let mut row: Vec<Color> = Vec::new();
            let mut x: usize = 0;
            while x < self.width
                invariant
                    x <= self.width,
                    total == self.pixels@.len(),
                    start + self.width <= self.pixels@.len(),
                    row@ == self.pixels@.subrange(start as int, start + x),
                decreases self.width - x,
            {
                row.push(self.pixels[start + x]);
                x = x + 1;
                proof {
                    assert(row@ =~= self.pixels@.subrange(start as int, start + x));
                }
            }
            rows.push(row);
            y = y + 1;
            start = start + self.width;
        }
        rows
    }

    /// Keeps every second row and every second column, starting from the
    /// first: the result is `width / 2` by `height / 2`, and its pixel at
    /// `(x, y)` is this image's pixel at `(2x, 2y)`.
    pub fn half_resolution(&self) -> (r: Image)
        requires
            self.wf(),
        ensures
            r.wf(),
            r.width == self.width / 2,
            r.height == self.height / 2,
            forall|x: int, y: int|
                0 <= x < r.width && 0 <= y < r.height ==> #[trigger] pixel_at(
                    r.pixels@,
                    r.width as int,
                    x,
                    y,
                ) == pixel_at(self.pixels@, self.width as int, 2 * x, 2 * y),
    {
        let total = self.pixels.len();
        let new_width = self.width / 2;
        let new_height = self.height / 2;
        let mut pixels: Vec<Color> = Vec::new();
        let mut y: usize = 0;
        while y < new_height
            invariant
                self.wf(),
                total == self.pixels@.len(),
                new_width == self.width / 2,
                new_height == self.height / 2,
                y <= new_height,
                pixels@.len() == y * new_width,
                forall|i: int, j: int|
                    0 <= i < new_width && 0 <= j < y ==> #[trigger] pixel_at(
                        pixels@,
                        new_width as int,
                        i,
                        j,
                    ) == pixel_at(self.pixels@, self.width as int, 2 * i, 2 * j),
            decreases new_height - y,
        {
            let mut x: usize = 0;
            let ghost before = pixels@;
            while x < new_width
                invariant
                    self.wf(),
                    new_width == self.width / 2,
                    new_height == self.height / 2,
                    y < new_height,
                    x <= new_width,
                    total == self.pixels@.len(),
                    before.len() == y * new_width,
                    pixels@.len() == y * new_width + x,
                    pixels@.subrange(0, before.len() as int) == before,
                    forall|i: int|
                        0 <= i < x ==> #[trigger] pixels@[y * new_width + i] == pixel_at(
                            self.pixels@,
                            self.width as int,
                            2 * i,
                            2 * y,
                        ),
                decreases new_width - x,
            {
                let src_y = 2 * y;
                let src_x = 2 * x;
                assert(src_y * self.width + src_x < total) by (nonlinear_arith)
                    requires
                        total == self.pixels@.len(),
                        src_y == 2 * y,
                        src_x == 2 * x,
                        y < self.height / 2,
                        x < self.width / 2,
                        self.pixels@.len() == self.width * self.height,
                ;
                let idx = src_y * self.width + src_x;
                pixels.push(self.pixels[idx]);
                proof {
                    assert(pixels@.subrange(0, before.len() as int) =~= before);
                }
                x = x + 1;
            }
            proof {
                assert forall|i: int, j: int|
                    0 <= i < new_width && 0 <= j < y + 1 implies #[trigger] pixel_at(
                    pixels@,
                    new_width as int,
                    i,
                    j,
                ) == pixel_at(self.pixels@, self.width as int, 2 * i, 2 * j) by {
                    if j < y {
                        assert(j * new_width + i < y * new_width) by (nonlinear_arith)
                            requires
                                j < y,
                                0 <= i < new_width,
                        ;
                        assert(pixel_at(before, new_width as int, i, j) == pixel_at(
                            self.pixels@,
                            self.width as int,
                            2 * i,
                            2 * j,
                        ));
                        assert(pixels@[j * new_width + i] == before[j * new_width + i]);
                    } else {
                        assert(j == y);
                    }
                }
                assert((y + 1) * new_width == y * new_width + new_width) by (nonlinear_arith);
            }
            y = y + 1;
        }
        proof {
            assert(new_height * new_width == new_width * new_height) by (nonlinear_arith);
        }
        Image { width: new_width, height: new_height, pixels }
    }
}

} // verus!
