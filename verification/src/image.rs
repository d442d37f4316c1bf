use vstd::prelude::*;

verus! {

/// A grid of pixels, kept row after row.
#[derive(Clone)]
pub struct Image<P> {
    width: u32,
    height: u32,
    pixels: Vec<P>,
}

/// `v`, moved into the range from `0` to `top`.
pub open spec fn clamped(v: int, top: int) -> int {
    if v < 0 {
        0
    } else if v > top {
        top
    } else {
        v
    }
}

impl<P: Copy> Image<P> {
    /// The number of columns.
    pub closed spec fn columns(self) -> nat {
        self.width as nat
    }

    /// The number of rows.
    pub closed spec fn rows(self) -> nat {
        self.height as nat
    }

    /// The pixels, row after row.
    pub closed spec fn cells(self) -> Seq<P> {
        self.pixels@
    }

    /// There is one pixel for each place of the grid.
    pub open spec fn wf(self) -> bool {
        self.columns() * self.rows() == self.cells().len()
    }

    /// The image of `width` columns and `height` rows whose pixels are
    /// `pixels`, row after row.
    pub fn new(width: u32, height: u32, pixels: Vec<P>) -> (image: Image<P>)
        requires
            width * height == pixels.len(),
        ensures
            image.wf(),
            image.columns() == width,
            image.rows() == height,
            image.cells() == pixels@,
    {
        Image { width, height, pixels }
    }

    pub fn pixel_count(&self) -> (n: usize)
        requires
            self.wf(),
        ensures
            n == self.columns() * self.rows(),
    {
        self.pixels.len()
    }

    pub fn width(&self) -> (w: u32)
        ensures
            w == self.columns(),
    {
        self.width
    }

    pub fn height(&self) -> (h: u32)
        ensures
            h == self.rows(),
    {
        self.height
    }

    pub fn pixels(&self) -> (p: &Vec<P>)
        ensures
            p@ == self.cells(),
    {
        &self.pixels
    }

    /// The place of the pixel in column `x` of row `y`.
    pub fn pixel_index(&self, x: u32, y: u32) -> (i: usize)
        requires
            self.wf(),
            x < self.columns(),
            y < self.rows(),
        ensures
            i == y * self.columns() + x,
            i < self.cells().len(),
    {
        let count = self.pixels.len();
        proof {
            lemma_grid_place(x as int, y as int, self.width as int, self.height as int);
            assert(count == self.width * self.height);
        }
        (y as usize) * (self.width as usize) + (x as usize)
    }

    /// The pixel in column `x` of row `y`.
    pub fn pixel_at(&self, x: u32, y: u32) -> (p: P)
        requires
            self.wf(),
            x < self.columns(),
            y < self.rows(),
        ensures
            p == self.cells()[y * self.columns() + x],
    {
        self.pixels[self.pixel_index(x, y)]
    }

    /// The pixel in column `x` of row `y`, where a place outside the grid
    /// stands for the nearest place on its edge.
    pub fn pixel_at_clamped(&self, x: i32, y: i32) -> (p: P)
        requires
            self.wf(),
            1 <= self.columns() <= 0x8000_0000,
            1 <= self.rows() <= 0x8000_0000,
        ensures
            p == self.cells()[clamped(y as int, self.rows() - 1) * self.columns() + clamped(
                x as int,
                self.columns() - 1,
            )],
    {
        let cx: u32 = if x < 0 {
            0
        } else if x as u32 > self.width - 1 {
            self.width - 1
        } else {
            x as u32
        };
        let cy: u32 = if y < 0 {
            0
        } else if y as u32 > self.height - 1 {
            self.height - 1
        } else {
            y as u32
        };
        self.pixel_at(cx, cy)
    }
}

/// How far, in pixels, the surroundings of a pixel reach to each side.
pub const NEIGH_SIZE: i32 = 3;

/// The width of the square of surroundings of a pixel.
pub const NEIGH_SIDE_PX: usize = 7;

/// The number of pixels in the surroundings of a pixel.
pub const NEIGH_PIXELS: usize = 49;

/// The pixel that stands at `i` in the surroundings of the pixel in column
/// `x` of row `y`: the surroundings are listed row after row, and a place
/// outside the grid stands for the nearest place on its edge.
pub open spec fn neighbour<P: Copy>(image: Image<P>, x: int, y: int, i: int) -> P {
    image.cells()[clamped(y + i / 7 - 3, image.rows() - 1) * image.columns() + clamped(
        x + i % 7 - 3,
        image.columns() - 1,
    )]
}

/// The surroundings of the pixel in column `x` of row `y`: the square of
/// seven by seven pixels around it, row after row.
pub fn collect_neighbourhood<P: Copy>(x: u32, y: u32, input: &Image<P>) -> (around: Vec<P>)
    requires
        input.wf(),
        1 <= input.columns() <= 0x7fff_fff0,
        1 <= input.rows() <= 0x7fff_fff0,
        x < input.columns(),
        y < input.rows(),
    ensures
        around.len() == NEIGH_PIXELS,
        forall|i: int| 0 <= i < NEIGH_PIXELS ==> #[trigger] around[i] == neighbour(*input, x as int, y as int, i),
{
    let mut around: Vec<P> = Vec::new();
    let (x, y) = (x as i32, y as i32);
    let mut i: usize = 0;
    while i < NEIGH_PIXELS
        invariant
            i <= NEIGH_PIXELS,
            input.wf(),
            1 <= input.columns() <= 0x7fff_fff0,
            1 <= input.rows() <= 0x7fff_fff0,
            0 <= x < input.columns(),
            0 <= y < input.rows(),
            around.len() == i,
            forall|k: int| 0 <= k < i ==> #[trigger] around[k] == neighbour(*input, x as int, y as int, k),
        decreases NEIGH_PIXELS - i,
    {
        let a = (i % NEIGH_SIDE_PX) as i32;
        let b = (i / NEIGH_SIDE_PX) as i32;
        around.push(input.pixel_at_clamped(x + a - NEIGH_SIZE, y + b - NEIGH_SIZE));
        i += 1;
    }
    around
}

/// A place of a grid lies among its cells.
pub proof fn lemma_grid_place(x: int, y: int, w: int, h: int)
    by (nonlinear_arith)
    requires
        0 <= x < w,
        0 <= y < h,
    ensures
        0 <= y * w + x < w * h,
        0 <= y * w <= w * h,
{
}

} // verus!
