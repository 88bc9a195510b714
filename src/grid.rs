//! Grayscale sample grids. A `Grid` holds an `image::GrayImage`; the
//! algorithm sees it only through the few operations of the `image` crate
//! declared here.

use vstd::prelude::*;

verus! {

/// A grayscale image, one 8-bit sample per pixel.
#[verifier::external_body]
pub struct Grid {
    img: image::GrayImage,
}

/// The samples of a grid, keyed by `(x, y)`.
pub uninterp spec fn grid_samples(g: Grid) -> Map<(int, int), u8>;

/// The width the grid was made with.
pub uninterp spec fn grid_width(g: Grid) -> nat;

/// The height the grid was made with.
pub uninterp spec fn grid_height(g: Grid) -> nat;

/// Whether `(x, y)` is a coordinate of the grid.
pub open spec fn in_grid(g: Grid, x: int, y: int) -> bool {
    0 <= x < grid_width(g) && 0 <= y < grid_height(g)
}

/// The sample at `(x, y)`.
pub open spec fn sample(g: Grid, x: int, y: int) -> u8 {
    grid_samples(g)[(x, y)]
}

/// The coordinates of a `w` by `h` grid.
pub open spec fn grid_keys(w: int, h: int) -> Set<(int, int)> {
    Set::new(|k: (int, int)| 0 <= k.0 < w && 0 <= k.1 < h)
}

/// A `w` by `h` canvas of zero samples.
pub open spec fn blank_canvas(w: int, h: int) -> Map<(int, int), u8> {
    Map::new(|k: (int, int)| 0 <= k.0 < w && 0 <= k.1 < h, |k: (int, int)| 0u8)
}

/// Where the sample at `(x, y)` sits in a row-major buffer of width `w`.
pub open spec fn raw_index(w: int, x: int, y: int) -> int {
    y * w + x
}

impl Grid {
    /// Relies on `ImageBuffer::new`: a `w` by `h` image of zero samples; it
    /// panics where `w * h` does not fit in `usize`.
    #[verifier::external_body]
    pub fn new(w: u32, h: u32) -> (r: Grid)
        requires
            w * h <= usize::MAX,
        ensures
            grid_width(r) == w,
            grid_height(r) == h,
            grid_samples(r) == blank_canvas(w as int, h as int),
    {
        Grid { img: image::GrayImage::new(w, h) }
    }

    /// Relies on `ImageBuffer::from_raw`: an image over a row-major buffer,
    /// made where the buffer holds at least `w * h` samples.
    #[verifier::external_body]
    pub fn from_raw(w: u32, h: u32, data: Vec<u8>) -> (r: Option<Grid>)
        ensures
            r is Some <==> w * h <= data@.len(),
            r matches Some(g) ==> {
                &&& grid_width(g) == w
                &&& grid_height(g) == h
                &&& grid_samples(g).dom() == grid_keys(w as int, h as int)
                &&& forall|x: int, y: int|
                    0 <= x < w && 0 <= y < h ==> #[trigger] sample(g, x, y)
                        == data@[raw_index(w as int, x, y)]
            },
    {
        image::GrayImage::from_raw(w, h, data).map(|img| Grid { img })
    }

    /// Relies on `ImageBuffer::into_raw`: the row-major buffer under the image.
    #[verifier::external_body]
    pub fn into_raw(self) -> (r: Vec<u8>)
        ensures
            grid_width(self) * grid_height(self) <= r@.len(),
            forall|x: int, y: int|
                in_grid(self, x, y) ==> #[trigger] r@[raw_index(grid_width(self) as int, x, y)]
                    == sample(self, x, y),
    {
        self.img.into_raw()
    }

    /// Relies on `ImageBuffer::width`: the width the image was made with.
    #[verifier::external_body]
    pub(crate) fn width(&self) -> (r: u32)
        ensures
            r == grid_width(*self),
    {
        self.img.width()
    }

    /// Relies on `ImageBuffer::height`: the height the image was made with.
    #[verifier::external_body]
    pub(crate) fn height(&self) -> (r: u32)
        ensures
            r == grid_height(*self),
    {
        self.img.height()
    }

    /// Relies on `ImageBuffer::get_pixel`: the one channel of the pixel at
    /// `(x, y)`; it panics outside the image.
    #[verifier::external_body]
    pub(crate) fn get(&self, x: u32, y: u32) -> (r: u8)
        requires
            in_grid(*self, x as int, y as int),
        ensures
            r == sample(*self, x as int, y as int),
    {
        self.img.get_pixel(x, y).0[0]
    }

    /// Relies on `ImageBuffer::put_pixel`: overwrites the pixel at `(x, y)`
    /// and nothing else; it panics outside the image.
    #[verifier::external_body]
    pub(crate) fn put(&mut self, x: u32, y: u32, v: u8)
        requires
            in_grid(*old(self), x as int, y as int),
        ensures
            grid_samples(*final(self)) == grid_samples(*old(self)).insert((x as int, y as int), v),
            grid_width(*final(self)) == grid_width(*old(self)),
            grid_height(*final(self)) == grid_height(*old(self)),
    {
        self.img.put_pixel(x, y, image::Luma([v]))
    }
}

} // verus!
