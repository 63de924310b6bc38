//! The square grids of class tags that the pyramid is made of.

use vstd::prelude::*;

verus! {

/// A grid of one-byte class tags, kept in an `image::GrayImage`. The verifier does
/// not look inside the buffer: what it holds is named by `grid_rows` and
/// `grid_width`, and the three functions below that call into the buffer state,
/// without proof, what its own code does.
#[verifier::external_body]
pub struct TagGrid {
    img: image::GrayImage,
}

/// The rows of the image in a grid, top row first, each from left to right.
pub uninterp spec fn grid_rows(g: TagGrid) -> Seq<Seq<u8>>;

/// The number of columns of the image in a grid.
pub uninterp spec fn grid_width(g: TagGrid) -> nat;

/// `ImageBuffer::from_raw` on one-byte pixels: the buffer is taken as it is, row
/// after row, if it holds at least `width * height` bytes, and refused otherwise
/// (also where that product does not fit a `usize`, which no buffer can hold).
#[verifier::external_body]
fn grid_from_raw(width: u32, height: u32, cells: Vec<u8>) -> (r: Option<TagGrid>)
    ensures
        r.is_some() <==> width * height <= cells@.len(),
        r matches Some(g) ==> {
            &&& grid_width(g) == width
            &&& grid_rows(g).len() == height
            &&& forall|x: int, y: int|
                0 <= x < width && 0 <= y < height ==> #[trigger] grid_rows(g)[y][x] == cells@[y
                    * width + x]
        },
{
    match image::GrayImage::from_raw(width, height, cells) {
        Some(img) => Some(TagGrid { img }),
        None => None,
    }
}

/// `ImageBuffer::dimensions`: the width and the height the buffer was made with.
#[verifier::external_body]
fn grid_dimensions(g: &TagGrid) -> (r: (u32, u32))
    ensures
        r.0 == grid_width(*g),
        r.1 == grid_rows(*g).len(),
{
    g.img.dimensions()
}

/// `ImageBuffer::get_pixel` on one-byte pixels: the byte in column `x` of row `y`.
/// The call panics outside the image, so both must lie inside.
#[verifier::external_body]
fn grid_get_pixel(g: &TagGrid, x: u32, y: u32) -> (r: u8)
    requires
        x < grid_width(*g),
        y < grid_rows(*g).len(),
    ensures
        r == grid_rows(*g)[y as int][x as int],
{
    g.img.get_pixel(x, y).0[0]
}

impl TagGrid {
    /// Number of columns.
    pub open spec fn width(&self) -> nat {
        grid_width(*self)
    }

    /// Number of rows.
    pub open spec fn height(&self) -> nat {
        grid_rows(*self).len()
    }

    /// The tag in column `x` of row `y`.
    pub open spec fn tag(&self, x: int, y: int) -> u8 {
        grid_rows(*self)[y][x]
    }

    /// Makes a grid of the given size from its tags in row-major order. Fails
    /// where `cells` is too short for the size; tags beyond the last row are ignored.
    pub fn from_raw(width: u32, height: u32, cells: Vec<u8>) -> (r: Option<TagGrid>)
        ensures
            r.is_some() <==> width * height <= cells@.len(),
            r matches Some(g) ==> {
                &&& g.width() == width
                &&& g.height() == height
                &&& forall|x: int, y: int|
                    0 <= x < width && 0 <= y < height ==> #[trigger] g.tag(x, y) == cells@[y
                        * width + x]
            },
    {
        grid_from_raw(width, height, cells)
    }

    /// Width and height of the grid.
    pub fn dimensions(&self) -> (r: (u32, u32))
        ensures
            r.0 == self.width(),
            r.1 == self.height(),
    {
        grid_dimensions(self)
    }

    /// The tag in column `x` of row `y`.
    pub fn get_pixel(&self, x: u32, y: u32) -> (r: u8)
        requires
            x < self.width(),
            y < self.height(),
        ensures
            r == self.tag(x as int, y as int),
    {
        grid_get_pixel(self, x, y)
    }
}

} // verus!
