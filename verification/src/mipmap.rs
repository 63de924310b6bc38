//! The pyramid of tag grids, and the geometry of its cells in unified coordinates:
//! one unit is half the width of a pixel of level 0, so that the centre of the top
//! left pixel of level 0 lies at (1, 1) and its lower right corner at (2, 2).

use crate::functions::bit_compressor;
use crate::functions::is_power_of_two;
use crate::functions::log2;
use crate::grid::TagGrid;
use vstd::arithmetic::power2::lemma2_to64;
use vstd::arithmetic::power2::lemma_pow2_strictly_increases;
use vstd::arithmetic::power2::lemma_pow2_unfold;
use vstd::arithmetic::power2::pow2;
use vstd::prelude::*;

verus! {

/// The highest level whose cells still have a side that fits the coordinates.
pub const MAX_LEVEL: u8 = 30;

/// A length in unified coordinates.
#[derive(Clone, Copy, Debug, PartialEq, Eq, Structural)]
pub struct UniSize {
    pub v: u32,
}

/// A point in unified coordinates.
#[derive(Clone, Copy, Debug, PartialEq, Eq, Structural)]
pub struct UniPoint {
    pub x: u32,
    pub y: u32,
}

/// A square in unified coordinates, given by its top left corner and its side.
#[derive(Clone, Copy, Debug, PartialEq, Eq, Structural)]
pub struct UniSquare {
    pub topleft: UniPoint,
    pub length: UniSize,
}

/// Side of a cell of the given level, in unified coordinates: twice two to the level.
pub open spec fn pixel_size(level: u8) -> int {
    2 * (pow2(level as nat) as int)
}

/// The sides of the cells double from level to level, and up to `MAX_LEVEL` they fit
/// a `u32` with room to spare.
pub proof fn lemma_pixel_size(level: u8)
    requires
        level <= MAX_LEVEL,
    ensures
        2 <= pixel_size(level) <= 0x8000_0000,
        pixel_size(level) % 2 == 0,
        level > 0 ==> pixel_size(level) == 2 * pixel_size((level - 1) as u8),
        level == 0 ==> pixel_size(level) == 2,
{
    lemma2_to64();
    if level < 30 {
        lemma_pow2_strictly_increases(level as nat, 30);
    }
    if level > 0 {
        lemma_pow2_unfold(level as nat);
        lemma_pow2_strictly_increases(0, level as nat);
    }
}

/// Why a grid cannot be the base of a pyramid.
#[derive(Clone, Copy, Debug, PartialEq, Eq, Structural)]
pub enum MipmapError {
    /// Width and height differ.
    NotSquare,
    /// The side is not a power of two.
    NotPowerOfTwo,
    /// The side is a power of two beyond two to the `MAX_LEVEL`, for which unified
    /// coordinates no longer fit.
    TooLarge,
}

/// Tag of a cell that covers four cells with the tags `a`, `b`, `c` and `d`.
pub open spec fn merge4(a: u8, b: u8, c: u8, d: u8) -> u8 {
    a | b | c | d
}

/// The tag of `small` at (`x`, `y`) merges the four tags of `big` that it covers.
pub open spec fn merges_at(small: TagGrid, big: TagGrid, x: int, y: int) -> bool {
    small.tag(x, y) == merge4(
        big.tag(2 * x, 2 * y),
        big.tag(2 * x + 1, 2 * y),
        big.tag(2 * x, 2 * y + 1),
        big.tag(2 * x + 1, 2 * y + 1),
    )
}

/// Every cell of `small`, a square grid of the given side, merges the four cells of
/// `big` that it covers.
pub open spec fn halves(small: TagGrid, big: TagGrid, side: int) -> bool {
    &&& small.width() == side
    &&& small.height() == side
    &&& forall|x: int, y: int|
        0 <= x < side && 0 <= y < side ==> #[trigger] merges_at(small, big, x, y)
}

/// The grids are the lowest levels of a pyramid whose level `top` is a single cell:
/// level `l` is a square of side two to the `top - l`, and each level above the
/// base halves the one below it.
pub open spec fn levels_ok(levels: Seq<TagGrid>, top: int) -> bool {
    &&& levels.len() <= top + 1
    &&& forall|l: int|
        0 <= l < levels.len() ==> {
            &&& (#[trigger] levels[l]).width() == pow2((top - l) as nat)
            &&& levels[l].height() == pow2((top - l) as nat)
        }
    &&& forall|l: int|
        1 <= l < levels.len() ==> halves(#[trigger] levels[l], levels[l - 1], pow2((top - l) as nat) as int)
}

/// Cells of a row-major grid of width `w` come one after the other, row by row.
pub proof fn lemma_row_major(x: int, y: int, w: int, h: int)
    requires
        0 <= x < w,
        0 <= y < h,
    ensures
        0 <= y * w + x < w * h,
        y * w + x < (y + 1) * w,
        (y + 1) * w <= w * h,
        (y + 1) * w == y * w + w,
{
    assert(0 <= y * w) by (nonlinear_arith)
        requires
            0 <= y,
            0 <= w,
    ;
    assert((y + 1) * w == y * w + w) by (nonlinear_arith);
    assert((y + 1) * w <= w * h) by (nonlinear_arith)
        requires
            y + 1 <= h,
            0 <= w,
    ;
}

/// The grid of half the side that merges each block of two by two cells of `big`.
pub fn halve(big: &TagGrid, side: u32) -> (r: TagGrid)
    requires
        big.width() == 2 * side,
        big.height() == 2 * side,
    ensures
        halves(r, *big, side as int),
{
    let dims = big.dimensions();
    assert(2 * side == dims.0);
    let mut cells: Vec<u8> = Vec::new();
    let mut y: u32 = 0;
    while y < side
        invariant
            y <= side,
            2 * side <= u32::MAX,
            big.width() == 2 * side,
            big.height() == 2 * side,
            cells@.len() == y * side,
            forall|xx: int, yy: int|
                0 <= xx < side && 0 <= yy < y ==> #[trigger] cells@[yy * side + xx] == merge4(
                    big.tag(2 * xx, 2 * yy),
                    big.tag(2 * xx + 1, 2 * yy),
                    big.tag(2 * xx, 2 * yy + 1),
                    big.tag(2 * xx + 1, 2 * yy + 1),
                ),
        decreases side - y,
    {
        let mut x: u32 = 0;
        while x < side
            invariant
                x <= side,
                y < side,
                2 * side <= u32::MAX,
                big.width() == 2 * side,
                big.height() == 2 * side,
                cells@.len() == y * side + x,
                forall|xx: int, yy: int|
                    0 <= xx < side && 0 <= yy < y ==> #[trigger] cells@[yy * side + xx] == merge4(
                        big.tag(2 * xx, 2 * yy),
                        big.tag(2 * xx + 1, 2 * yy),
                        big.tag(2 * xx, 2 * yy + 1),
                        big.tag(2 * xx + 1, 2 * yy + 1),
                    ),
                forall|xx: int|
                    0 <= xx < x ==> #[trigger] cells@[y * side + xx] == merge4(
                        big.tag(2 * xx, 2 * y),
                        big.tag(2 * xx + 1, 2 * y),
                        big.tag(2 * xx, 2 * y + 1),
                        big.tag(2 * xx + 1, 2 * y + 1),
                    ),
            decreases side - x,
        {
            let a = big.get_pixel(x * 2, y * 2);
            let b = big.get_pixel(x * 2 + 1, y * 2);
            let c = big.get_pixel(x * 2, y * 2 + 1);
            let d = big.get_pixel(x * 2 + 1, y * 2 + 1);
            let ghost before = cells@;
            cells.push(bit_compressor(a, b, c, d));
            proof {
                assert forall|xx: int, yy: int| 0 <= xx < side && 0 <= yy < y implies #[trigger] cells@[yy
                    * side + xx] == before[yy * side + xx] by {
                    lemma_row_major(xx, yy, side as int, y as int);
                }
            }
            x = x + 1;
        }
        proof {
            lemma_row_major(0, y as int, side as int, side as int);
            assert forall|xx: int, yy: int| 0 <= xx < side && 0 <= yy < y + 1 implies #[trigger] cells@[yy
                * side + xx] == merge4(
                big.tag(2 * xx, 2 * yy),
                big.tag(2 * xx + 1, 2 * yy),
                big.tag(2 * xx, 2 * yy + 1),
                big.tag(2 * xx + 1, 2 * yy + 1),
            ) by {
                if yy == y {
                }
            }
        }
        y = y + 1;
    }
    assert(side * side == cells@.len());
    match TagGrid::from_raw(side, side, cells) {
        Some(g) => {
            assert forall|x: int, y: int| 0 <= x < side && 0 <= y < side implies #[trigger] merges_at(
                g,
                *big,
                x,
                y,
            ) by {
                assert(g.tag(x, y) == cells@[y * side + x]);
            }
            g
        },
        None => vstd::pervasive::unreached(),
    }
}

/// The pyramid: level 0 is the classified image, and each further level has half
/// the side of the one before, down to a single cell.
pub struct Mipmap {
    pub images: Vec<TagGrid>,
}

/// A grid that a pyramid can be built on: a square whose side is a power of two, at
/// most two to the `MAX_LEVEL`.
pub open spec fn valid_base(g: TagGrid) -> bool {
    &&& g.width() == g.height()
    &&& exists|k: nat| k <= MAX_LEVEL && g.width() == #[trigger] pow2(k)
}

impl Mipmap {
    /// The level of the single cell at the top.
    pub open spec fn top(&self) -> int {
        self.images@.len() - 1
    }

    /// Number of cells along each side of the given level.
    pub open spec fn side(&self, level: int) -> int {
        pow2((self.top() - level) as nat) as int
    }

    /// Tag of the cell in column `x` and row `y` of the given level.
    pub open spec fn tag(&self, level: int, x: int, y: int) -> u8 {
        self.images@[level].tag(x, y)
    }

    /// The pyramid is whole: it has between one and `MAX_LEVEL + 1` levels, the
    /// last of them a single cell, each level is a square of twice the side of the
    /// next, and every cell above the base carries the merged tags of the four
    /// cells below it.
    pub open spec fn wf(&self) -> bool {
        &&& 1 <= self.images@.len() <= MAX_LEVEL + 1
        &&& levels_ok(self.images@, self.top())
    }

    /// Builds the pyramid over a classified image. The image must be a square whose
    /// side is a power of two; each error names the first of these that fails.
    pub fn new(srcimg: TagGrid) -> (r: Result<Mipmap, MipmapError>)
        ensures
            r.is_ok() <==> valid_base(srcimg),
            match r {
                Ok(mm) => mm.wf() && mm.images@[0] == srcimg,
                Err(MipmapError::NotSquare) => srcimg.width() != srcimg.height(),
                Err(MipmapError::NotPowerOfTwo) => srcimg.width() == srcimg.height()
                    && !is_power_of_two(srcimg.width() as int),
                Err(MipmapError::TooLarge) => srcimg.width() == srcimg.height() && is_power_of_two(
                    srcimg.width() as int,
                ) && srcimg.width() > pow2(MAX_LEVEL as nat),
            },
    {
        let dims = srcimg.dimensions();
        let width: u32 = dims.0;
        let height: u32 = dims.1;
        if width != height {
            return Err(MipmapError::NotSquare);
        }
        proof {
            lemma2_to64();
            assert forall|k: nat| k <= MAX_LEVEL implies #[trigger] pow2(k) > 0 && k < 64 by {
                vstd::arithmetic::power2::lemma_pow2_pos(k);
            }
        }
        let sizelog: u8 = match log2(width as u64) {
            Some(v) => v,
            None => {
                return Err(MipmapError::NotPowerOfTwo);
            },
        };
        if width == 0 {
            proof {
                assert forall|k: nat| k < 64 implies #[trigger] pow2(k) != 0 by {
                    vstd::arithmetic::power2::lemma_pow2_pos(k);
                }
            }
            return Err(MipmapError::NotPowerOfTwo);
        }
        if sizelog > MAX_LEVEL {
            proof {
                lemma_pow2_strictly_increases(MAX_LEVEL as nat, sizelog as nat);
                assert forall|k: nat| k <= MAX_LEVEL implies width != #[trigger] pow2(k) by {
                    lemma_pow2_strictly_increases(k, sizelog as nat);
                }
            }
            return Err(MipmapError::TooLarge);
        }
        let mut images: Vec<TagGrid> = Vec::with_capacity((sizelog + 1) as usize);
        images.push(srcimg);
        let mut side: u32 = width;
        let mut i: u8 = 1;
        while i <= sizelog
            invariant
                1 <= i <= sizelog + 1,
                sizelog <= MAX_LEVEL,
                images@.len() == i,
                images@[0] == srcimg,
                levels_ok(images@, sizelog as int),
                side == pow2((sizelog - (i - 1)) as nat),
            decreases sizelog + 1 - i,
        {
            proof {
                lemma_pow2_unfold((sizelog - (i - 1)) as nat);
            }
            let small = halve(&images[(i - 1) as usize], side / 2);
            side = side / 2;
            let ghost before = images@;
            images.push(small);
            proof {
                assert forall|l: int| 1 <= l < images@.len() implies halves(
                    #[trigger] images@[l],
                    images@[l - 1],
                    pow2((sizelog - l) as nat) as int,
                ) by {
                    if l < i {
                        assert(images@[l] == before[l]);
                        assert(images@[l - 1] == before[l - 1]);
                    }
                }
            }
            i = i + 1;
        }
        Ok(Mipmap { images })
    }

    /// Centre of the pixel in the lower right corner of level 0.
    pub fn lower_right_corner(&self) -> (r: UniPoint)
        requires
            self.wf(),
        ensures
            r.x == 2 * self.side(0) - 1,
            r.y == 2 * self.side(0) - 1,
    {
        proof {
            lemma_pixel_size(0);
            lemma2_to64();
            vstd::arithmetic::power2::lemma_pow2_pos(self.top() as nat);
            if self.top() < MAX_LEVEL {
                lemma_pow2_strictly_increases(self.top() as nat, MAX_LEVEL as nat);
            }
        }
        let dims = self.images[0].dimensions();
        Mipmap::get_center(dims.0 - 1, dims.1 - 1, 0)
    }

    /// The level of the single cell at the top of the pyramid.
    pub fn get_max_level(&self) -> (r: u8)
        requires
            1 <= self.images@.len() <= 256,
        ensures
            r == self.top(),
    {
        (self.images.len() - 1) as u8
    }

    /// The tag of the pixel of level 0 that holds the given point.
    pub fn get_value(&self, position: &UniPoint) -> (r: u8)
        requires
            self.images@.len() >= 1,
            position.x / 2 < self.images@[0].width(),
            position.y / 2 < self.images@[0].height(),
        ensures
            r == self.tag(0, position.x as int / 2, position.y as int / 2),
    {
        let x: u32 = position.x / 2;
        let y: u32 = position.y / 2;
        self.images[0].get_pixel(x, y)
    }

    /// Side of a cell of the given level.
    pub fn get_pixel_size(level: u8) -> (r: UniSize)
        requires
            level <= MAX_LEVEL,
        ensures
            r.v == pixel_size(level),
    {
        let shift: u32 = level as u32;
        proof {
            lemma_pixel_size(level);
            vstd::bits::lemma_u32_shl_is_mul(2u32, shift);
        }
        UniSize { v: 2u32 << shift }
    }

    /// Top left corner of the cell in column `x` and row `y` of the given level.
    pub fn get_position(x: u32, y: u32, level: u8) -> (r: UniPoint)
        requires
            level <= MAX_LEVEL,
            x * pixel_size(level) <= u32::MAX,
            y * pixel_size(level) <= u32::MAX,
        ensures
            r.x == x * pixel_size(level),
            r.y == y * pixel_size(level),
    {
        let size: u32 = Mipmap::get_pixel_size(level).v;
        UniPoint { x: x * size, y: y * size }
    }

    /// The centres of the four pixels of level 0 that lie in the corners of the
    /// cell: top left, top right, bottom left, bottom right.
    pub fn get_corners(x: u32, y: u32, level: u8) -> (r: [UniPoint; 4])
        requires
            level <= MAX_LEVEL,
            (x + 1) * pixel_size(level) <= u32::MAX,
            (y + 1) * pixel_size(level) <= u32::MAX,
        ensures
            r[0] == (UniPoint { x: (x * pixel_size(level) + 1) as u32, y: (y * pixel_size(level) + 1) as u32 }),
            r[1] == (UniPoint { x: ((x + 1) * pixel_size(level) - 1) as u32, y: (y * pixel_size(level) + 1) as u32 }),
            r[2] == (UniPoint { x: (x * pixel_size(level) + 1) as u32, y: ((y + 1) * pixel_size(level) - 1) as u32 }),
            r[3] == (UniPoint { x: ((x + 1) * pixel_size(level) - 1) as u32, y: ((y + 1) * pixel_size(level) - 1) as u32 }),
    {
        proof {
            lemma_pixel_size(level);
            assert((x + 1) * pixel_size(level) == x * pixel_size(level) + pixel_size(level))
                by (nonlinear_arith);
            assert((y + 1) * pixel_size(level) == y * pixel_size(level) + pixel_size(level))
                by (nonlinear_arith);
            assert(0 <= x * pixel_size(level)) by (nonlinear_arith)
                requires
                    pixel_size(level) >= 0,
            ;
            assert(0 <= y * pixel_size(level)) by (nonlinear_arith)
                requires
                    pixel_size(level) >= 0,
            ;
        }
        let tl = Mipmap::get_position(x, y, level);
        let size: u32 = Mipmap::get_pixel_size(level).v;
        [
            UniPoint { x: tl.x + 1, y: tl.y + 1 },
            UniPoint { x: tl.x + size - 1, y: tl.y + 1 },
            UniPoint { x: tl.x + 1, y: tl.y + size - 1 },
            UniPoint { x: tl.x + size - 1, y: tl.y + size - 1 },
        ]
    }

    /// The square spanned by the centres of the level 0 pixels that the cell covers:
    /// the cell's own square, drawn in by one unit on every side.
    pub fn get_pixel_square(x: u32, y: u32, level: u8) -> (r: UniSquare)
        requires
            level <= MAX_LEVEL,
            x * pixel_size(level) < u32::MAX,
            y * pixel_size(level) < u32::MAX,
        ensures
            r.topleft.x == x * pixel_size(level) + 1,
            r.topleft.y == y * pixel_size(level) + 1,
            r.length.v == pixel_size(level) - 2,
    {
        proof {
            lemma_pixel_size(level);
        }
        let mut topleft = Mipmap::get_position(x, y, level);
        topleft.x += 1;
        topleft.y += 1;
        let mut length = Mipmap::get_pixel_size(level);
        length.v -= 2;
        UniSquare { topleft: topleft, length: length }
    }

    /// Centre of the cell in column `x` and row `y` of the given level.
    pub fn get_center(x: u32, y: u32, level: u8) -> (r: UniPoint)
        requires
            level <= MAX_LEVEL,
            x * pixel_size(level) + pixel_size(level) / 2 <= u32::MAX,
            y * pixel_size(level) + pixel_size(level) / 2 <= u32::MAX,
        ensures
            r.x == x * pixel_size(level) + pixel_size(level) / 2,
            r.y == y * pixel_size(level) + pixel_size(level) / 2,
    {
        proof {
            lemma_pixel_size(level);
            assert(0 <= x * pixel_size(level)) by (nonlinear_arith)
                requires
                    pixel_size(level) >= 0,
            ;
            assert(0 <= y * pixel_size(level)) by (nonlinear_arith)
                requires
                    pixel_size(level) >= 0,
            ;
        }
        let tl = Mipmap::get_position(x, y, level);
        let half_size: u32 = Mipmap::get_pixel_size(level).v / 2;
        UniPoint { x: tl.x + half_size, y: tl.y + half_size }
    }

    /// The four cells of the next finer level that the cell in column `x` and row
    /// `y` covers: top left, top right, bottom left, bottom right.
    pub fn get_children(x: u32, y: u32) -> (r: [(u32, u32); 4])
        requires
            2 * x + 1 <= u32::MAX,
            2 * y + 1 <= u32::MAX,
        ensures
            r[0] == ((2 * x) as u32, (2 * y) as u32),
            r[1] == ((2 * x + 1) as u32, (2 * y) as u32),
            r[2] == ((2 * x) as u32, (2 * y + 1) as u32),
            r[3] == ((2 * x + 1) as u32, (2 * y + 1) as u32),
    {
        [(2 * x, 2 * y), (2 * x + 1, 2 * y), (2 * x, 2 * y + 1), (2 * x + 1, 2 * y + 1)]
    }
}

} // verus!
