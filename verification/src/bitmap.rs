//! Grayscale bitmaps: fixed-size grids of 8-bit intensity levels.
//!
//! A pixel of level `n` stands for the intensity `n / 255`, so level 0 is
//! intensity 0 and level 255 is intensity 1.

use vstd::prelude::*;

verus! {

/// The level of full intensity.
pub const FULL_LEVEL: u8 = 255;

/// Mathematical model of a bitmap: its dimensions and its pixels, row by row
/// from the top, each row from the left.
pub struct Grid {
    pub width: nat,
    pub height: nat,
    pub pixels: Seq<u8>,
}

impl Grid {
    /// There is exactly one pixel for each position.
    pub open spec fn wf(self) -> bool {
        self.pixels.len() == self.width * self.height
    }

    /// Whether `(x, y)` is a position of the grid.
    pub open spec fn contains(self, x: int, y: int) -> bool {
        0 <= x < self.width && 0 <= y < self.height
    }

    /// The level at column `x` of row `y`.
    pub open spec fn at(self, x: int, y: int) -> u8 {
        self.pixels[y * self.width + x]
    }

    /// Whether `self` is the `self.width` by `self.height` block of `outer`
    /// whose top-left corner lies at `(left, top)`.
    pub open spec fn is_block_of(self, outer: Grid, left: int, top: int) -> bool {
        &&& self.wf()
        &&& 0 <= left && left + self.width <= outer.width
        &&& 0 <= top && top + self.height <= outer.height
        &&& forall|x: int, y: int| #[trigger]
            self.contains(x, y) ==> self.at(x, y) == outer.at(left + x, top + y)
    }

    /// Whether `self` holds the rows of `buffer`, where row `y` starts at
    /// index `y * stride` and what lies beyond `self.width` in a row is padding.
    pub open spec fn is_unpadded(self, buffer: Seq<u8>, stride: nat) -> bool {
        &&& self.wf()
        &&& forall|x: int, y: int| #[trigger]
            self.contains(x, y) ==> self.at(x, y) == buffer[y * stride + x]
    }
}

/// Position `(x, y)` of a grid with rows of `stride` pixels lies at an index
/// of its own, inside the first `height` rows.
proof fn lemma_position_index(x: int, y: int, width: int, height: int, stride: int)
    requires
        0 <= x < width <= stride,
        0 <= y < height,
    ensures
        0 <= y * stride + x,
        y * stride + x < (height - 1) * stride + width,
        (height - 1) * stride + width <= height * stride,
        height * stride == stride * height,
{
    assert(height * stride == stride * height) by (nonlinear_arith);
    assert(0 <= y * stride && y * stride <= (height - 1) * stride) by (nonlinear_arith)
        requires
            0 <= y <= height - 1,
            0 <= stride,
    ;
    assert((height - 1) * stride + stride == height * stride) by (nonlinear_arith);
}

/// Rows start in order: a row does not start after a later one.
proof fn lemma_row_start(row: int, later: int, stride: int)
    requires
        0 <= row <= later,
        0 <= stride,
    ensures
        0 <= row * stride <= later * stride,
{
    assert(0 <= row * stride <= later * stride) by (nonlinear_arith)
        requires
            0 <= row <= later,
            0 <= stride,
    ;
}

/// Every index of a well-formed grid is the index of one position.
pub proof fn lemma_index_position(i: int, width: int, height: int)
    requires
        0 <= i < width * height,
        0 <= width,
        0 <= height,
    ensures
        width > 0,
        0 <= i % width < width,
        0 <= i / width < height,
        (i / width) * width + i % width == i,
{
    assert(width > 0) by (nonlinear_arith)
        requires
            0 <= i < width * height,
            0 <= width,
    ;
    vstd::arithmetic::div_mod::lemma_fundamental_div_mod(i, width);
    vstd::arithmetic::div_mod::lemma_mod_bound(i, width);
    assert(width * (i / width) == (i / width) * width) by (nonlinear_arith);
    assert(0 <= i / width < height) by (nonlinear_arith)
        requires
            width > 0,
            0 <= height,
            0 <= i < width * height,
            (i / width) * width + i % width == i,
            0 <= i % width < width,
    ;
}

/// Two well-formed grids of the same dimensions that agree at every position
/// are the same grid.
pub proof fn lemma_grid_ext(a: Grid, b: Grid)
    requires
        a.wf(),
        b.wf(),
        a.width == b.width,
        a.height == b.height,
        forall|x: int, y: int| #[trigger] a.contains(x, y) ==> a.at(x, y) == b.at(x, y),
    ensures
        a == b,
{
    assert forall|i: int| 0 <= i < a.pixels.len() implies a.pixels[i] == b.pixels[i] by {
        lemma_index_position(i, a.width as int, a.height as int);
        let x = i % (a.width as int);
        let y = i / (a.width as int);
        assert(a.contains(x, y));
        assert(a.at(x, y) == a.pixels[i]);
        assert(b.at(x, y) == b.pixels[i]);
    }
    assert(a.pixels =~= b.pixels);
}

/// A grayscale bitmap. Its pixel buffer always holds exactly one level for
/// each position.
#[derive(Debug)]
pub struct Bitmap {
    width: usize,
    height: usize,
    pixels: Vec<u8>,
}

impl View for Bitmap {
    type V = Grid;

    closed spec fn view(&self) -> Grid {
        Grid { width: self.width as nat, height: self.height as nat, pixels: self.pixels@ }
    }
}

impl Clone for Bitmap {
    /// A bitmap of the same dimensions and pixels.
    fn clone(&self) -> (copy: Self)
        ensures
            copy@ == self@,
    {
        proof {
            use_type_invariant(self);
        }
        let pixels = self.pixels.clone();
        assert(pixels@ =~= self.pixels@);
        Bitmap { width: self.width, height: self.height, pixels }
    }
}

/// Copies the `width` by `height` block at `(left, top)` out of a buffer
/// whose rows are `stride` pixels apart.
fn copy_block(
    buffer: &Vec<u8>,
    stride: usize,
    left: usize,
    top: usize,
    width: usize,
    height: usize,
) -> (block: Vec<u8>)
    requires
        left + width <= stride,
        top + height <= usize::MAX,
        height > 0 ==> (top + height - 1) * stride + left + width <= buffer@.len(),
    ensures
        block@.len() == width * height,
        forall|x: int, y: int|
            0 <= x < width && 0 <= y < height ==> #[trigger] block@[y * width + x] == buffer@[(top
                + y) * stride + left + x],
{
    let mut block: Vec<u8> = Vec::new();
    let available: usize = buffer.len();
    let mut y: usize = 0;
    proof {
        assert(width * 0 == 0) by (nonlinear_arith);
    }
    while y < height
        invariant
            y <= height,
            available == buffer@.len(),
            left + width <= stride,
            top + height <= usize::MAX,
            height > 0 ==> (top + height - 1) * stride + left + width <= buffer@.len(),
            block@.len() == width * y,
            forall|i: int, j: int|
                0 <= i < width && 0 <= j < y ==> #[trigger] block@[j * width + i] == buffer@[(top
                    + j) * stride + left + i],
        decreases height - y,
    {
        proof {
            lemma_row_start((top + y) as int, (top + height - 1) as int, stride as int);
        }
        let start: usize = (top + y) * stride + left;
        let ghost before = block@;
        let mut x: usize = 0;
        while x < width
            invariant
                x <= width,
                y < height,
                available == buffer@.len(),
                left + width <= stride,
                start == (top + y) * stride + left,
                start + width <= buffer@.len(),
                block@.len() == width * y + x,
                before.len() == width * y,
                forall|k: int| 0 <= k < before.len() ==> block@[k] == before[k],
                forall|i: int| 0 <= i < x ==> #[trigger] block@[y * width + i] == buffer@[start + i],
            decreases width - x,
        {
            proof {
                assert(width * y == y * width) by (nonlinear_arith);
            }
            block.push(buffer[start + x]);
            x = x + 1;
        }
        proof {
            assert(width * (y + 1) == width * y + width) by (nonlinear_arith);
            assert forall|i: int, j: int| 0 <= i < width && 0 <= j < y + 1 implies #[trigger] block@[j
                * width + i] == buffer@[(top + j) * stride + left + i] by {
                if j < y {
                    lemma_position_index(i, j, width as int, y as int, width as int);
                    assert(y * width == width * y) by (nonlinear_arith);
                    assert(block@[j * width + i] == before[j * width + i]);
                }
            }
        }
        y = y + 1;
    }
    proof {
        assert(width * height == height * width) by (nonlinear_arith);
    }
    block
}

impl Bitmap {
    #[verifier::type_invariant]
    spec fn holds_every_position(&self) -> bool {
        self.pixels@.len() == self.width * self.height
    }

    /// A bitmap of the given dimensions over `pixels`, which must hold
    /// exactly one level for each position.
    pub fn new(width: usize, height: usize, pixels: Vec<u8>) -> (made: Option<Bitmap>)
        ensures
            made is Some <==> pixels@.len() == width * height,
            made matches Some(bitmap) ==> bitmap@ == (Grid {
                width: width as nat,
                height: height as nat,
                pixels: pixels@,
            }),
    {
        let len: usize = pixels.len();
        match width.checked_mul(height) {
            Some(count) => {
                if count == len {
                    Some(Bitmap { width, height, pixels })
                } else {
                    None
                }
            },
            None => None,
        }
    }

    /// The bitmap held by a buffer whose rows are `stride` pixels apart:
    /// row `y` starts at index `y * stride`, and what follows the first
    /// `width` pixels of a row is padding. There is such a bitmap when a row
    /// fits in the stride and the last row ends inside the buffer.
    pub fn from_strided(pixels: &Vec<u8>, width: usize, height: usize, stride: usize) -> (made:
        Option<Bitmap>)
        ensures
            made is Some <==> width <= stride && (height > 0 ==> (height - 1) * stride + width
                <= pixels@.len()),
            made matches Some(bitmap) ==> {
                &&& bitmap@.width == width
                &&& bitmap@.height == height
                &&& bitmap@.is_unpadded(pixels@, stride as nat)
            },
    {
        if width > stride {
            return None;
        }
        let len: usize = pixels.len();
        if height > 0 {
            let fits = match (height - 1).checked_mul(stride) {
                Some(rows) => match rows.checked_add(width) {
                    Some(end) => end <= len,
                    None => false,
                },
                None => false,
            };
            if !fits {
                return None;
            }
        }
        let block = copy_block(pixels, stride, 0, 0, width, height);
        let bitmap = Bitmap { width, height, pixels: block };
        proof {
            assert forall|x: int, y: int| #[trigger] bitmap@.contains(x, y) implies bitmap@.at(x, y)
                == pixels@[y * stride + x] by {
                assert(block@[y * width + x] == pixels@[(0 + y) * stride + 0 + x]);
            }
        }
        Some(bitmap)
    }

    /// The number of columns.
    pub fn width(&self) -> (width: usize)
        ensures
            width == self@.width,
            self@.wf(),
    {
        proof {
            use_type_invariant(self);
        }
        self.width
    }

    /// The number of rows.
    pub fn height(&self) -> (height: usize)
        ensures
            height == self@.height,
            self@.wf(),
    {
        proof {
            use_type_invariant(self);
        }
        self.height
    }

    /// The levels, row by row.
    pub fn pixels(&self) -> (pixels: &Vec<u8>)
        ensures
            pixels@ == self@.pixels,
            self@.wf(),
    {
        proof {
            use_type_invariant(self);
        }
        &self.pixels
    }

    /// The level at column `x` of row `y`.
    pub fn get(&self, x: usize, y: usize) -> (level: u8)
        requires
            self@.contains(x as int, y as int),
        ensures
            level == self@.at(x as int, y as int),
    {
        proof {
            use_type_invariant(self);
            lemma_position_index(
                x as int,
                y as int,
                self.width as int,
                self.height as int,
                self.width as int,
            );
        }
        let len: usize = self.pixels.len();
        self.pixels[y * self.width + x]
    }

    /// A copy of the `width` by `height` block whose top-left corner lies at
    /// `(left, top)`. The bitmap itself is only read.
    pub fn sub_image(&self, left: usize, top: usize, width: usize, height: usize) -> (cell: Bitmap)
        requires
            left + width <= self@.width,
            top + height <= self@.height,
        ensures
            cell@.width == width,
            cell@.height == height,
            cell@.is_block_of(self@, left as int, top as int),
    {
        proof {
            use_type_invariant(self);
            if height > 0 {
                lemma_row_start(
                    (top + height) as int,
                    self.height as int,
                    self.width as int,
                );
                assert((top + height) * self.width == (top + height - 1) * self.width
                    + self.width) by (nonlinear_arith);
                assert(self.pixels@.len() == self.height * self.width) by (nonlinear_arith)
                    requires
                        self.pixels@.len() == self.width * self.height,
                ;
            }
        }
        let block = copy_block(&self.pixels, self.width, left, top, width, height);
        let cell = Bitmap { width, height, pixels: block };
        proof {
            assert forall|x: int, y: int| #[trigger] cell@.contains(x, y) implies cell@.at(x, y)
                == self@.at(left + x, top + y) by {
                assert(block@[y * width + x] == self.pixels@[(top + y) * self.width + left + x]);
            }
        }
        cell
    }
}

} // verus!
