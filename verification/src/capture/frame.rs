//! Captured frames and the parts cut from them.

use vstd::prelude::*;

verus! {

/// A captured image.
#[derive(Debug)]
pub struct Frame {
    pub w: u32,
    pub h: u32,
    /// Screen coordinate of this frame's top-left. NOT always (0,0): a monitor
    /// placed left of or above the primary gives the virtual screen a negative
    /// origin, and a region reported without it points at the wrong place.
    pub origin: (i32, i32),
    /// Row-major RGB, top-down.
    pub rgb: Vec<u8>,
}

/// The bytes that `w` by `h` pixels take.
pub open spec fn byte_size(w: int, h: int) -> int {
    w * h * 3
}

/// The place of a pixel's first byte in an image `w` pixels wide.
pub open spec fn byte_place(w: int, x: int, y: int) -> int {
    (y * w + x) * 3
}

/// The three bytes of a pixel in an image `w` pixels wide.
pub open spec fn pixel_in(rgb: Seq<u8>, w: int, x: int, y: int) -> (u8, u8, u8) {
    let i = byte_place(w, x, y);
    (rgb[i], rgb[i + 1], rgb[i + 2])
}

impl Frame {
    /// The buffer holds every pixel, and possibly more.
    pub open spec fn holds_pixels(&self) -> bool {
        byte_size(self.w as int, self.h as int) <= self.rgb@.len()
    }

    /// The buffer holds the pixels and nothing else.
    pub open spec fn exact(&self) -> bool {
        byte_size(self.w as int, self.h as int) == self.rgb@.len()
    }

    /// Every pixel has a screen coordinate.
    pub open spec fn on_screen(&self) -> bool {
        &&& self.w <= 0x8000_0000u32
        &&& self.h <= 0x8000_0000u32
        &&& self.origin.0 + self.w <= 0x8000_0000u32
        &&& self.origin.1 + self.h <= 0x8000_0000u32
    }

    /// The pixel at a place in the frame.
    pub open spec fn pixel(&self, x: int, y: int) -> (u8, u8, u8) {
        pixel_in(self.rgb@, self.w as int, x, y)
    }
}

/// A pixel inside an image lies inside its bytes.
pub proof fn lemma_byte_place(w: int, h: int, x: int, y: int)
    requires
        0 <= x < w,
        0 <= y < h,
    ensures
        0 <= byte_place(w, x, y),
        byte_place(w, x, y) + 3 <= byte_size(w, h),
        0 <= y * w,
        y * w + x < w * h,
{
    assert(0 <= y * w) by (nonlinear_arith)
        requires
            0 <= y,
            0 <= x < w,
    ;
    assert(y * w + w <= w * h) by (nonlinear_arith)
        requires
            0 <= y < h,
            0 <= x < w,
    ;
}

/// The places that a row-by-row scan has passed when it stands at `(cx, cy)`.
pub open spec fn scanned(cx: int, cy: int, x: int, y: int) -> bool {
    y < cy || (y == cy && x < cx)
}

/// What a scan has passed lies before the place where it stands.
pub proof fn lemma_scanned_before(w: int, cx: int, cy: int, x: int, y: int)
    requires
        0 <= x < w,
        0 <= y,
        0 <= cx,
        scanned(cx, cy, x, y),
    ensures
        0 <= byte_place(w, x, y),
        byte_place(w, x, y) + 3 <= byte_place(w, cx, cy),
{
    assert(0 <= y * w) by (nonlinear_arith)
        requires
            0 <= y,
            0 <= x < w,
    ;
    if y < cy {
        assert(y * w + w <= cy * w) by (nonlinear_arith)
            requires
                y < cy,
                0 <= x < w,
        ;
    }
}

/// How many rows of a frame `h` rows high lie in a cut of `n` rows from `y`.
pub open spec fn rows_in(h: int, y: int, n: int) -> int {
    if y + n <= h {
        n
    } else if y <= h {
        h - y
    } else {
        0
    }
}

/// How many columns of a frame `w` columns wide lie in a cut of `n` columns
/// from `x`.
pub open spec fn cols_in(w: int, x: int, n: int) -> int {
    if x + n <= w {
        n
    } else {
        w - x
    }
}

/// Whether the frame's buffer reaches as far as the cut does.
pub open spec fn cut_fits(f: Frame, x: int, y: int, w: int, h: int) -> bool {
    rows_in(f.h as int, y, h) > 0 ==> x <= f.w && byte_place(
        f.w as int,
        x + cols_in(f.w as int, x, w),
        y + rows_in(f.h as int, y, h) - 1,
    ) <= f.rgb@.len()
}

/// The part of a frame from `(x, y)` on. It says where on the screen it came
/// from; its size is the size asked for, and its pixels are those of the
/// request that the frame has.
#[verifier::loop_isolation(false)]
pub fn crop(f: &Frame, x: u32, y: u32, w: u32, h: u32) -> (c: Frame)
    requires
        y + h <= u32::MAX,
        cut_fits(*f, x as int, y as int, w as int, h as int),
        i32::MIN <= f.origin.0 + (x as i32) <= i32::MAX,
        i32::MIN <= f.origin.1 + (y as i32) <= i32::MAX,
    ensures
        c.w == w,
        c.h == h,
        c.origin.0 == f.origin.0 + (x as i32),
        c.origin.1 == f.origin.1 + (y as i32),
        ({
            let cols = cols_in(f.w as int, x as int, w as int);
            let rows = rows_in(f.h as int, y as int, h as int);
            &&& rows > 0 ==> c.rgb@.len() == byte_size(cols, rows)
            &&& rows == 0 ==> c.rgb@.len() == 0
            &&& forall|i: int, j: int|
                #![trigger pixel_in(c.rgb@, cols, i, j)]
                0 <= i < cols && 0 <= j < rows ==> pixel_in(c.rgb@, cols, i, j) == f.pixel(
                    x + i,
                    y + j,
                )
        }),
{
    let mut out: Vec<u8> = Vec::new();
    let end: u32 = if y + h < f.h {
        y + h
    } else {
        f.h
    };
    let size: usize = f.rgb.len();
    let ghost rows = rows_in(f.h as int, y as int, h as int);
    let ghost cols = cols_in(f.w as int, x as int, w as int);
    if y < end {
        let n: u32 = if w < f.w - x {
            w
        } else {
            f.w - x
        };
        assert(n == cols);
        assert(end == y + rows);
        let mut row: u32 = y;
        assert(byte_place(cols, 0, 0) == 0) by (nonlinear_arith);
        while row < end
            invariant
                y <= row <= end,
                out@.len() == byte_place(cols, 0, row - y),
                forall|i: int, j: int|
                    #![trigger pixel_in(out@, cols, i, j)]
                    0 <= i < cols && 0 <= j < row - y ==> pixel_in(out@, cols, i, j) == f.pixel(
                        x + i,
                        y + j,
                    ),
            decreases end - row,
        {
            let mut col: u32 = 0;
            while col < n
                invariant
                    col <= n,
                    y <= row < end,
                    out@.len() == byte_place(cols, col as int, row - y),
                    forall|i: int, j: int|
                        #![trigger pixel_in(out@, cols, i, j)]
                        0 <= i < cols && 0 <= j && scanned(col as int, row - y, i, j)
                            ==> pixel_in(out@, cols, i, j) == f.pixel(x + i, y + j),
                decreases n - col,
            {
                let ghost before = out@;
                proof {
                    assert(row * f.w <= (end - 1) * f.w) by (nonlinear_arith)
                        requires
                            0 <= row <= end - 1,
                            0 <= f.w,
                    ;
                    assert(0 <= row * f.w) by (nonlinear_arith)
                        requires
                            0 <= row,
                            0 <= f.w,
                    ;
                    assert(row * f.w + x + col < size);
                }
                let i: usize = ((row as usize) * (f.w as usize) + (x as usize) + (col as usize))
                    * 3;
                out.push(f.rgb[i]);
                out.push(f.rgb[i + 1]);
                out.push(f.rgb[i + 2]);
                proof {
                    assert(pixel_in(out@, cols, col as int, row - y) == f.pixel(
                        x + col,
                        y + (row - y),
                    ));
                    assert forall|p: int, q: int|
                        #![trigger pixel_in(out@, cols, p, q)]
                        0 <= p < cols && 0 <= q && scanned(col + 1, row - y, p, q) implies pixel_in(
                        out@,
                        cols,
                        p,
                        q,
                    ) == f.pixel(x + p, y + q) by {
                        if scanned(col as int, row - y, p, q) {
                            lemma_scanned_before(cols, col as int, row - y, p, q);
                            assert(pixel_in(out@, cols, p, q) == pixel_in(before, cols, p, q));
                        }
                    }
                }
                col = col + 1;
            }
            assert((row - y + 1) * cols == (row - y) * cols + cols) by (nonlinear_arith);
            row = row + 1;
        }
        assert(byte_place(cols, 0, rows) == byte_size(cols, rows)) by (nonlinear_arith);
    }
    Frame { w, h, origin: (f.origin.0 + x as i32, f.origin.1 + y as i32), rgb: out }
}

/// The part of a frame that a recogniser is to read.
pub fn crop_frame(f: &Frame, x: u32, y: u32, w: u32, h: u32) -> (c: Frame)
    requires
        y + h <= u32::MAX,
        cut_fits(*f, x as int, y as int, w as int, h as int),
        i32::MIN <= f.origin.0 + (x as i32) <= i32::MAX,
        i32::MIN <= f.origin.1 + (y as i32) <= i32::MAX,
    ensures
        c.w == w,
        c.h == h,
        c.origin.0 == f.origin.0 + (x as i32),
        c.origin.1 == f.origin.1 + (y as i32),
        ({
            let cols = cols_in(f.w as int, x as int, w as int);
            let rows = rows_in(f.h as int, y as int, h as int);
            &&& rows > 0 ==> c.rgb@.len() == byte_size(cols, rows)
            &&& rows == 0 ==> c.rgb@.len() == 0
            &&& forall|i: int, j: int|
                #![trigger pixel_in(c.rgb@, cols, i, j)]
                0 <= i < cols && 0 <= j < rows ==> pixel_in(c.rgb@, cols, i, j) == f.pixel(
                    x + i,
                    y + j,
                )
        }),
{
    crop(f, x, y, w, h)
}

/// Pixels stand row by row from the top, three bytes each: red, green, blue.
pub proof fn law_pixels_stand_row_by_row(f: Frame, x: int, y: int)
    ensures
        f.pixel(x, y).0 == f.rgb@[3 * (f.w * y + x)],
        f.pixel(x, y).1 == f.rgb@[3 * (f.w * y + x) + 1],
        f.pixel(x, y).2 == f.rgb@[3 * (f.w * y + x) + 2],
        f.holds_pixels() <==> 3 * (f.w * f.h) <= f.rgb@.len(),
        f.exact() <==> 3 * (f.w * f.h) == f.rgb@.len(),
{
    assert(y * f.w == f.w * y) by (nonlinear_arith);
}

/// A cut has exactly the rows and columns of the request that the frame has.
pub proof fn law_cut_has_what_the_frame_has(size: int, from: int, n: int, i: int)
    requires
        size >= 0,
        from >= 0,
        n >= 0,
    ensures
        0 <= i < rows_in(size, from, n) <==> 0 <= i < n && from + i < size,
        from <= size ==> (0 <= i < cols_in(size, from, n) <==> 0 <= i < n && from + i < size),
{
}

} // verus!
