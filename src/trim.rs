use vstd::arithmetic::div_mod::{lemma_fundamental_div_mod, lemma_mod_bound};
use vstd::prelude::*;

use crate::sprite::{buffer_len, InputSprite};

verus! {

/// The alpha byte of pixel (`x`, `y`) of a buffer `width` pixels wide.
pub open spec fn alpha_at(bytes: Seq<u8>, width: int, stride: int, alpha: int, x: int, y: int) -> u8 {
    bytes[(y * width + x) * stride + alpha]
}

/// Pixel (`x`, `y`) is not fully transparent.
pub open spec fn opaque(s: InputSprite, stride: int, alpha: int, x: int, y: int) -> bool {
    alpha_at(s.bytes@, s.dimensions.0 as int, stride, alpha, x, y) != 0
}

/// Some pixel of the sprite is not fully transparent.
pub open spec fn any_opaque(s: InputSprite, stride: int, alpha: int) -> bool {
    exists|x: int, y: int|
        0 <= x < s.dimensions.0 && 0 <= y < s.dimensions.1 && #[trigger] opaque(s, stride, alpha, x, y)
}

/// Columns `left..right` and rows `top..bottom` are the smallest rectangle
/// that holds every pixel of `s` that is not fully transparent.
pub open spec fn is_trim_box(
    s: InputSprite,
    stride: int,
    alpha: int,
    left: int,
    top: int,
    right: int,
    bottom: int,
) -> bool {
    &&& 0 <= left < right <= s.dimensions.0
    &&& 0 <= top < bottom <= s.dimensions.1
    &&& forall|x: int, y: int|
        0 <= x < s.dimensions.0 && 0 <= y < s.dimensions.1 && #[trigger] opaque(s, stride, alpha, x, y)
            ==> left <= x < right && top <= y < bottom
    &&& exists|y: int| 0 <= y < s.dimensions.1 && #[trigger] opaque(s, stride, alpha, left, y)
    &&& exists|y: int| 0 <= y < s.dimensions.1 && #[trigger] opaque(s, stride, alpha, right - 1, y)
    &&& exists|x: int| 0 <= x < s.dimensions.0 && #[trigger] opaque(s, stride, alpha, x, top)
    &&& exists|x: int| 0 <= x < s.dimensions.0 && #[trigger] opaque(s, stride, alpha, x, bottom - 1)
}

/// `out` is the rectangle of `s` at columns `left..right` and rows
/// `top..bottom`, tightly packed, `stride` bytes per pixel.
pub open spec fn is_crop(
    out: InputSprite,
    s: InputSprite,
    stride: int,
    left: int,
    top: int,
    right: int,
    bottom: int,
) -> bool {
    let row = (right - left) * stride;
    &&& out.dimensions.0 == right - left
    &&& out.dimensions.1 == bottom - top
    &&& out.bytes.len() == buffer_len(out.dimensions, stride)
    &&& forall|y: int, j: int|
        0 <= y < bottom - top && 0 <= j < row ==> #[trigger] out.bytes@[y * row + j]
            == s.bytes@[(y + top) * (s.dimensions.0 * stride) + left * stride + j]
}

/// `out` is `s` trimmed: empty when every pixel is fully transparent, else
/// the crop of `s` to its trim box.
pub open spec fn trimmed_from(out: InputSprite, s: InputSprite, stride: int, alpha: int) -> bool {
    if any_opaque(s, stride, alpha) {
        exists|left: int, top: int, right: int, bottom: int|
            is_trim_box(s, stride, alpha, left, top, right, bottom) && #[trigger] is_crop(
                out,
                s,
                stride,
                left,
                top,
                right,
                bottom,
            )
    } else {
        out.dimensions == (0u32, 0u32) && out.bytes@.len() == 0
    }
}

/// A well-formed sprite: its buffer holds its pixels at `stride` bytes each.
pub open spec fn sprite_fits(s: InputSprite, stride: int) -> bool {
    s.bytes.len() == buffer_len(s.dimensions, stride)
}

proof fn lemma_pixel_index(w: int, h: int, stride: int, x: int, y: int, c: int)
    requires
        0 <= x < w,
        0 <= y < h,
        0 <= c < stride,
    ensures
        0 <= (y * w + x) * stride + c < w * h * stride,
{
    assert(0 <= y * w + x < w * h) by (nonlinear_arith)
        requires
            0 <= x < w,
            0 <= y < h,
    ;
    assert((y * w + x) * stride + c < w * h * stride) by (nonlinear_arith)
        requires
            0 <= y * w + x < w * h,
            0 <= c < stride,
    ;
    assert(0 <= (y * w + x) * stride) by (nonlinear_arith)
        requires
            0 <= y * w + x,
            0 <= stride,
    ;
}

/// The alpha byte of pixel (`x`, `y`).
fn alpha_of(s: &InputSprite, stride: usize, alpha: usize, x: usize, y: usize) -> (r: u8)
    requires
        sprite_fits(*s, stride as int),
        alpha < stride,
        x < s.dimensions.0,
        y < s.dimensions.1,
    ensures
        r == alpha_at(s.bytes@, s.dimensions.0 as int, stride as int, alpha as int, x as int, y as int),
{
    proof {
        lemma_pixel_index(
            s.dimensions.0 as int,
            s.dimensions.1 as int,
            stride as int,
            x as int,
            y as int,
            alpha as int,
        );
        assert(0 <= y * s.dimensions.0 <= y * s.dimensions.0 + x <= (y * s.dimensions.0 + x) * stride) by (nonlinear_arith)
            requires
                0 <= x,
                0 <= y,
                1 <= stride,
        ;
    }
    let width = s.dimensions.0 as usize;
    s.bytes[(y * width + x) * stride + alpha]
}

/// The first column in `lo..hi` of row `y` that is not fully transparent.
fn first_opaque(s: &InputSprite, stride: usize, alpha: usize, y: usize, lo: usize, hi: usize) -> (r:
    Option<usize>)
    requires
        sprite_fits(*s, stride as int),
        alpha < stride,
        y < s.dimensions.1,
        lo <= hi <= s.dimensions.0,
    ensures
        r matches Some(x) ==> lo <= x < hi && opaque(*s, stride as int, alpha as int, x as int, y as int)
            && forall|z: int| lo <= z < x ==> !#[trigger] opaque(*s, stride as int, alpha as int, z, y as int),
        r is None ==> forall|z: int|
            lo <= z < hi ==> !#[trigger] opaque(*s, stride as int, alpha as int, z, y as int),
{
    let mut x = lo;
    while x < hi
        invariant
            lo <= x <= hi,
            hi <= s.dimensions.0,
            y < s.dimensions.1,
            sprite_fits(*s, stride as int),
            alpha < stride,
            forall|z: int| lo <= z < x ==> !#[trigger] opaque(*s, stride as int, alpha as int, z, y as int),
        decreases hi - x,
    {
        if alpha_of(s, stride, alpha, x, y) != 0 {
            return Some(x);
        }
        x = x + 1;
    }
    None
}

/// The last column in `lo..hi` of row `y` that is not fully transparent.
fn last_opaque(s: &InputSprite, stride: usize, alpha: usize, y: usize, lo: usize, hi: usize) -> (r:
    Option<usize>)
    requires
        sprite_fits(*s, stride as int),
        alpha < stride,
        y < s.dimensions.1,
        lo <= hi <= s.dimensions.0,
    ensures
        r matches Some(x) ==> lo <= x < hi && opaque(*s, stride as int, alpha as int, x as int, y as int)
            && forall|z: int| x < z < hi ==> !#[trigger] opaque(*s, stride as int, alpha as int, z, y as int),
        r is None ==> forall|z: int|
            lo <= z < hi ==> !#[trigger] opaque(*s, stride as int, alpha as int, z, y as int),
{
    let mut x = hi;
    while x > lo
        invariant
            lo <= x <= hi,
            hi <= s.dimensions.0,
            y < s.dimensions.1,
            sprite_fits(*s, stride as int),
            alpha < stride,
            forall|z: int| x <= z < hi ==> !#[trigger] opaque(*s, stride as int, alpha as int, z, y as int),
        decreases x - lo,
    {
        if alpha_of(s, stride, alpha, x - 1, y) != 0 {
            return Some(x - 1);
        }
        x = x - 1;
    }
    None
}

/// Copies columns `left..right` of rows `top..bottom` of `s` into a tightly
/// packed buffer.
fn crop(s: &InputSprite, stride: usize, left: usize, top: usize, right: usize, bottom: usize) -> (r:
    InputSprite)
    requires
        sprite_fits(*s, stride as int),
        left < right <= s.dimensions.0,
        top < bottom <= s.dimensions.1,
    ensures
        is_crop(r, *s, stride as int, left as int, top as int, right as int, bottom as int),
{
    let width = s.dimensions.0 as usize;
    let height = s.dimensions.1 as usize;
    let ghost w = width as int;
    let ghost st = stride as int;
    proof {
        assert(w * height * st == height * (w * st)) by (nonlinear_arith);
        assert((right - left) * st <= w * st) by (nonlinear_arith)
            requires
                0 <= right - left <= w,
                0 <= st,
        ;
        assert(left * st + (right - left) * st == right * st) by (nonlinear_arith);
        assert(right * st <= w * st) by (nonlinear_arith)
            requires
                right <= w,
                0 <= st,
        ;
        assert(w * st <= height * (w * st)) by (nonlinear_arith)
            requires
                1 <= height,
                0 <= w * st,
        ;
    }
    let row = width * stride;
    let out_row = (right - left) * stride;
    let start = left * stride;
    let mut bytes: Vec<u8> = Vec::new();
    let mut y: usize = top;
    while y < bottom
        invariant
            top <= y <= bottom <= height,
            height == s.dimensions.1,
            s.bytes.len() == height * row,
            row == w * st,
            w == s.dimensions.0,
            st == stride,
            start == left * st,
            start + out_row <= row,
            out_row == (right - left) * st,
            bytes.len() == (y - top) * out_row,
            forall|yy: int, jj: int|
                0 <= yy < y - top && 0 <= jj < out_row ==> #[trigger] bytes@[yy * out_row + jj]
                    == s.bytes@[(yy + top) * row + start + jj],
        decreases bottom - y,
    {
        proof {
            assert(y * row + row <= height * row) by (nonlinear_arith)
                requires
                    y < height,
                    0 <= row,
            ;
            assert(0 <= y * row) by (nonlinear_arith)
                requires
                    0 <= y,
                    0 <= row,
            ;
        }
        let base = y * row + start;
        let mut j: usize = 0;
        while j < out_row
            invariant
                top <= y < bottom <= height,
                s.bytes.len() == height * row,
                base == y * row + start,
                start + out_row <= row,
                y * row + row <= height * row,
                j <= out_row,
                bytes.len() == (y - top) * out_row + j,
                forall|yy: int, jj: int|
                    0 <= yy < y - top && 0 <= jj < out_row ==> #[trigger] bytes@[yy * out_row + jj]
                        == s.bytes@[(yy + top) * row + start + jj],
                forall|jj: int|
                    0 <= jj < j ==> #[trigger] bytes@[(y - top) * out_row + jj] == s.bytes@[y * row
                        + start + jj],
            decreases out_row - j,
        {
            let ghost before = bytes@;
            bytes.push(s.bytes[base + j]);
            proof {
                assert forall|yy: int, jj: int|
                    0 <= yy < y - top && 0 <= jj < out_row implies #[trigger] bytes@[yy * out_row + jj]
                        == s.bytes@[(yy + top) * row + start + jj] by {
                    assert(yy * out_row + jj < (y - top) * out_row) by (nonlinear_arith)
                        requires
                            0 <= yy < y - top,
                            0 <= jj < out_row,
                    ;
                    assert(0 <= yy * out_row) by (nonlinear_arith)
                        requires
                            0 <= yy,
                            0 <= out_row,
                    ;
                    assert(bytes@[yy * out_row + jj] == before[yy * out_row + jj]);
                }
                assert forall|jj: int| 0 <= jj < j + 1 implies #[trigger] bytes@[(y - top) * out_row
                    + jj] == s.bytes@[y * row + start + jj] by {
                    if jj < j {
                        assert(bytes@[(y - top) * out_row + jj] == before[(y - top) * out_row + jj]);
                    }
                }
            }
            j = j + 1;
        }
        proof {
            assert((y + 1 - top) * out_row == (y - top) * out_row + out_row) by (nonlinear_arith);
            assert forall|yy: int, jj: int|
                0 <= yy < y + 1 - top && 0 <= jj < out_row implies #[trigger] bytes@[yy * out_row + jj]
                    == s.bytes@[(yy + top) * row + start + jj] by {
                if yy == y - top {
                    assert(bytes@[(y - top) * out_row + jj] == s.bytes@[y * row + start + jj]);
                }
            }
        }
        y = y + 1;
    }
    let r = InputSprite { bytes, dimensions: ((right - left) as u32, (bottom - top) as u32) };
    proof {
        assert(bytes.len() == (bottom - top) * ((right - left) * st));
        assert((bottom - top) * ((right - left) * st) == (right - left) * (bottom - top) * st)
            by (nonlinear_arith);
        assert forall|yy: int, jj: int|
            0 <= yy < bottom - top && 0 <= jj < (right - left) * st implies #[trigger] r.bytes@[yy
                * ((right - left) * st) + jj] == s.bytes@[(yy + top) * (s.dimensions.0 * st) + left
                * st + jj] by {
            assert(r.bytes@[yy * out_row + jj] == s.bytes@[(yy + top) * row + start + jj]);
        }
    }
    r
}

impl InputSprite {
    /// The sprite cropped to the smallest rectangle holding every pixel whose
    /// alpha byte (at `alpha_channel_index` within each pixel of `stride`
    /// bytes) is not zero; an empty 0 by 0 sprite when there is none.
    pub fn trimmed(&self, stride: usize, alpha_channel_index: usize) -> (r: InputSprite)
        requires
            sprite_fits(*self, stride as int),
            alpha_channel_index < stride,
        ensures
            trimmed_from(r, *self, stride as int, alpha_channel_index as int),
    {
        let a = alpha_channel_index;
        let ghost st = stride as int;
        let ghost al = a as int;
        let w = self.dimensions.0 as usize;
        let h = self.dimensions.1 as usize;
        // first row from the top that is not fully transparent
        let mut top: usize = 0;
        let mut first: Option<usize> = None;
        while top < h && first.is_none()
            invariant
                top <= h,
                h == self.dimensions.1,
                w == self.dimensions.0,
                sprite_fits(*self, st),
                st == stride,
                al == a,
                a < stride,
                first is None ==> forall|x: int, y: int|
                    0 <= x < w && 0 <= y < top ==> !#[trigger] opaque(*self, st, al, x, y),
                first matches Some(x0) ==> {
                    &&& top < h
                    &&& x0 < w
                    &&& opaque(*self, st, al, x0 as int, top as int)
                    &&& forall|z: int| 0 <= z < x0 ==> !#[trigger] opaque(*self, st, al, z, top as int)
                    &&& forall|x: int, y: int|
                        0 <= x < w && 0 <= y < top ==> !#[trigger] opaque(*self, st, al, x, y)
                },
            decreases h - top + (if first is None {
                1int
            } else {
                0int
            }),
        {
            first = first_opaque(self, stride, a, top, 0, w);
            if first.is_none() {
                top = top + 1;
            }
        }
        let x0 = match first {
            None => {
                proof {
                    assert(!any_opaque(*self, st, al));
                }
                return InputSprite { bytes: Vec::new(), dimensions: (0, 0) };
            },
            Some(x) => x,
        };
        let x1 = match last_opaque(self, stride, a, top, x0, w) {
            Some(x) => x,
            None => {
                assert(false);
                x0
            },
        };
        let mut left = x0;
        let mut right = x1 + 1;
        let ghost mut y_left = top as int;
        let ghost mut y_right = top as int;
        // last row from the bottom that is not fully transparent
        let mut bottom = h;
        let mut found = false;
        let mut fb: usize = 0;
        while !found
            invariant
                top < bottom <= h,
                h == self.dimensions.1,
                w == self.dimensions.0,
                sprite_fits(*self, st),
                st == stride,
                al == a,
                a < stride,
                x0 < w,
                opaque(*self, st, al, x0 as int, top as int),
                left <= x0,
                right <= w,
                left < right,
                0 <= y_left < h,
                0 <= y_right < h,
                opaque(*self, st, al, left as int, y_left),
                opaque(*self, st, al, right - 1, y_right),
                forall|x: int|
                    0 <= x < w && #[trigger] opaque(*self, st, al, x, top as int) ==> left <= x < right,
                forall|x: int, y: int|
                    0 <= x < w && 0 <= y < top ==> !#[trigger] opaque(*self, st, al, x, y),
                !found ==> forall|x: int, y: int|
                    0 <= x < w && bottom <= y < h ==> !#[trigger] opaque(*self, st, al, x, y),
                found ==> {
                    &&& fb < w
                    &&& opaque(*self, st, al, fb as int, bottom - 1)
                    &&& forall|x: int, y: int|
                        0 <= x < w && bottom <= y < h ==> !#[trigger] opaque(*self, st, al, x, y)
                    &&& forall|x: int|
                        0 <= x < w && #[trigger] opaque(*self, st, al, x, bottom - 1) ==> left <= x < right
                },
            decreases bottom + (if found {
                0int
            } else {
                1int
            }),
        {
            let y = bottom - 1;
            match first_opaque(self, stride, a, y, 0, w) {
                Some(fx) => {
                    let lx = match last_opaque(self, stride, a, y, fx, w) {
                        Some(x) => x,
                        None => {
                            assert(false);
                            fx
                        },
                    };
                    if fx < left {
                        left = fx;
                        proof {
                            y_left = y as int;
                        }
                    }
                    if lx + 1 > right {
                        right = lx + 1;
                        proof {
                            y_right = y as int;
                        }
                    }
                    fb = fx;
                    found = true;
                },
                None => {
                    if y == top {
                        assert(!opaque(*self, st, al, x0 as int, top as int));
                    }
                    bottom = y;
                },
            }
        }
        // rows in between: only the columns outside the current bounds
        let mut y = top + 1;
        while y < bottom - 1
            invariant
                top < y,
                top < bottom <= h,
                y <= bottom || y == top + 1,
                h == self.dimensions.1,
                w == self.dimensions.0,
                sprite_fits(*self, st),
                st == stride,
                al == a,
                a < stride,
                x0 < w,
                fb < w,
                opaque(*self, st, al, x0 as int, top as int),
                opaque(*self, st, al, fb as int, bottom - 1),
                right <= w,
                left < right,
                0 <= y_left < h,
                0 <= y_right < h,
                opaque(*self, st, al, left as int, y_left),
                opaque(*self, st, al, right - 1, y_right),
                forall|x: int, yy: int|
                    0 <= x < w && (yy == top || yy == bottom - 1 || (top < yy < y)) && #[trigger] opaque(
                        *self,
                        st,
                        al,
                        x,
                        yy,
                    ) ==> left <= x < right,
                forall|x: int, yy: int|
                    0 <= x < w && 0 <= yy < top ==> !#[trigger] opaque(*self, st, al, x, yy),
                forall|x: int, yy: int|
                    0 <= x < w && bottom <= yy < h ==> !#[trigger] opaque(*self, st, al, x, yy),
            decreases bottom - y,
        {
            if left > 0 {
                match first_opaque(self, stride, a, y, 0, left) {
                    Some(fx) => {
                        left = fx;
                        proof {
                            y_left = y as int;
                        }
                    },
                    None => {},
                }
            }
            if right < w {
                match last_opaque(self, stride, a, y, right, w) {
                    Some(lx) => {
                        right = lx + 1;
                        proof {
                            y_right = y as int;
                        }
                    },
                    None => {},
                }
            }
            y = y + 1;
        }
        let r = crop(self, stride, left, top, right, bottom);
        proof {
            assert(opaque(*self, st, al, x0 as int, top as int));
            assert(any_opaque(*self, st, al));
            assert forall|x: int, yy: int|
                0 <= x < self.dimensions.0 && 0 <= yy < self.dimensions.1 && #[trigger] opaque(
                    *self,
                    st,
                    al,
                    x,
                    yy,
                ) implies left <= x < right && top <= yy < bottom by {
                if yy < top {
                } else if yy >= bottom {
                } else if yy == top || yy == bottom - 1 {
                } else {
                    assert(top < yy < y);
                }
            }
            assert(is_trim_box(*self, st, al, left as int, top as int, right as int, bottom as int));
            assert(is_crop(r, *self, st, left as int, top as int, right as int, bottom as int));
        }
        r
    }
}

/// Pixel (`x`, `y`) of a crop is pixel (`x + left`, `y + top`) of the source.
proof fn lemma_crop_alpha(
    u: InputSprite,
    s: InputSprite,
    stride: int,
    alpha: int,
    left: int,
    top: int,
    right: int,
    bottom: int,
    x: int,
    y: int,
)
    requires
        is_crop(u, s, stride, left, top, right, bottom),
        0 <= left,
        0 <= top,
        0 <= x < right - left,
        0 <= y < bottom - top,
        0 <= alpha < stride,
    ensures
        opaque(u, stride, alpha, x, y) == opaque(s, stride, alpha, x + left, y + top),
{
    let row = (right - left) * stride;
    let j = x * stride + alpha;
    assert(j < row) by (nonlinear_arith)
        requires
            j == x * stride + alpha,
            0 <= x < right - left,
            0 <= alpha < stride,
            row == (right - left) * stride,
    ;
    assert(0 <= j) by (nonlinear_arith)
        requires
            j == x * stride + alpha,
            0 <= x,
            0 <= alpha,
            0 <= stride,
    ;
    assert(u.bytes@[y * row + j] == s.bytes@[(y + top) * (s.dimensions.0 * stride) + left * stride + j]);
    assert((y * (u.dimensions.0 as int) + x) * stride + alpha == y * row + j) by (nonlinear_arith)
        requires
            u.dimensions.0 == right - left,
            row == (right - left) * stride,
            j == x * stride + alpha,
    ;
    assert(((y + top) * (s.dimensions.0 as int) + (x + left)) * stride + alpha == (y + top) * (
    s.dimensions.0 * stride) + left * stride + j) by (nonlinear_arith)
        requires
            j == x * stride + alpha,
    ;
}

/// Two trim boxes of one sprite are the same box.
proof fn lemma_trim_box_unique(
    s: InputSprite,
    stride: int,
    alpha: int,
    l1: int,
    t1: int,
    r1: int,
    b1: int,
    l2: int,
    t2: int,
    r2: int,
    b2: int,
)
    requires
        is_trim_box(s, stride, alpha, l1, t1, r1, b1),
        is_trim_box(s, stride, alpha, l2, t2, r2, b2),
    ensures
        l1 == l2 && t1 == t2 && r1 == r2 && b1 == b2,
{
    let ya = choose|y: int| 0 <= y < s.dimensions.1 && #[trigger] opaque(s, stride, alpha, l1, y);
    let yb = choose|y: int| 0 <= y < s.dimensions.1 && #[trigger] opaque(s, stride, alpha, l2, y);
    let yc = choose|y: int| 0 <= y < s.dimensions.1 && #[trigger] opaque(s, stride, alpha, r1 - 1, y);
    let yd = choose|y: int| 0 <= y < s.dimensions.1 && #[trigger] opaque(s, stride, alpha, r2 - 1, y);
    let xa = choose|x: int| 0 <= x < s.dimensions.0 && #[trigger] opaque(s, stride, alpha, x, t1);
    let xb = choose|x: int| 0 <= x < s.dimensions.0 && #[trigger] opaque(s, stride, alpha, x, t2);
    let xc = choose|x: int| 0 <= x < s.dimensions.0 && #[trigger] opaque(s, stride, alpha, x, b1 - 1);
    let xd = choose|x: int| 0 <= x < s.dimensions.0 && #[trigger] opaque(s, stride, alpha, x, b2 - 1);
}

/// A crop over the whole sprite is the sprite.
proof fn lemma_full_crop(v: InputSprite, u: InputSprite, stride: int)
    requires
        is_crop(v, u, stride, 0, 0, u.dimensions.0 as int, u.dimensions.1 as int),
        sprite_fits(u, stride),
        0 <= stride,
    ensures
        v.dimensions == u.dimensions,
        v.bytes@ == u.bytes@,
{
    let row = u.dimensions.0 * stride;
    let h = u.dimensions.1 as int;
    assert(u.bytes.len() == h * row) by (nonlinear_arith)
        requires
            u.bytes.len() == u.dimensions.0 * u.dimensions.1 * stride,
            row == u.dimensions.0 * stride,
            h == u.dimensions.1,
    ;
    assert(v.bytes.len() == u.bytes.len());
    assert forall|k: int| 0 <= k < v.bytes.len() implies v.bytes@[k] == u.bytes@[k] by {
        assert(row > 0) by (nonlinear_arith)
            requires
                0 <= k < h * row,
                0 <= h,
        ;
        lemma_fundamental_div_mod(k, row);
        lemma_mod_bound(k, row);
        let y = k / row;
        let j = k % row;
        assert(k == y * row + j) by (nonlinear_arith)
            requires
                k == row * (k / row) + (k % row),
                y == k / row,
                j == k % row,
        ;
        assert(0 <= y < h) by (nonlinear_arith)
            requires
                k == y * row + j,
                0 <= j < row,
                0 <= k < h * row,
        ;
        assert(v.bytes@[y * row + j] == u.bytes@[(y + 0) * row + 0 * stride + j]);
    }
    assert(v.bytes@ =~= u.bytes@);
}

/// The crop of a sprite to its trim box has the whole of itself as trim box.
proof fn lemma_trimmed_box_is_full(u: InputSprite, s: InputSprite, stride: int, alpha: int)
    requires
        0 <= alpha < stride,
        any_opaque(s, stride, alpha),
        trimmed_from(u, s, stride, alpha),
    ensures
        is_trim_box(u, stride, alpha, 0, 0, u.dimensions.0 as int, u.dimensions.1 as int),
        any_opaque(u, stride, alpha),
        sprite_fits(u, stride),
{
    let (l, t, r, b) = choose|l: int, t: int, r: int, b: int|
        is_trim_box(s, stride, alpha, l, t, r, b) && #[trigger] is_crop(u, s, stride, l, t, r, b);
    let wu = u.dimensions.0 as int;
    let hu = u.dimensions.1 as int;
    let ya = choose|y: int| 0 <= y < s.dimensions.1 && #[trigger] opaque(s, stride, alpha, l, y);
    let yc = choose|y: int| 0 <= y < s.dimensions.1 && #[trigger] opaque(s, stride, alpha, r - 1, y);
    let xa = choose|x: int| 0 <= x < s.dimensions.0 && #[trigger] opaque(s, stride, alpha, x, t);
    let xc = choose|x: int| 0 <= x < s.dimensions.0 && #[trigger] opaque(s, stride, alpha, x, b - 1);
    lemma_crop_alpha(u, s, stride, alpha, l, t, r, b, 0, ya - t);
    lemma_crop_alpha(u, s, stride, alpha, l, t, r, b, r - 1 - l, yc - t);
    lemma_crop_alpha(u, s, stride, alpha, l, t, r, b, xa - l, 0);
    lemma_crop_alpha(u, s, stride, alpha, l, t, r, b, xc - l, b - 1 - t);
    assert(opaque(u, stride, alpha, 0, ya - t));
    assert(opaque(u, stride, alpha, wu - 1, yc - t));
    assert(opaque(u, stride, alpha, xa - l, 0));
    assert(opaque(u, stride, alpha, xc - l, hu - 1));
}

/// Trimming is idempotent: trimming the result of a trim again changes
/// nothing.
pub proof fn lemma_trim_idempotent(s: InputSprite, u: InputSprite, v: InputSprite, stride: int, alpha: int)
    requires
        0 <= alpha < stride,
        sprite_fits(s, stride),
        trimmed_from(u, s, stride, alpha),
        trimmed_from(v, u, stride, alpha),
    ensures
        v.dimensions == u.dimensions,
        v.bytes@ == u.bytes@,
{
    if any_opaque(s, stride, alpha) {
        lemma_trimmed_box_is_full(u, s, stride, alpha);
        let (l, t, r, b) = choose|l: int, t: int, r: int, b: int|
            is_trim_box(u, stride, alpha, l, t, r, b) && #[trigger] is_crop(v, u, stride, l, t, r, b);
        lemma_trim_box_unique(
            u,
            stride,
            alpha,
            l,
            t,
            r,
            b,
            0,
            0,
            u.dimensions.0 as int,
            u.dimensions.1 as int,
        );
        lemma_full_crop(v, u, stride);
    } else {
        assert(!any_opaque(u, stride, alpha));
        assert(v.bytes@ =~= u.bytes@);
    }
}

/// Trimming a sprite whose pixels are all fully transparent leaves an empty
/// 0 by 0 sprite.
pub proof fn lemma_trim_transparent(s: InputSprite, u: InputSprite, stride: int, alpha: int)
    requires
        forall|x: int, y: int|
            0 <= x < s.dimensions.0 && 0 <= y < s.dimensions.1 ==> !#[trigger] opaque(s, stride, alpha, x, y),
        trimmed_from(u, s, stride, alpha),
    ensures
        u.dimensions == (0u32, 0u32),
        u.bytes@.len() == 0,
{
}

/// Trimming a sprite none of whose pixels is fully transparent keeps it as
/// it is.
pub proof fn lemma_trim_opaque(s: InputSprite, u: InputSprite, stride: int, alpha: int)
    requires
        0 <= alpha < stride,
        sprite_fits(s, stride),
        s.dimensions.0 > 0,
        s.dimensions.1 > 0,
        forall|x: int, y: int|
            0 <= x < s.dimensions.0 && 0 <= y < s.dimensions.1 ==> #[trigger] opaque(s, stride, alpha, x, y),
        trimmed_from(u, s, stride, alpha),
    ensures
        u.dimensions == s.dimensions,
        u.bytes@ == s.bytes@,
{
    let w = s.dimensions.0 as int;
    let h = s.dimensions.1 as int;
    assert(opaque(s, stride, alpha, 0, 0));
    assert(opaque(s, stride, alpha, w - 1, 0));
    assert(opaque(s, stride, alpha, 0, h - 1));
    assert(is_trim_box(s, stride, alpha, 0, 0, w, h));
    let (l, t, r, b) = choose|l: int, t: int, r: int, b: int|
        is_trim_box(s, stride, alpha, l, t, r, b) && #[trigger] is_crop(u, s, stride, l, t, r, b);
    lemma_trim_box_unique(s, stride, alpha, l, t, r, b, 0, 0, w, h);
    lemma_full_crop(u, s, stride);
}

} // verus!
