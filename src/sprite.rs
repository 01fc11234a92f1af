use vstd::prelude::*;

verus! {

/// A decoded raster image handed to the library: its pixel bytes, row by
/// row, and its size in pixels. How many bytes make one pixel (the stride)
/// is supplied by the caller alongside.
#[derive(Debug)]
pub struct InputSprite {
    pub bytes: Vec<u8>,
    pub dimensions: (u32, u32),
}

/// A sprite inside the pipeline: its pixel bytes together with its id and size.
#[derive(Debug)]
pub struct Sprite {
    pub bytes: Vec<u8>,
    pub data: SpriteData,
}

/// The placement-relevant facts of one sprite: its dense id (its position in
/// the input) and its size.
#[derive(Debug, Clone, Copy)]
pub struct SpriteData {
    pub id: usize,
    pub dimensions: (u32, u32),
}

/// Where one sprite landed: the top-left corner within its sheet and its size.
#[derive(Debug, Clone, Copy)]
pub struct SpriteAnchor {
    pub id: usize,
    pub position: (u32, u32),
    pub dimensions: (u32, u32),
}

/// Number of bytes in a tightly packed buffer of `dimensions` pixels.
pub open spec fn buffer_len(dimensions: (u32, u32), stride: int) -> int {
    dimensions.0 * dimensions.1 * stride
}

/// Whether a column `x` and row `y` of a sheet fall inside the rectangle
/// that `anchor` covers.
pub open spec fn covers(anchor: SpriteAnchor, x: int, y: int) -> bool {
    &&& anchor.position.0 <= x < anchor.position.0 + anchor.dimensions.0
    &&& anchor.position.1 <= y < anchor.position.1 + anchor.dimensions.1
}

/// Byte `j` of row `y` of a sheet `width` pixels wide, after `sprite` was
/// copied in at `anchor`: inside the sprite's rows and columns from there it is the
/// sprite's matching byte, elsewhere the sheet's byte from before.
pub open spec fn blitted_byte(
    before: Seq<u8>,
    width: int,
    stride: int,
    sprite: Seq<u8>,
    sprite_dims: (u32, u32),
    anchor: SpriteAnchor,
    y: int,
    j: int,
) -> u8 {
    let ax = anchor.position.0 as int;
    let ay = anchor.position.1 as int;
    let sprite_width = sprite_dims.0 as int;
    if ay <= y < ay + sprite_dims.1 && ax * stride <= j < (ax + sprite_width) * stride {
        sprite[(y - ay) * (sprite_width * stride) + (j - ax * stride)]
    } else {
        before[y * (width * stride) + j]
    }
}

/// The whole sheet buffer after `sprite` was copied in at `anchor`.
pub open spec fn blit(
    before: Seq<u8>,
    width: int,
    stride: int,
    sprite: Seq<u8>,
    sprite_dims: (u32, u32),
    anchor: SpriteAnchor,
) -> Seq<u8> {
    Seq::new(
        before.len(),
        |k: int|
            blitted_byte(
                before,
                width,
                stride,
                sprite,
                sprite_dims,
                anchor,
                k / (width * stride),
                k % (width * stride),
            ),
    )
}

/// A buffer that matches `blitted_byte` row by row is the `blit`.
proof fn lemma_blit_rows(
    after: Seq<u8>,
    before: Seq<u8>,
    width: int,
    height: int,
    stride: int,
    sprite: Seq<u8>,
    sprite_dims: (u32, u32),
    anchor: SpriteAnchor,
)
    requires
        0 <= height,
        0 <= width * stride,
        after.len() == before.len(),
        before.len() == height * (width * stride),
        forall|y: int, j: int|
            0 <= y < height && 0 <= j < width * stride ==> #[trigger] after[y * (width * stride) + j]
                == blitted_byte(before, width, stride, sprite, sprite_dims, anchor, y, j),
    ensures
        after == blit(before, width, stride, sprite, sprite_dims, anchor),
{
    let row = width * stride;
    assert forall|k: int| 0 <= k < after.len() implies after[k] == blit(
        before,
        width,
        stride,
        sprite,
        sprite_dims,
        anchor,
    )[k] by {
        assert(row > 0) by (nonlinear_arith)
            requires
                0 <= k < height * row,
                0 <= height,
        ;
        vstd::arithmetic::div_mod::lemma_fundamental_div_mod(k, row);
        vstd::arithmetic::div_mod::lemma_mod_bound(k, row);
        let y = k / row;
        let j = k % row;
        assert(k == y * row + j) by (nonlinear_arith)
            requires
                k == row * (k / row) + (k % row),
                y == k / row,
                j == k % row,
        ;
        assert(0 <= y < height) by (nonlinear_arith)
            requires
                k == y * row + j,
                0 <= j < row,
                0 <= k < height * row,
        ;
        assert(after[y * row + j] == blitted_byte(before, width, stride, sprite, sprite_dims, anchor, y, j));
    }
    assert(after =~= blit(before, width, stride, sprite, sprite_dims, anchor));
}

impl Clone for InputSprite {
    fn clone(&self) -> (r: Self)
        ensures
            r.bytes@ == self.bytes@,
            r.dimensions == self.dimensions,
    {
        InputSprite { bytes: self.bytes.clone(), dimensions: self.dimensions }
    }
}

impl Clone for Sprite {
    fn clone(&self) -> (r: Self)
        ensures
            r.bytes@ == self.bytes@,
            r.data == self.data,
    {
        Sprite { bytes: self.bytes.clone(), data: self.data }
    }
}

impl Sprite {
    pub fn from_input(index: usize, input: InputSprite) -> (r: Sprite)
        ensures
            r.bytes@ == input.bytes@,
            r.data.id == index,
            r.data.dimensions == input.dimensions,
    {
        Sprite { bytes: input.bytes, data: SpriteData { id: index, dimensions: input.dimensions } }
    }
}

impl SpriteData {
    pub fn new(id: usize, dimensions: (u32, u32)) -> (r: Self)
        ensures
            r.id == id,
            r.dimensions == dimensions,
    {
        SpriteData { id, dimensions }
    }
}

impl SpriteAnchor {
    pub fn new(id: usize, position: (u32, u32), dimensions: (u32, u32)) -> (r: Self)
        ensures
            r.id == id,
            r.position == position,
            r.dimensions == dimensions,
    {
        SpriteAnchor { id, position, dimensions }
    }
}

/// A zero-filled sheet buffer of `dimensions` pixels of `stride` bytes each.
pub fn create_pixel_buffer(dimensions: (u32, u32), stride: usize) -> (r: Vec<u8>)
    requires
        buffer_len(dimensions, stride as int) <= usize::MAX,
    ensures
        r.len() == buffer_len(dimensions, stride as int),
        forall|k: int| 0 <= k < r.len() ==> r[k] == 0,
{
    if stride == 0 || dimensions.1 == 0 {
        assert(buffer_len(dimensions, stride as int) == 0) by (nonlinear_arith)
            requires
                stride == 0 || dimensions.1 == 0,
                buffer_len(dimensions, stride as int) == dimensions.0 * dimensions.1 * stride,
        ;
        return Vec::new();
    }
    assert(dimensions.0 * dimensions.1 <= dimensions.0 * dimensions.1 * stride) by (nonlinear_arith)
        requires
            stride >= 1,
    ;
    let length = (dimensions.0 as usize) * (dimensions.1 as usize) * stride;
    let mut buffer: Vec<u8> = Vec::with_capacity(length);
    let mut k: usize = 0;
    while k < length
        invariant
            k <= length,
            buffer.len() == k,
            forall|i: int| 0 <= i < k ==> buffer[i] == 0,
        decreases length - k,
    {
        buffer.push(0);
        k = k + 1;
    }
    buffer
}

proof fn lemma_row_offset(y: int, row: int, j: int, rows: int)
    requires
        0 <= y < rows,
        0 <= j < row,
    ensures
        0 <= y * row + j < rows * row,
        y * row <= y * row + j,
{
    assert(y * row + j < rows * row) by (nonlinear_arith)
        requires
            0 <= y < rows,
            0 <= j < row,
    ;
    assert(0 <= y * row) by (nonlinear_arith)
        requires
            0 <= y,
            0 <= row,
    ;
}

proof fn lemma_row_unique(y1: int, j1: int, y2: int, j2: int, row: int)
    requires
        0 <= j1 < row,
        0 <= j2 < row,
        y1 * row + j1 == y2 * row + j2,
    ensures
        y1 == y2,
        j1 == j2,
{
    if y1 < y2 {
        assert(y1 * row + row <= y2 * row) by (nonlinear_arith)
            requires
                y1 < y2,
                0 <= row,
        ;
    } else if y2 < y1 {
        assert(y2 * row + row <= y1 * row) by (nonlinear_arith)
            requires
                y2 < y1,
                0 <= row,
        ;
    }
}

/// Copies the pixels of `sprite` into the sheet `buffer` (`dimensions` pixels
/// of `stride` bytes) with the sprite's top-left pixel at `anchor.position`.
/// Every byte inside the anchor's rectangle takes the sprite's matching byte;
/// every other byte keeps its value.
pub fn write_sprite(
    buffer: &mut Vec<u8>,
    dimensions: (u32, u32),
    stride: usize,
    sprite: &Sprite,
    anchor: &SpriteAnchor,
)
    requires
        old(buffer).len() == buffer_len(dimensions, stride as int),
        sprite.bytes.len() == buffer_len(sprite.data.dimensions, stride as int),
        anchor.dimensions == sprite.data.dimensions,
        anchor.position.0 + anchor.dimensions.0 <= dimensions.0,
        anchor.position.1 + anchor.dimensions.1 <= dimensions.1,
    ensures
        final(buffer).len() == old(buffer).len(),
        final(buffer)@ == blit(
            old(buffer)@,
            dimensions.0 as int,
            stride as int,
            sprite.bytes@,
            sprite.data.dimensions,
            *anchor,
        ),
        forall|y: int, j: int|
            0 <= y < dimensions.1 && 0 <= j < dimensions.0 * stride ==> #[trigger] final(buffer)@[y * (dimensions.0 * stride) + j] == blitted_byte(
                old(buffer)@,
                dimensions.0 as int,
                stride as int,
                sprite.bytes@,
                sprite.data.dimensions,
                *anchor,
                y,
                j,
            ),
{
    let width = dimensions.0 as usize;
    let height = dimensions.1 as usize;
    let sw = sprite.data.dimensions.0 as usize;
    let sh = sprite.data.dimensions.1 as usize;
    let ax = anchor.position.0 as usize;
    let ay = anchor.position.1 as usize;
    if sw == 0 || sh == 0 || stride == 0 {
        proof {
            assert forall|yy: int, jj: int|
                0 <= yy < dimensions.1 && 0 <= jj < dimensions.0 * stride implies #[trigger] buffer@[
                yy * (dimensions.0 * stride) + jj] == blitted_byte(
                    buffer@,
                    dimensions.0 as int,
                    stride as int,
                    sprite.bytes@,
                    sprite.data.dimensions,
                    *anchor,
                    yy,
                    jj,
                ) by {
                assert((ax + sw) * stride == ax * stride + sw * stride) by (nonlinear_arith);
                if sh != 0 {
                    assert(sw * stride == 0) by (nonlinear_arith)
                        requires
                            sw == 0 || stride == 0,
                    ;
                }
            }
            assert(buffer.len() == height * (width * stride)) by (nonlinear_arith)
                requires
                    buffer.len() == width * height * stride,
            ;
            assert(0 <= width * stride) by (nonlinear_arith);
            lemma_blit_rows(
                buffer@,
                buffer@,
                width as int,
                height as int,
                stride as int,
                sprite.bytes@,
                sprite.data.dimensions,
                *anchor,
            );
        }
        return;
    }
    let ghost before = buffer@;
    let ghost w = width as int;
    let ghost s = stride as int;
    proof {
        assert(buffer.len() == w * height * s);
        assert(w * height * s == height * (w * s)) by (nonlinear_arith);
        assert(sprite.bytes.len() == sh * (sw * s)) by (nonlinear_arith)
            requires
                sprite.bytes.len() == sw * sh * s,
        ;
        assert((ax + sw) * s <= w * s) by (nonlinear_arith)
            requires
                ax + sw <= w,
                0 <= s,
        ;
        assert(ax * s + sw * s == (ax + sw) * s) by (nonlinear_arith);
        assert(sw * s >= 1) by (nonlinear_arith)
            requires
                sw >= 1,
                s >= 1,
        ;
        assert(w * s <= height * (w * s)) by (nonlinear_arith)
            requires
                height >= 1,
                w * s >= 0,
        ;
    }
    let row = width * stride;
    let sprite_row = sw * stride;
    let left = ax * stride;
    let mut y: usize = 0;
    while y < sh
        invariant
            0 <= y <= sh,
            ay + sh <= height,
            ax + sw <= width,
            row == w * s,
            sprite_row == sw * s,
            left == ax * s,
            left + sprite_row <= row,
            sprite_row >= 1,
            buffer.len() == height * row,
            sprite.bytes.len() == sh * sprite_row,
            before.len() == height * row,
            w == dimensions.0,
            s == stride,
            sw == sprite.data.dimensions.0,
            sh == anchor.dimensions.1,
            ax == anchor.position.0,
            ay == anchor.position.1,
            height == dimensions.1,
            forall|yy: int, j: int|
                0 <= yy < height && 0 <= j < row ==> #[trigger] buffer@[yy * row + j] == if ay
                    <= yy < ay + y && left <= j < left + sprite_row {
                    sprite.bytes@[(yy - ay) * sprite_row + (j - left)]
                } else {
                    before[yy * row + j]
                },
        decreases sh - y,
    {
        proof {
            lemma_row_offset((ay + y) as int, row as int, 0, height as int);
            lemma_row_offset(y as int, sprite_row as int, 0, sh as int);
        }
        proof {
            assert((ay + y) * row + left + sprite_row <= height * row) by (nonlinear_arith)
                requires
                    ay + y < height,
                    left + sprite_row <= row,
            ;
            assert(y * sprite_row + sprite_row <= sh * sprite_row) by (nonlinear_arith)
                requires
                    y < sh,
            ;
        }
        let dst = (ay + y) * row + left;
        let src = y * sprite_row;
        let mut j: usize = 0;
        while j < sprite_row
            invariant
                0 <= j <= sprite_row,
                y < sh,
                ay + sh <= height,
                row == w * s,
                left + sprite_row <= row,
                buffer.len() == height * row,
                sprite.bytes.len() == sh * sprite_row,
                before.len() == height * row,
                dst == (ay + y) * row + left,
                src == y * sprite_row,
                dst + sprite_row <= height * row,
                src + sprite_row <= sh * sprite_row,
                forall|yy: int, jj: int|
                    0 <= yy < height && 0 <= jj < row ==> #[trigger] buffer@[yy * row + jj] == if (
                    ay <= yy < ay + y && left <= jj < left + sprite_row) || (yy == ay + y && left
                        <= jj < left + j) {
                        sprite.bytes@[(yy - ay) * sprite_row + (jj - left)]
                    } else {
                        before[yy * row + jj]
                    },
            decreases sprite_row - j,
        {
            let b = sprite.bytes[src + j];
            buffer.set(dst + j, b);
            proof {
                assert forall|yy: int, jj: int| 0 <= yy < height && 0 <= jj < row implies #[trigger] buffer@[yy * row + jj] == if (
                ay <= yy < ay + y && left <= jj < left + sprite_row) || (yy == ay + y && left
                    <= jj < left + j + 1) {
                    sprite.bytes@[(yy - ay) * sprite_row + (jj - left)]
                } else {
                    before[yy * row + jj]
                } by {
                    lemma_row_offset(yy, row as int, jj, height as int);
                    if yy * row + jj == dst + j {
                        lemma_row_unique(yy, jj, (ay + y) as int, (left + j) as int, row as int);
                    }
                }
            }
            j = j + 1;
        }
        y = y + 1;
    }
    proof {
        assert forall|yy: int, jj: int|
            0 <= yy < dimensions.1 && 0 <= jj < dimensions.0 * stride implies #[trigger] buffer@[yy
                * (dimensions.0 * stride) + jj] == blitted_byte(
                before,
                dimensions.0 as int,
                stride as int,
                sprite.bytes@,
                sprite.data.dimensions,
                *anchor,
                yy,
                jj,
            ) by {
            assert((ax + sw) * s == ax * s + sw * s) by (nonlinear_arith);
        }
        lemma_blit_rows(buffer@, before, w, height as int, s, sprite.bytes@, sprite.data.dimensions, *anchor);
    }
}

} // verus!
