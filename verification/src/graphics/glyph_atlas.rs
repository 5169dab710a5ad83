//! Packing rasterized glyphs into one atlas image.
//!
//! The glyphs stand side by side in a single row, each followed by one empty
//! column so that neighbouring glyphs do not bleed into each other when the
//! atlas is sampled. The atlas is as high as the highest glyph; every glyph
//! starts at the top row.

use vstd::prelude::*;

verus! {

/// The coverage bitmap of one rasterized glyph, row by row from the top left.
pub struct GlyphBitmap {
    /// The width of the bitmap in whole pixels.
    pub width: usize,
    /// The height of the bitmap in whole pixels.
    pub height: usize,
    /// One coverage value per pixel.
    pub coverage: Vec<u8>,
}

impl GlyphBitmap {
    /// The bitmap holds exactly one value per pixel.
    pub open spec fn wf(&self) -> bool {
        self.coverage@.len() == self.width * self.height
    }
}

/// A row of glyphs packed into one image.
pub struct RowAtlas {
    /// The width of the image in pixels.
    pub width: usize,
    /// The height of the image in pixels.
    pub height: usize,
    /// One coverage value per pixel, row by row from the top left.
    pub pixels: Vec<u8>,
    /// For every glyph, the column at which it starts.
    pub offsets: Vec<usize>,
}

/// The column at which glyph `i` starts: the widths of the glyphs before it,
/// plus one column of padding after each of them.
pub open spec fn row_offset(glyphs: Seq<GlyphBitmap>, i: int) -> int
    decreases i,
{
    if i <= 0 {
        0
    } else {
        row_offset(glyphs, i - 1) + glyphs[i - 1].width + 1
    }
}

/// The height of the highest of the first `n` glyphs.
pub open spec fn row_height(glyphs: Seq<GlyphBitmap>, n: int) -> int
    decreases n,
{
    if n <= 0 {
        0
    } else if glyphs[n - 1].height > row_height(glyphs, n - 1) {
        glyphs[n - 1].height as int
    } else {
        row_height(glyphs, n - 1)
    }
}

/// Pixel `(x, y)` of the atlas lies in the box of glyph `i`.
pub open spec fn in_glyph(glyphs: Seq<GlyphBitmap>, i: int, x: int, y: int) -> bool {
    &&& row_offset(glyphs, i) <= x < row_offset(glyphs, i) + glyphs[i].width
    &&& 0 <= y < glyphs[i].height
}

/// What pixel `(x, y)` of the atlas of the first `n` glyphs holds: the
/// coverage of the glyph whose box it lies in, and nothing outside every box.
pub open spec fn atlas_pixel(glyphs: Seq<GlyphBitmap>, n: int, x: int, y: int) -> u8
    decreases n,
{
    if n <= 0 {
        0
    } else if in_glyph(glyphs, n - 1, x, y) {
        glyphs[n - 1].coverage@[y * glyphs[n - 1].width + (x - row_offset(glyphs, n - 1))]
    } else {
        atlas_pixel(glyphs, n - 1, x, y)
    }
}

/// The value of pixel `(x, y)` of an image of the given width.
pub open spec fn image_pixel(pixels: Seq<u8>, width: int, x: int, y: int) -> u8 {
    pixels[y * width + x]
}

/// The image is the atlas of the glyphs.
pub open spec fn is_row_atlas(glyphs: Seq<GlyphBitmap>, atlas: RowAtlas) -> bool {
    &&& atlas.width == row_offset(glyphs, glyphs.len() as int)
    &&& atlas.height == row_height(glyphs, glyphs.len() as int)
    &&& atlas.pixels@.len() == atlas.width * atlas.height
    &&& atlas.offsets@.len() == glyphs.len()
    &&& forall|i: int| 0 <= i < glyphs.len() ==> #[trigger] atlas.offsets@[i] == row_offset(glyphs, i)
    &&& forall|x: int, y: int|
        0 <= x < atlas.width && 0 <= y < atlas.height ==> #[trigger] image_pixel(
            atlas.pixels@,
            atlas.width as int,
            x,
            y,
        ) == atlas_pixel(glyphs, glyphs.len() as int, x, y)
}

/// What pixel `(x, y)` holds while glyph `i` is being drawn: the rows of the
/// glyph above `row` and the first `column` pixels of that row are in place
/// over the atlas of the glyphs before it.
spec fn partly_drawn(
    glyphs: Seq<GlyphBitmap>,
    i: int,
    row: int,
    column: int,
    x: int,
    y: int,
) -> u8 {
    if in_glyph(glyphs, i, x, y) && (y < row || (y == row && x - row_offset(glyphs, i) < column)) {
        glyphs[i].coverage@[y * glyphs[i].width + (x - row_offset(glyphs, i))]
    } else {
        atlas_pixel(glyphs, i, x, y)
    }
}

/// Offsets and heights grow with the number of glyphs, and every glyph's box
/// lies inside the row.
pub proof fn lemma_row_grows(glyphs: Seq<GlyphBitmap>, i: int, n: int)
    requires
        0 <= i <= n <= glyphs.len(),
    ensures
        0 <= row_offset(glyphs, i) <= row_offset(glyphs, n),
        0 <= row_height(glyphs, i) <= row_height(glyphs, n),
        i < n ==> row_offset(glyphs, i) + glyphs[i].width + 1 <= row_offset(glyphs, n),
        i < n ==> glyphs[i].height <= row_height(glyphs, n),
    decreases n,
{
    if i < n {
        lemma_row_grows(glyphs, i, n - 1);
    } else {
        if i > 0 {
            lemma_row_grows(glyphs, i - 1, i - 1);
        }
    }
}

/// A pixel index inside an image of the given size.
proof fn lemma_pixel_index(width: int, height: int, x: int, y: int)
    requires
        0 <= x < width,
        0 <= y < height,
    ensures
        0 <= y * width,
        0 <= y * width + x < width * height,
{
    assert(0 <= y * width && y * width + width <= height * width && height * width == width
        * height) by (nonlinear_arith)
        requires
            0 <= y < height,
            0 < width,
    ;
}

/// Different pixels of an image have different indices.
proof fn lemma_pixel_index_injective(width: int, x1: int, y1: int, x2: int, y2: int)
    requires
        0 <= x1 < width,
        0 <= x2 < width,
        y1 * width + x1 == y2 * width + x2,
    ensures
        x1 == x2,
        y1 == y2,
{
    assert(y1 == y2) by (nonlinear_arith)
        requires
            0 <= x1 < width,
            0 <= x2 < width,
            y1 * width + x1 == y2 * width + x2,
    ;
}

/// Packs the glyphs into one row, or returns `None` when the image would
/// have more pixels than can be addressed.
pub fn pack_row(glyphs: &Vec<GlyphBitmap>) -> (packed: Option<RowAtlas>)
    requires
        forall|i: int| 0 <= i < glyphs@.len() ==> (#[trigger] glyphs@[i]).wf(),
    ensures
        match packed {
            Some(atlas) => is_row_atlas(glyphs@, atlas),
            None => row_offset(glyphs@, glyphs@.len() as int) * row_height(
                glyphs@,
                glyphs@.len() as int,
            ) > usize::MAX || row_offset(glyphs@, glyphs@.len() as int) > usize::MAX,
        },
{
    let count = glyphs.len();
    let mut offsets: Vec<usize> = Vec::new();
    let mut width: usize = 0;
    let mut height: usize = 0;
    let mut i: usize = 0;
    while i < count
        invariant
            count == glyphs@.len(),
            i <= count,
            width == row_offset(glyphs@, i as int),
            height == row_height(glyphs@, i as int),
            offsets@.len() == i,
            forall|k: int| 0 <= k < i ==> #[trigger] offsets@[k] == row_offset(glyphs@, k),
        decreases count - i,
    {
        let glyph = &glyphs[i];
        offsets.push(width);
        proof {
            lemma_row_grows(glyphs@, i + 1, count as int);
        }
        if glyph.width >= usize::MAX - width {
            return None;
        }
        width = width + glyph.width + 1;
        if glyph.height > height {
            height = glyph.height;
        }
        i += 1;
    }
    let size = match width.checked_mul(height) {
        Some(size) => size,
        None => {
            return None;
        },
    };
    let mut pixels: Vec<u8> = vec![0u8; size];
    proof {
        assert forall|x: int, y: int| 0 <= x < width && 0 <= y < height implies #[trigger] image_pixel(
            pixels@,
            width as int,
            x,
            y,
        ) == atlas_pixel(glyphs@, 0, x, y) by {
            lemma_pixel_index(width as int, height as int, x, y);
        }
    }
    let mut i: usize = 0;
    while i < count
        invariant
            count == glyphs@.len(),
            i <= count,
            width == row_offset(glyphs@, count as int),
            height == row_height(glyphs@, count as int),
            size == width * height,
            pixels@.len() == size,
            offsets@.len() == count,
            forall|k: int| 0 <= k < count ==> #[trigger] offsets@[k] == row_offset(glyphs@, k),
            forall|k: int| 0 <= k < glyphs@.len() ==> (#[trigger] glyphs@[k]).wf(),
            forall|x: int, y: int|
                0 <= x < width && 0 <= y < height ==> #[trigger] image_pixel(
                    pixels@,
                    width as int,
                    x,
                    y,
                ) == atlas_pixel(glyphs@, i as int, x, y),
        decreases count - i,
    {
        let glyph = &glyphs[i];
        let start = offsets[i];
        proof {
            lemma_row_grows(glyphs@, i as int, count as int);
            assert(glyph.wf());
        }
        let mut y: usize = 0;
        while y < glyph.height
            invariant
                count == glyphs@.len(),
                i < count,
                *glyph == glyphs@[i as int],
                glyph.wf(),
                start == row_offset(glyphs@, i as int),
                start + glyph.width < width,
                glyph.height <= height,
                y <= glyph.height,
                size == width * height,
                pixels@.len() == size,
                forall|px: int, py: int|
                    0 <= px < width && 0 <= py < height ==> #[trigger] image_pixel(
                        pixels@,
                        width as int,
                        px,
                        py,
                    ) == partly_drawn(glyphs@, i as int, y as int, 0, px, py),
            decreases glyph.height - y,
        {
            let mut x: usize = 0;
            while x < glyph.width
                invariant
                    count == glyphs@.len(),
                    i < count,
                    *glyph == glyphs@[i as int],
                    glyph.wf(),
                    start == row_offset(glyphs@, i as int),
                    start + glyph.width < width,
                    glyph.height <= height,
                    y < glyph.height,
                    x <= glyph.width,
                    size == width * height,
                    pixels@.len() == size,
                    forall|px: int, py: int|
                        0 <= px < width && 0 <= py < height ==> #[trigger] image_pixel(
                            pixels@,
                            width as int,
                            px,
                            py,
                        ) == partly_drawn(glyphs@, i as int, y as int, x as int, px, py),
                decreases glyph.width - x,
            {
                proof {
                    lemma_pixel_index(width as int, height as int, start + x, y as int);
                    lemma_pixel_index(glyph.width as int, glyph.height as int, x as int, y as int);
                    assert(y * glyph.width + x < glyph.coverage.len());
                    assert(y * width + (start + x) < pixels@.len());
                }
                let ghost before = pixels@;
                let value = glyph.coverage[y * glyph.width + x];
                let target = y * width + (start + x);
                pixels[target] = value;
                proof {
                    let next: int = x + 1;
                    assert forall|px: int, py: int|
                        0 <= px < width && 0 <= py < height implies #[trigger] image_pixel(
                        pixels@,
                        width as int,
                        px,
                        py,
                    ) == partly_drawn(glyphs@, i as int, y as int, next, px, py) by {
                        lemma_pixel_index(width as int, height as int, px, py);
                        assert(image_pixel(before, width as int, px, py) == partly_drawn(
                            glyphs@,
                            i as int,
                            y as int,
                            x as int,
                            px,
                            py,
                        ));
                        if py * width + px == target {
                            lemma_pixel_index_injective(
                                width as int,
                                px,
                                py,
                                start + x,
                                y as int,
                            );
                        }
                    }
                }
                x += 1;
            }
            proof {
                let below: int = y + 1;
                assert forall|px: int, py: int|
                    0 <= px < width && 0 <= py < height implies #[trigger] image_pixel(
                    pixels@,
                    width as int,
                    px,
                    py,
                ) == partly_drawn(glyphs@, i as int, below, 0, px, py) by {
                    assert(image_pixel(pixels@, width as int, px, py) == partly_drawn(
                        glyphs@,
                        i as int,
                        y as int,
                        x as int,
                        px,
                        py,
                    ));
                }
            }
            y += 1;
        }
        proof {
            let done: int = i + 1;
            assert forall|px: int, py: int|
                0 <= px < width && 0 <= py < height implies #[trigger] image_pixel(
                pixels@,
                width as int,
                px,
                py,
            ) == atlas_pixel(glyphs@, done, px, py) by {
                assert(image_pixel(pixels@, width as int, px, py) == partly_drawn(
                    glyphs@,
                    i as int,
                    y as int,
                    0,
                    px,
                    py,
                ));
            }
        }
        i += 1;
    }
    Some(RowAtlas { width, height, pixels, offsets })
}

} // verus!
