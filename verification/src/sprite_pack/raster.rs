//! Images as rows of pixels of four bytes: red, green, blue and alpha.

use vstd::prelude::*;
use crate::error::Error;
use crate::sprite_pack::palette::{Color, rgba_color};

verus! {

/// An image of `width` by `height` pixels, row by row, four bytes a pixel.
#[derive(Clone)]
pub struct Raster {
    pub width: u32,
    pub height: u32,
    pub data: Vec<u8>,
}

impl Raster {
    /// An image that holds exactly its pixels.
    pub open spec fn wf(&self) -> bool {
        self.data@.len() == 4 * self.width * self.height
    }

    /// The four bytes of the pixel at place `p`, counted row by row.
    pub open spec fn pixel(&self, p: int) -> Seq<u8> {
        self.data@.subrange(4 * p, 4 * p + 4)
    }

    /// The colour of the pixel at place `p`.
    pub open spec fn color(&self, p: int) -> Color {
        rgba_color(self.pixel(p))
    }

    /// The image of the size and the bytes given, if the bytes are exactly
    /// those of its pixels.
    pub fn new(width: u32, height: u32, data: Vec<u8>) -> (raster: Option<Raster>)
        ensures
            match raster {
                Some(r) => r.wf() && r.width == width && r.height == height && r.data == data,
                None => data@.len() != 4 * width * height,
            },
    {
        assert(width * height <= 0xffff_ffff * 0xffff_ffff) by (nonlinear_arith)
            requires
                width <= 0xffff_ffff,
                height <= 0xffff_ffff,
        ;
        let pixels: u128 = (width as u128) * (height as u128);
        assert(4 * (width * height) == 4 * width * height) by (nonlinear_arith);
        if data.len() as u128 == 4 * pixels {
            Some(Raster { width, height, data })
        } else {
            None
        }
    }

    /// The colour of the pixel at place `p`, counted row by row.
    pub fn color_at(&self, p: usize) -> (color: Color)
        requires
            4 * p + 4 <= self.data.len(),
        ensures
            color == self.color(p as int),
    {
        let rgba = [self.data[4 * p], self.data[4 * p + 1], self.data[4 * p + 2], self.data[4 * p
            + 3]];
        assert(rgba@ =~= self.pixel(p as int));
        Color::from_rgba(&rgba)
    }
}

/// The place in an image `width` pixels wide of pixel `p` of a window `w`
/// pixels wide whose first pixel stands in column `x` and row `y`.
pub open spec fn window_place(width: int, x: int, y: int, w: int, p: int) -> int {
    (y + p / w) * width + x + p % w
}

impl Raster {
    /// Whether `cut` is the window of `w` by `h` pixels of the image whose
    /// first pixel stands in column `x` and row `y`.
    pub open spec fn window_is(&self, cut: Raster, x: int, y: int, w: int, h: int) -> bool {
        &&& cut.wf()
        &&& cut.width == w
        &&& cut.height == h
        &&& forall|p: int|
            0 <= p < w * h ==> #[trigger] cut.pixel(p) == self.pixel(
                window_place(self.width as int, x, y, w, p),
            )
    }

    /// Whether the image holds exactly its pixels.
    pub fn is_whole(&self) -> (whole: bool)
        ensures
            whole == self.wf(),
    {
        assert(self.width * self.height <= 0xffff_ffff * 0xffff_ffff) by (nonlinear_arith)
            requires
                self.width <= 0xffff_ffff,
                self.height <= 0xffff_ffff,
        ;
        let pixels: u128 = (self.width as u128) * (self.height as u128);
        assert(4 * (self.width * self.height) == 4 * self.width * self.height)
            by (nonlinear_arith);
        self.data.len() as u128 == 4 * pixels
    }

    /// The window of `w` by `h` pixels whose first pixel stands in column
    /// `x` and row `y`.
    pub fn view(&self, x: u32, y: u32, w: u32, h: u32) -> (cut: Raster)
        requires
            self.wf(),
            x + w <= self.width,
            y + h <= self.height,
        ensures
            self.window_is(cut, x as int, y as int, w as int, h as int),
    {
        let width = self.width as usize;
        let mut data: Vec<u8> = Vec::new();
        let mut r: usize = 0;
        assert(0 * (w as int) == 0) by (nonlinear_arith);
        while r < h as usize
            invariant
                r <= h,
                width == self.width,
                self.wf(),
                x + w <= self.width,
                y + h <= self.height,
                data@.len() == 4 * (r * w),
                forall|p: int|
                    0 <= p < r * w ==> #[trigger] data@.subrange(4 * p, 4 * p + 4) == self.pixel(
                        window_place(self.width as int, x as int, y as int, w as int, p),
                    ),
            decreases h - r,
        {
            let mut c: usize = 0;
            while c < w as usize
                invariant
                    c <= w,
                    r < h,
                    width == self.width,
                    self.wf(),
                    x + w <= self.width,
                    y + h <= self.height,
                    data@.len() == 4 * (r * w + c),
                    forall|p: int|
                        0 <= p < r * w + c ==> #[trigger] data@.subrange(4 * p, 4 * p + 4)
                            == self.pixel(
                            window_place(self.width as int, x as int, y as int, w as int, p),
                        ),
                decreases w - c,
            {
                let ghost p = r * w + c;
                let ghost q = (y + r) * self.width + x + c;
                proof {
                    assert(0 <= r * w) by (nonlinear_arith)
                        requires
                            0 <= r,
                            0 <= w,
                    ;
                    vstd::arithmetic::div_mod::lemma_fundamental_div_mod_converse(
                        p,
                        w as int,
                        r as int,
                        c as int,
                    );
                    assert(q == window_place(self.width as int, x as int, y as int, w as int, p));
                    assert(0 <= q && q + 1 <= self.width * self.height && 0 <= (y + r)
                        * self.width <= q) by (nonlinear_arith)
                        requires
                            q == (y + r) * self.width + x + c,
                            y + r + 1 <= self.height,
                            0 <= x + c < self.width,
                            0 <= y + r,
                    ;
                    assert(4 * (self.width * self.height) == 4 * self.width * self.height)
                        by (nonlinear_arith);
                    assert(4 * q + 4 <= self.data.len());
                }
                let at = 4 * ((y as usize + r) * width + x as usize + c);
                let ghost before = data@;
                data.push(self.data[at]);
                data.push(self.data[at + 1]);
                data.push(self.data[at + 2]);
                data.push(self.data[at + 3]);
                proof {
                    assert(data@.subrange(4 * p, 4 * p + 4) =~= self.pixel(q));
                    assert forall|k: int| 0 <= k < p implies #[trigger] data@.subrange(
                        4 * k,
                        4 * k + 4,
                    ) == self.pixel(
                        window_place(self.width as int, x as int, y as int, w as int, k),
                    ) by {
                        assert(data@.subrange(4 * k, 4 * k + 4) =~= before.subrange(
                            4 * k,
                            4 * k + 4,
                        ));
                    }
                }
                c += 1;
            }
            proof {
                assert((r + 1) * w == r * w + w) by (nonlinear_arith);
            }
            r += 1;
        }
        proof {
            assert(r * w == w * h) by (nonlinear_arith)
                requires
                    r == h,
            ;
            assert(4 * (w * h) == 4 * w * h) by (nonlinear_arith);
        }
        Raster { width: w, height: h, data }
    }
}

/// Whether `images` are the parts of `sheet` cut into `columns` by `rows`
/// parts of one size, row by row.
pub open spec fn parts_are(images: Seq<Raster>, sheet: Raster, columns: int, rows: int) -> bool {
    let w = sheet.width as int / columns;
    let h = sheet.height as int / rows;
    &&& images.len() == columns * rows
    &&& forall|x: int, y: int|
        0 <= x < columns && 0 <= y < rows ==> sheet.window_is(
            #[trigger] part_at(images, columns, x, y),
            x * w,
            y * h,
            w,
            h,
        )
}

/// The part in column `x` and row `y` of parts counted row by row.
pub open spec fn part_at(images: Seq<Raster>, columns: int, x: int, y: int) -> Raster {
    images[y * columns + x]
}

/// The subimages of a spritesheet with a palette: `subimage_count` in each
/// row, in `palette_count` rows.
pub fn spritesheet_to_images(sheet: &Raster, subimage_count: u32, palette_count: u32) -> (result:
    Result<Vec<Raster>, Error>)
    ensures
        match result {
            Ok(images) => {
                &&& subimage_count > 0
                &&& palette_count > 0
                &&& sheet.wf()
                &&& parts_are(images@, *sheet, subimage_count as int, palette_count as int)
            },
            Err(Error::NoSubimages) => subimage_count == 0 || palette_count == 0,
            Err(Error::InvalidRaster) => subimage_count > 0 && palette_count > 0 && !sheet.wf(),
            Err(_) => false,
        },
{
    if subimage_count == 0 || palette_count == 0 {
        return Err(Error::NoSubimages);
    }
    if !sheet.is_whole() {
        return Err(Error::InvalidRaster);
    }
    let w = sheet.width / subimage_count;
    let h = sheet.height / palette_count;
    let ghost columns = subimage_count as int;
    let mut images: Vec<Raster> = Vec::new();
    let mut y: u32 = 0;
    proof {
        vstd::arithmetic::div_mod::lemma_fundamental_div_mod(sheet.width as int, columns);
        vstd::arithmetic::div_mod::lemma_fundamental_div_mod(
            sheet.height as int,
            palette_count as int,
        );
        vstd::arithmetic::div_mod::lemma_mod_bound(sheet.width as int, columns);
        vstd::arithmetic::div_mod::lemma_mod_bound(sheet.height as int, palette_count as int);
        assert(0 * columns == 0) by (nonlinear_arith);
    }
    while y < palette_count
        invariant
            y <= palette_count,
            subimage_count > 0,
            columns == subimage_count,
            sheet.wf(),
            w == sheet.width as int / columns,
            h == sheet.height as int / (palette_count as int),
            columns * w <= sheet.width,
            palette_count * h <= sheet.height,
            images@.len() == y * columns,
            forall|a: int, b: int|
                0 <= a < columns && 0 <= b < y ==> sheet.window_is(
                    #[trigger] part_at(images@, columns, a, b),
                    a * w,
                    b * h,
                    w as int,
                    h as int,
                ),
        decreases palette_count - y,
    {
        let mut x: u32 = 0;
        while x < subimage_count
            invariant
                x <= subimage_count,
                y < palette_count,
                subimage_count > 0,
                columns == subimage_count,
                sheet.wf(),
                w == sheet.width as int / columns,
                h == sheet.height as int / (palette_count as int),
                columns * w <= sheet.width,
                palette_count * h <= sheet.height,
                images@.len() == y * columns + x,
                forall|a: int, b: int|
                    0 <= a < columns && 0 <= b < y ==> sheet.window_is(
                        #[trigger] part_at(images@, columns, a, b),
                        a * w,
                        b * h,
                        w as int,
                        h as int,
                    ),
                forall|a: int|
                    0 <= a < x ==> sheet.window_is(
                        #[trigger] part_at(images@, columns, a, y as int),
                        a * w,
                        y * h,
                        w as int,
                        h as int,
                    ),
            decreases subimage_count - x,
        {
            proof {
                assert(x * w + w <= columns * w) by (nonlinear_arith)
                    requires
                        x + 1 <= columns,
                        0 <= w,
                ;
                assert(y * h + h <= palette_count * h) by (nonlinear_arith)
                    requires
                        y + 1 <= palette_count,
                        0 <= h,
                ;
                assert(0 <= x * w && 0 <= y * h) by (nonlinear_arith)
                    requires
                        0 <= x,
                        0 <= w,
                        0 <= y,
                        0 <= h,
                ;
            }
            let ghost before = images@;
            let cut = sheet.view(x * w, y * h, w, h);
            images.push(cut);
            proof {
                assert forall|a: int| 0 <= a < x implies #[trigger] part_at(
                    images@,
                    columns,
                    a,
                    y as int,
                ) == part_at(before, columns, a, y as int) by {
                    assert(0 <= y * columns) by (nonlinear_arith)
                        requires
                            0 <= y,
                            0 <= columns,
                    ;
                }
                assert forall|a: int, b: int| 0 <= a < columns && 0 <= b < y implies #[trigger] part_at(
                    images@,
                    columns,
                    a,
                    b,
                ) == part_at(before, columns, a, b) by {
                    assert(b * columns + a < y * columns) by (nonlinear_arith)
                        requires
                            b + 1 <= y,
                            0 <= a < columns,
                    ;
                    assert(0 <= b * columns) by (nonlinear_arith)
                        requires
                            0 <= b,
                            0 <= columns,
                    ;
                }
                assert(part_at(images@, columns, x as int, y as int) == cut);
            }
            x += 1;
        }
        proof {
            assert((y + 1) * columns == y * columns + columns) by (nonlinear_arith);
        }
        y += 1;
    }
    proof {
        assert(y * columns == columns * palette_count) by (nonlinear_arith)
            requires
                y == palette_count,
        ;
    }
    Ok(images)
}

/// The side of a character of a font, in pixels.
pub const FONT_SIDE: u32 = 16;

/// The number of characters of a font.
pub const FONT_SIZE: u32 = 256;

/// The characters of a font: the 256 squares of 16 by 16 pixels that stand
/// side by side in an image of 4096 by 16 pixels.
pub fn load_font(sheet: &Raster) -> (result: Result<Vec<Raster>, Error>)
    ensures
        match result {
            Ok(images) => {
                &&& sheet.width == 4096
                &&& sheet.height == 16
                &&& sheet.wf()
                &&& parts_are(images@, *sheet, FONT_SIZE as int, 1)
            },
            Err(Error::DimensionMismatch { expected_width, expected_height, width, height }) => {
                &&& sheet.width != 4096 || sheet.height != 16
                &&& expected_width == 4096
                &&& expected_height == 16
                &&& width == sheet.width
                &&& height == sheet.height
            },
            Err(Error::InvalidRaster) => sheet.width == 4096 && sheet.height == 16 && !sheet.wf(),
            Err(_) => false,
        },
{
    if sheet.width != FONT_SIDE * FONT_SIZE || sheet.height != FONT_SIDE {
        return Err(
            Error::DimensionMismatch {
                expected_width: 4096,
                expected_height: 16,
                width: sheet.width as usize,
                height: sheet.height as usize,
            },
        );
    }
    spritesheet_to_images(sheet, FONT_SIZE, 1)
}

} // verus!
