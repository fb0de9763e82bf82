//! Images: a grid of sprites for each subimage, with the palettes that give
//! the colour indices their colours.

use vstd::prelude::*;
use crate::data_view::{DataView, le_u16, push_u16, two_pow, u16_bytes, lemma_two_pow_bound};
use crate::data_pack::bitmask::lemma_two_pow_adds;
use crate::data_pack::blocks::{joined, part_start, lemma_joined_part};
use crate::sprite_pack::palette::{Color, color_word};
use crate::sprite_pack::raster::Raster;
use crate::sprite_pack::sprite::Sprite;
use crate::error::Error;

verus! {

/// An image: its subimages, each in the colours of each of its palettes.
#[derive(Clone)]
pub struct ImageSet {
    pub original_index: usize,
    pub width: u32,
    pub height: u32,
    pub width_in_sprites: u32,
    pub height_in_sprites: u32,
    pub is_quadrupled: bool,
    pub first_palette_index: usize,
    pub palettes: Vec<Vec<Color>>,
    pub subimages: Vec<SubImage>,
}

/// One subimage: its offsets, and a colour index for each pixel.
#[derive(Clone)]
pub struct SubImage {
    pub offset_x: i32,
    pub offset_y: i32,
    pub pixel_data: Vec<u32>,
}

/// An image without its pixels.
#[derive(Clone)]
pub struct ImageSummary {
    pub width: u32,
    pub height: u32,
    pub palette_count: usize,
    pub subimages: Vec<SubImageSummary>,
}

/// A subimage without its pixels.
#[derive(Clone, Copy, Debug, PartialEq, Eq, Structural)]
pub struct SubImageSummary {
    pub offset_x: i32,
    pub offset_y: i32,
}

/// The place in a subimage, counted row by row, of pixel `n` of the tile in
/// column `col` and row `row`, where a tile is `sw` by `sh` pixels and the
/// subimage `width` pixels wide.
pub open spec fn tile_source(width: int, sw: int, sh: int, col: int, row: int, n: int) -> int {
    (col * sw + n % sw) + (row * sh + n / sw) * width
}

impl ImageSet {
    /// The width of a tile.
    pub open spec fn tile_width(&self) -> int {
        self.width as int / self.width_in_sprites as int
    }

    /// The height of a tile.
    pub open spec fn tile_height(&self) -> int {
        self.height as int / self.height_in_sprites as int
    }

    /// The number of tiles of a subimage.
    pub open spec fn tiles_per_subimage(&self) -> int {
        self.width_in_sprites * self.height_in_sprites
    }

    /// The number of tiles of all subimages.
    pub open spec fn tile_count(&self) -> int {
        self.subimages@.len() * self.tiles_per_subimage()
    }

    /// The column of tile `k`, where the tiles of a subimage are counted row
    /// by row and the subimages one after the other.
    pub open spec fn tile_col(&self, k: int) -> int {
        k % (self.width_in_sprites as int)
    }

    /// The row of tile `k`.
    pub open spec fn tile_row(&self, k: int) -> int {
        (k / (self.width_in_sprites as int)) % (self.height_in_sprites as int)
    }

    /// The subimage of tile `k`.
    pub open spec fn tile_sub(&self, k: int) -> int {
        k / self.tiles_per_subimage()
    }

    /// The place in its subimage of pixel `n` of tile `k`.
    pub open spec fn tile_pixel_source(&self, k: int, n: int) -> int {
        tile_source(
            self.width as int,
            self.tile_width(),
            self.tile_height(),
            self.tile_col(k),
            self.tile_row(k),
            n,
        )
    }

    /// The pixels of tile `k`, row by row.
    pub open spec fn tile_pixels(&self, k: int) -> Seq<u32> {
        Seq::new(
            (self.tile_width() * self.tile_height()) as nat,
            |n: int| self.subimages@[self.tile_sub(k)].pixel_data@[self.tile_pixel_source(k, n)],
        )
    }

    /// The horizontal offset of tile `k`: that of its subimage, and from there
    /// to the middle of the tile.
    pub open spec fn tile_offset_x(&self, k: int) -> int {
        self.subimages@[self.tile_sub(k)].offset_x + self.tile_width() / 2 + self.tile_col(k)
            * self.tile_width()
    }

    /// The vertical offset of tile `k`.
    pub open spec fn tile_offset_y(&self, k: int) -> int {
        self.subimages@[self.tile_sub(k)].offset_y + self.tile_height() / 2 + self.tile_row(k)
            * self.tile_height()
    }

    /// Whether tile `k` can be cut: its pixels lie inside its subimage, and
    /// its offsets fit 32 bits.
    pub open spec fn tile_ok(&self, k: int) -> bool {
        &&& forall|n: int|
            0 <= n < self.tile_width() * self.tile_height() ==> 0 <= #[trigger] self.tile_pixel_source(
                k,
                n,
            ) < self.subimages@[self.tile_sub(k)].pixel_data@.len()
        &&& -0x8000_0000 <= self.tile_offset_x(k) < 0x8000_0000
        &&& -0x8000_0000 <= self.tile_offset_y(k) < 0x8000_0000
    }

    /// Whether the image can be cut into tiles that are numbered from
    /// `sprite_index` on.
    pub open spec fn tilable(&self, sprite_index: int) -> bool {
        &&& self.width_in_sprites > 0
        &&& self.height_in_sprites > 0
        &&& sprite_index + self.tile_count() <= usize::MAX
        &&& forall|k: int| 0 <= k < self.tile_count() ==> self.tile_ok(k)
    }

    /// Whether `sprite` is tile `k` of the image.
    pub open spec fn tile_is(&self, sprite: Sprite, bpp: u32, sprite_index: int, k: int) -> bool {
        &&& sprite.index == sprite_index + k
        &&& sprite.width == if self.is_quadrupled {
            self.tile_width() / 4
        } else {
            self.tile_width()
        }
        &&& sprite.height == if self.is_quadrupled {
            self.tile_height() / 4
        } else {
            self.tile_height()
        }
        &&& sprite.bpp == bpp
        &&& sprite.offset_x == self.tile_offset_x(k)
        &&& sprite.offset_y == self.tile_offset_y(k)
        &&& sprite.is_quadrupled == self.is_quadrupled
        &&& sprite.pixels@ == self.tile_pixels(k)
    }

    /// The image without its pixels.
    pub fn to_summary(&self) -> (summary: ImageSummary)
        ensures
            summary.width == self.width,
            summary.height == self.height,
            summary.palette_count == self.palettes@.len(),
            summary.subimages@.len() == self.subimages@.len(),
            forall|i: int|
                0 <= i < self.subimages@.len() ==> #[trigger] summary.subimages@[i]
                    == (SubImageSummary {
                    offset_x: self.subimages@[i].offset_x,
                    offset_y: self.subimages@[i].offset_y,
                }),
    {
        let mut subimages: Vec<SubImageSummary> = Vec::new();
        let n = self.subimages.len();
        let mut i: usize = 0;
        while i < n
            invariant
                i <= n,
                n == self.subimages@.len(),
                subimages@.len() == i,
                forall|k: int|
                    0 <= k < i ==> #[trigger] subimages@[k] == (SubImageSummary {
                        offset_x: self.subimages@[k].offset_x,
                        offset_y: self.subimages@[k].offset_y,
                    }),
            decreases n - i,
        {
            subimages.push(
                SubImageSummary {
                    offset_x: self.subimages[i].offset_x,
                    offset_y: self.subimages[i].offset_y,
                },
            );
            i += 1;
        }
        ImageSummary {
            width: self.width,
            height: self.height,
            palette_count: self.palettes.len(),
            subimages,
        }
    }

    /// The pixels of tile `k`, if they lie inside its subimage.
    fn cut_tile(&self, k: usize) -> (pixels: Option<Vec<u32>>)
        requires
            self.width_in_sprites > 0,
            self.height_in_sprites > 0,
            0 <= k < self.tile_count(),
        ensures
            match pixels {
                Some(pixels) => pixels@ == self.tile_pixels(k as int) && forall|n: int|
                    0 <= n < self.tile_width() * self.tile_height() ==> 0
                        <= #[trigger] self.tile_pixel_source(k as int, n)
                        < self.subimages@[self.tile_sub(k as int)].pixel_data@.len(),
                None => !self.tile_ok(k as int),
            },
    {
        let wis = self.width_in_sprites as u64;
        let his = self.height_in_sprites as u64;
        let sw = (self.width / self.width_in_sprites) as u64;
        let sh = (self.height / self.height_in_sprites) as u64;
        assert(wis * his <= 0xffff_ffff * 0xffff_ffff) by (nonlinear_arith)
            requires
                wis <= 0xffff_ffff,
                his <= 0xffff_ffff,
        ;
        let per = wis * his;
        assert(per > 0) by (nonlinear_arith)
            requires
                wis > 0,
                his > 0,
                per == wis * his,
        ;
        let col = k as u64 % wis;
        let row = (k as u64 / wis) % his;
        let sub = (k as u64 / per) as usize;
        proof {
            let count = self.subimages@.len() as int;
            assert((k as int) / (per as int) < count) by (nonlinear_arith)
                requires
                    0 <= k < count * per,
                    per > 0,
            ;
        }
        let source = &self.subimages[sub].pixel_data;
        let len = source.len();
        assert(sw * sh <= 0xffff_ffff * 0xffff_ffff) by (nonlinear_arith)
            requires
                sw <= 0xffff_ffff,
                sh <= 0xffff_ffff,
        ;
        let area = sw * sh;
        assert(col * sw <= 0xffff_ffff * 0xffff_ffff) by (nonlinear_arith)
            requires
                col <= 0xffff_ffff,
                sw <= 0xffff_ffff,
        ;
        assert(row * sh <= 0xffff_ffff * 0xffff_ffff) by (nonlinear_arith)
            requires
                row <= 0xffff_ffff,
                sh <= 0xffff_ffff,
        ;
        let left = col * sw;
        let top = row * sh;
        let mut pixels: Vec<u32> = Vec::new();
        let mut n: u64 = 0;
        while n < area
            invariant
                n <= area,
                area == sw * sh,
                sw == self.tile_width(),
                sh == self.tile_height(),
                col == self.tile_col(k as int),
                row == self.tile_row(k as int),
                sub == self.tile_sub(k as int),
                sub < self.subimages@.len(),
                left == col * sw,
                top == row * sh,
                left <= 0xffff_ffff * 0xffff_ffff,
                top <= 0xffff_ffff * 0xffff_ffff,
                source == self.subimages@[sub as int].pixel_data,
                len == source@.len(),
                pixels@.len() == n,
                forall|m: int|
                    0 <= m < n ==> 0 <= #[trigger] self.tile_pixel_source(k as int, m) < len,
                forall|m: int|
                    0 <= m < n ==> #[trigger] pixels@[m] == source@[self.tile_pixel_source(
                        k as int,
                        m,
                    )],
            decreases area - n,
        {
            assert(sw > 0) by (nonlinear_arith)
                requires
                    n < sw * sh,
                    sw >= 0,
                    sh >= 0,
            ;
            let x: u128 = left as u128 + (n % sw) as u128;
            let y: u128 = top as u128 + (n / sw) as u128;
            assert(n / sw <= n) by (nonlinear_arith)
                requires
                    sw > 0,
                    n >= 0,
            ;
            assert(y * (self.width as u128) <= 0x2_0000_0000_0000_0000 * 0xffff_ffff)
                by (nonlinear_arith)
                requires
                    y <= 0x2_0000_0000_0000_0000,
                    self.width <= 0xffff_ffff,
            ;
            let at: u128 = x + y * (self.width as u128);
            assert(at == self.tile_pixel_source(k as int, n as int));
            if at >= len as u128 {
                return None;
            }
            pixels.push(source[at as usize]);
            n += 1;
        }
        assert(pixels@ =~= self.tile_pixels(k as int));
        Some(pixels)
    }

    /// The image cut into sprites of `bpp` bits a pixel, numbered from
    /// `sprite_index` on: the tiles of each subimage row by row, the
    /// subimages one after the other.
    pub fn to_sprites(&self, bpp: u32, sprite_index: usize) -> (result: Result<Vec<Sprite>, Error>)
        ensures
            match result {
                Ok(sprites) => {
                    &&& self.tilable(sprite_index as int)
                    &&& sprites@.len() == self.tile_count()
                    &&& forall|k: int|
                        0 <= k < sprites@.len() ==> self.tile_is(
                            #[trigger] sprites@[k],
                            bpp,
                            sprite_index as int,
                            k,
                        )
                },
                Err(Error::InvalidImage { image }) => {
                    &&& image == self.original_index
                    &&& !self.tilable(sprite_index as int)
                },
                Err(_) => false,
            },
    {
        let failed = Err(Error::InvalidImage { image: self.original_index });
        if self.width_in_sprites == 0 || self.height_in_sprites == 0 {
            return failed;
        }
        let wis = self.width_in_sprites as u64;
        let his = self.height_in_sprites as u64;
        assert(wis * his <= 0xffff_ffff * 0xffff_ffff) by (nonlinear_arith)
            requires
                wis <= 0xffff_ffff,
                his <= 0xffff_ffff,
        ;
        let per: u64 = wis * his;
        let subs = self.subimages.len();
        assert(subs * per <= 0xffff_ffff_ffff_ffff * 0xffff_ffff_ffff_ffff) by (nonlinear_arith)
            requires
                subs <= 0xffff_ffff_ffff_ffff,
                per <= 0xffff_ffff_ffff_ffff,
        ;
        let total: u128 = (subs as u128) * (per as u128);
        if total + sprite_index as u128 > usize::MAX as u128 {
            return failed;
        }
        let count = total as usize;
        let sw = self.width / self.width_in_sprites;
        let sh = self.height / self.height_in_sprites;
        let mut sprites: Vec<Sprite> = Vec::new();
        let mut k: usize = 0;
        while k < count
            invariant
                k <= count,
                count == self.tile_count(),
                sprite_index + count <= usize::MAX,
                self.width_in_sprites > 0,
                self.height_in_sprites > 0,
                wis == self.width_in_sprites,
                his == self.height_in_sprites,
                per == wis * his,
                sw == self.tile_width(),
                sh == self.tile_height(),
                failed == Err::<Vec<Sprite>, Error>(
                    Error::InvalidImage { image: self.original_index },
                ),
                sprites@.len() == k,
                forall|j: int| 0 <= j < k ==> self.tile_ok(j),
                forall|j: int|
                    0 <= j < k ==> self.tile_is(#[trigger] sprites@[j], bpp, sprite_index as int, j),
            decreases count - k,
        {
            assert(per > 0) by (nonlinear_arith)
                requires
                    wis > 0,
                    his > 0,
                    per == wis * his,
            ;
            let col = (k as u64 % wis) as u32;
            let row = ((k as u64 / wis) % his) as u32;
            let sub = (k as u64 / per) as usize;
            proof {
                let subs = self.subimages@.len() as int;
                assert((k as int) / (per as int) < subs) by (nonlinear_arith)
                    requires
                        0 <= k < subs * per,
                        per > 0,
                ;
            }
            assert(col * sw <= 0xffff_ffff * 0xffff_ffff) by (nonlinear_arith)
                requires
                    col <= 0xffff_ffff,
                    sw <= 0xffff_ffff,
            ;
            assert(row * sh <= 0xffff_ffff * 0xffff_ffff) by (nonlinear_arith)
                requires
                    row <= 0xffff_ffff,
                    sh <= 0xffff_ffff,
            ;
            let offset_x: i128 = self.subimages[sub].offset_x as i128 + (sw / 2) as i128 + (
            col as i128) * (sw as i128);
            let offset_y: i128 = self.subimages[sub].offset_y as i128 + (sh / 2) as i128 + (
            row as i128) * (sh as i128);
            if offset_x < -0x8000_0000 || offset_x >= 0x8000_0000 || offset_y < -0x8000_0000
                || offset_y >= 0x8000_0000 {
                assert(!self.tile_ok(k as int));
                return failed;
            }
            let pixels = match self.cut_tile(k) {
                Some(pixels) => pixels,
                None => {
                    return failed;
                },
            };
            sprites.push(
                Sprite {
                    index: sprite_index + k,
                    width: if self.is_quadrupled {
                        sw / 4
                    } else {
                        sw
                    },
                    height: if self.is_quadrupled {
                        sh / 4
                    } else {
                        sh
                    },
                    bpp,
                    offset_x: offset_x as i32,
                    offset_y: offset_y as i32,
                    is_quadrupled: self.is_quadrupled,
                    pixels,
                },
            );
            k += 1;
        }
        Ok(sprites)
    }
}

/// The number of bytes in the record of an image.
pub const IMAGE_SIZE: usize = 6;

/// The offset from which the smallest offset of a subimage's sprites is
/// sought.
pub const OFFSET_START: i32 = 128;

/// The number of the first sprite of image `i`.
pub open spec fn image_first_sprite(s: Seq<u8>, i: int) -> int {
    le_u16(s, IMAGE_SIZE * i) as int
}

/// The number of sprites in a row of a subimage of image `i`.
pub open spec fn image_columns(s: Seq<u8>, i: int) -> int {
    s[IMAGE_SIZE * i + 2] as int
}

/// The number of sprites in a column of a subimage of image `i`.
pub open spec fn image_rows(s: Seq<u8>, i: int) -> int {
    s[IMAGE_SIZE * i + 3] as int
}

/// The place of the first palette of image `i`, in units of four colours.
pub open spec fn image_first_palette(s: Seq<u8>, i: int) -> int {
    le_u16(s, IMAGE_SIZE * i + 4) as int
}

/// The number of the sprite behind the last of image `i`: the first sprite of
/// the next image, or for the last image the number of all sprites.
pub open spec fn image_next_sprite(s: Seq<u8>, sprites: int, i: int) -> int {
    if i + 1 < s.len() / IMAGE_SIZE as nat {
        image_first_sprite(s, i + 1)
    } else {
        sprites
    }
}

/// The number of sprites of a subimage of image `i`.
pub open spec fn image_tiles(s: Seq<u8>, i: int) -> int {
    image_columns(s, i) * image_rows(s, i)
}

/// The number of subimages of image `i`: as many as its sprites make whole.
pub open spec fn image_subimages(s: Seq<u8>, sprites: int, i: int) -> int {
    (image_next_sprite(s, sprites, i) - image_first_sprite(s, i)) / image_tiles(s, i)
}

/// Whether the sprites of image `i` exist: it has a first sprite, a subimage
/// has at least one sprite, and the sprites of all its subimages are there.
pub open spec fn image_sprites_found(s: Seq<u8>, sprites: int, i: int) -> bool {
    &&& image_first_sprite(s, i) < sprites
    &&& image_tiles(s, i) > 0
    &&& image_next_sprite(s, sprites, i) >= image_first_sprite(s, i)
    &&& image_first_sprite(s, i) + image_subimages(s, sprites, i) * image_tiles(s, i) <= sprites
}

/// The smallest of `start` and, for each of the `count` sprites from `from`
/// on, its horizontal offset less `half`.
pub open spec fn least_offset_x(sprites: Seq<Sprite>, from: int, count: int, half: int) -> int
    decreases count,
{
    if count <= 0 {
        OFFSET_START as int
    } else {
        let before = least_offset_x(sprites, from, count - 1, half);
        let own = sprites[from + count - 1].offset_x - half;
        if own < before {
            own
        } else {
            before
        }
    }
}

/// The smallest of `start` and, for each of the `count` sprites from `from`
/// on, its vertical offset less `half`.
pub open spec fn least_offset_y(sprites: Seq<Sprite>, from: int, count: int, half: int) -> int
    decreases count,
{
    if count <= 0 {
        OFFSET_START as int
    } else {
        let before = least_offset_y(sprites, from, count - 1, half);
        let own = sprites[from + count - 1].offset_y - half;
        if own < before {
            own
        } else {
            before
        }
    }
}

/// Whether the `count` sprites from `from` on are tiles of `w` by `h` pixels
/// each.
pub open spec fn tiles_uniform(sprites: Seq<Sprite>, from: int, count: int, w: int, h: int) -> bool {
    forall|m: int|
        0 <= m < count ==> (#[trigger] sprites[from + m]).width == w && sprites[from + m].height
            == h && sprites[from + m].pixels@.len() == w * h
}

/// The pixel at place `p` of a subimage that is `columns` tiles of `w` by `h`
/// pixels wide, where its tiles are the sprites from `from` on, row by row.
pub open spec fn tiled_pixel(sprites: Seq<Sprite>, from: int, columns: int, w: int, h: int, p: int) -> u32 {
    let x = p % (columns * w);
    let y = p / (columns * w);
    sprites[from + (y / h) * columns + x / w].pixels@[(y % h) * w + x % w]
}

/// Whether `sub` is the subimage that the `columns` by `rows` sprites from
/// `from` on make, each `w` by `h` pixels.
pub open spec fn subimage_is(
    sub: SubImage,
    sprites: Seq<Sprite>,
    from: int,
    columns: int,
    rows: int,
    w: int,
    h: int,
) -> bool {
    &&& sub.offset_x == least_offset_x(sprites, from, columns * rows, w / 2)
    &&& sub.offset_y == least_offset_y(sprites, from, columns * rows, h / 2)
    &&& sub.pixel_data@.len() == (columns * w) * (rows * h)
    &&& forall|p: int|
        0 <= p < (columns * w) * (rows * h) ==> #[trigger] sub.pixel_data@[p] == tiled_pixel(
            sprites,
            from,
            columns,
            w,
            h,
            p,
        )
}

/// Whether a subimage can be made of the sprites from `from` on: they are
/// tiles of one size, and the smallest offsets fit 32 bits.
pub open spec fn subimage_ok(
    sprites: Seq<Sprite>,
    from: int,
    columns: int,
    rows: int,
    w: int,
    h: int,
) -> bool {
    &&& tiles_uniform(sprites, from, columns * rows, w, h)
    &&& -0x8000_0000 <= least_offset_x(sprites, from, columns * rows, w / 2)
    &&& -0x8000_0000 <= least_offset_y(sprites, from, columns * rows, h / 2)
}

/// The subimage that the `columns` by `rows` sprites from `from` on make.
fn read_subimage(sprites: &[Sprite], from: usize, columns: u32, rows: u32, w: u32, h: u32) -> (sub:
    Option<SubImage>)
    requires
        0 < columns <= 0xff,
        0 < rows <= 0xff,
        0 < w,
        0 < h,
        columns * w <= u32::MAX,
        rows * h <= u32::MAX,
        from + columns * rows <= sprites.len(),
    ensures
        match sub {
            Some(sub) => subimage_ok(sprites@, from as int, columns as int, rows as int, w as int, h as int)
                && subimage_is(
                sub,
                sprites@,
                from as int,
                columns as int,
                rows as int,
                w as int,
                h as int,
            ),
            None => !subimage_ok(
                sprites@,
                from as int,
                columns as int,
                rows as int,
                w as int,
                h as int,
            ),
        },
{
    assert(columns * rows <= 0xff * 0xff) by (nonlinear_arith)
        requires
            columns <= 0xff,
            rows <= 0xff,
    ;
    let per = (columns * rows) as usize;
    assert(w * h <= 0xffff_ffff * 0xffff_ffff) by (nonlinear_arith)
        requires
            w <= 0xffff_ffff,
            h <= 0xffff_ffff,
    ;
    let area: u64 = (w as u64) * (h as u64);
    let mut offset_x: i64 = OFFSET_START as i64;
    let mut offset_y: i64 = OFFSET_START as i64;
    let mut m: usize = 0;
    while m < per
        invariant
            m <= per,
            per == columns * rows,
            from + per <= sprites.len(),
            area == w * h,
            tiles_uniform(sprites@, from as int, m as int, w as int, h as int),
            offset_x == least_offset_x(sprites@, from as int, m as int, w as int / 2),
            offset_y == least_offset_y(sprites@, from as int, m as int, h as int / 2),
            -0x1_0000_0000 <= offset_x <= OFFSET_START,
            -0x1_0000_0000 <= offset_y <= OFFSET_START,
        decreases per - m,
    {
        let sprite = &sprites[from + m];
        if sprite.width != w || sprite.height != h || sprite.pixels.len() as u64 != area {
            assert(!tiles_uniform(sprites@, from as int, per as int, w as int, h as int));
            return None;
        }
        let own_x = sprite.offset_x as i64 - (w / 2) as i64;
        let own_y = sprite.offset_y as i64 - (h / 2) as i64;
        if own_x < offset_x {
            offset_x = own_x;
        }
        if own_y < offset_y {
            offset_y = own_y;
        }
        m += 1;
    }
    if offset_x < -0x8000_0000 || offset_y < -0x8000_0000 {
        return None;
    }
    let width = (columns * w) as u64;
    let height = (rows * h) as u64;
    assert(width * height <= 0xffff_ffff * 0xffff_ffff) by (nonlinear_arith)
        requires
            width <= 0xffff_ffff,
            height <= 0xffff_ffff,
    ;
    let total: u64 = width * height;
    let mut pixel_data: Vec<u32> = Vec::new();
    let mut p: u64 = 0;
    while p < total
        invariant
            p <= total,
            total == width * height,
            width == columns * w,
            height == rows * h,
            0 < columns,
            0 < rows,
            0 < w,
            0 < h,
            per == columns * rows,
            from + per <= sprites.len(),
            tiles_uniform(sprites@, from as int, per as int, w as int, h as int),
            pixel_data@.len() == p,
            forall|q: int|
                0 <= q < p ==> #[trigger] pixel_data@[q] == tiled_pixel(
                    sprites@,
                    from as int,
                    columns as int,
                    w as int,
                    h as int,
                    q,
                ),
        decreases total - p,
    {
        assert(width > 0) by (nonlinear_arith)
            requires
                width == columns * w,
                columns > 0,
                w > 0,
        ;
        let x = p % width;
        let y = p / width;
        let col = x / (w as u64);
        let row = y / (h as u64);
        proof {
            assert(y < height) by (nonlinear_arith)
                requires
                    p < width * height,
                    y == p / width,
                    width > 0,
            ;
            assert(col < columns) by (nonlinear_arith)
                requires
                    x < columns * w,
                    col == x / (w as u64),
                    w > 0,
            ;
            assert(row < rows) by (nonlinear_arith)
                requires
                    y < rows * h,
                    row == y / (h as u64),
                    h > 0,
            ;
            assert(row * columns + col < columns * rows) by (nonlinear_arith)
                requires
                    0 <= row < rows,
                    0 <= col < columns,
            ;
        }
        let tile = (row * (columns as u64) + col) as usize;
        let sprite = &sprites[from + tile];
        let down = y % (h as u64);
        let along = x % (w as u64);
        assert(down * w + along < w * h) by (nonlinear_arith)
            requires
                0 <= down < h,
                0 <= along < w,
        ;
        assert(w * h <= 0xffff_ffff * 0xffff_ffff) by (nonlinear_arith)
            requires
                w <= 0xffff_ffff,
                h <= 0xffff_ffff,
        ;
        let inside = down * (w as u64) + along;
        assert(sprite == sprites@[from + tile]);
        assert(sprite.pixels.len() == w * h);
        proof {
            let wide = columns as int * w as int;
            assert(wide == width);
            assert(p as int % wide == x);
            assert(p as int / wide == y);
            assert((y as int / h as int) * columns + x as int / w as int == tile);
            assert((y as int % h as int) * w + x as int % w as int == inside);
            assert(tiled_pixel(sprites@, from as int, columns as int, w as int, h as int, p as int)
                == sprite.pixels@[inside as int]);
        }
        pixel_data.push(sprite.pixels[inside as usize]);
        p += 1;
    }
    Some(SubImage { offset_x: offset_x as i32, offset_y: offset_y as i32, pixel_data })
}

/// The width of the tiles of image `i`: that of its first sprite.
pub open spec fn image_tile_width(s: Seq<u8>, sprites: Seq<Sprite>, i: int) -> int {
    sprites[image_first_sprite(s, i)].width as int
}

/// The height of the tiles of image `i`: that of its first sprite.
pub open spec fn image_tile_height(s: Seq<u8>, sprites: Seq<Sprite>, i: int) -> int {
    sprites[image_first_sprite(s, i)].height as int
}

/// The number of colours of a palette of image `i`: two to the bits per pixel
/// of its first sprite.
pub open spec fn image_palette_size(s: Seq<u8>, sprites: Seq<Sprite>, i: int) -> int {
    two_pow(sprites[image_first_sprite(s, i)].bpp as nat) as int
}

/// Whether the first palette of image `i` lies inside the colours.
pub open spec fn image_palette_found(s: Seq<u8>, sprites: Seq<Sprite>, colors: int, i: int) -> bool {
    4 * image_first_palette(s, i) + image_palette_size(s, sprites, i) <= colors
}

/// The first sprite of subimage `j` of image `i`.
pub open spec fn subimage_first_sprite(s: Seq<u8>, i: int, j: int) -> int {
    image_first_sprite(s, i) + j * image_tiles(s, i)
}

/// Whether the subimages of image `i` can be made of its sprites.
pub open spec fn image_tiles_ok(s: Seq<u8>, sprites: Seq<Sprite>, i: int) -> bool {
    let w = image_tile_width(s, sprites, i);
    let h = image_tile_height(s, sprites, i);
    &&& w > 0
    &&& h > 0
    &&& image_columns(s, i) * w <= u32::MAX
    &&& image_rows(s, i) * h <= u32::MAX
    &&& forall|j: int|
        0 <= j < image_subimages(s, sprites.len() as int, i) ==> subimage_ok(
            sprites,
            #[trigger] subimage_first_sprite(s, i, j),
            image_columns(s, i),
            image_rows(s, i),
            w,
            h,
        )
}

/// Whether an image behind image `i` has the same first palette.
pub open spec fn palette_tie_after(s: Seq<u8>, i: int) -> bool {
    exists|j: int|
        i < j < s.len() / IMAGE_SIZE as nat && #[trigger] image_first_palette(s, j)
            == image_first_palette(s, i)
}

/// The least first palette above `bound` among the first `n` images, or -1
/// where there is none.
pub open spec fn least_palette_above(s: Seq<u8>, bound: int, n: int) -> int
    decreases n,
{
    if n <= 0 {
        -1
    } else {
        let before = least_palette_above(s, bound, n - 1);
        let own = image_first_palette(s, n - 1);
        if own > bound && (before < 0 || own < before) {
            own
        } else {
            before
        }
    }
}

/// The number of palettes of image `i`: as many as fit between its first
/// palette and the next first palette above it, and one at least; one also
/// where an image behind it has the same first palette.
pub open spec fn image_palette_count(s: Seq<u8>, sprites: Seq<Sprite>, i: int) -> int {
    let next = least_palette_above(
        s,
        image_first_palette(s, i),
        (s.len() / IMAGE_SIZE as nat) as int,
    );
    if palette_tie_after(s, i) || next < 0 {
        1
    } else {
        let fit = 4 * (next - image_first_palette(s, i)) / image_palette_size(s, sprites, i);
        if fit > 1 {
            fit
        } else {
            1
        }
    }
}

/// Where palette `j` of image `i` starts among the colours.
pub open spec fn image_palette_start(s: Seq<u8>, sprites: Seq<Sprite>, i: int, j: int) -> int {
    4 * image_first_palette(s, i) + j * image_palette_size(s, sprites, i)
}

/// Whether `set` is image `i` of the table `s`, made of the sprites and the
/// colours given.
pub open spec fn image_is(
    set: ImageSet,
    s: Seq<u8>,
    sprites: Seq<Sprite>,
    colors: Seq<Color>,
    i: int,
) -> bool {
    let w = image_tile_width(s, sprites, i);
    let h = image_tile_height(s, sprites, i);
    &&& set.original_index == i
    &&& set.width == image_columns(s, i) * w
    &&& set.height == image_rows(s, i) * h
    &&& set.width_in_sprites == image_columns(s, i)
    &&& set.height_in_sprites == image_rows(s, i)
    &&& set.is_quadrupled == sprites[image_first_sprite(s, i)].is_quadrupled
    &&& set.first_palette_index == image_first_palette(s, i)
    &&& set.palettes@.len() == image_palette_count(s, sprites, i)
    &&& forall|j: int|
        0 <= j < set.palettes@.len() ==> (#[trigger] set.palettes@[j])@ == colors.subrange(
            image_palette_start(s, sprites, i, j),
            image_palette_start(s, sprites, i, j + 1),
        )
    &&& set.subimages@.len() == image_subimages(s, sprites.len() as int, i)
    &&& forall|j: int|
        0 <= j < set.subimages@.len() ==> subimage_is(
            #[trigger] set.subimages@[j],
            sprites,
            subimage_first_sprite(s, i, j),
            image_columns(s, i),
            image_rows(s, i),
            w,
            h,
        )
}

/// The values of two to the 63 and two to the 64.
pub proof fn lemma_two_pow_64()
    ensures
        two_pow(64) == 0x1_0000_0000_0000_0000,
        two_pow(63) == 0x8000_0000_0000_0000,
{
    lemma_two_pow_bound(0, 30);
    lemma_two_pow_adds(30, 30);
    lemma_two_pow_adds(60, 3);
    lemma_two_pow_adds(60, 4);
    reveal_with_fuel(two_pow, 5);
    assert(two_pow(3) == 8);
    assert(two_pow(4) == 16);
    assert(two_pow(60) == 0x4000_0000 * 0x4000_0000);
}

/// Two to the power `bits`, where that fits 64 bits.
fn palette_size(bits: u32) -> (size: Option<u64>)
    ensures
        match size {
            Some(size) => size == two_pow(bits as nat),
            None => two_pow(bits as nat) > u64::MAX,
        },
{
    if bits >= 64 {
        proof {
            lemma_two_pow_64();
            lemma_two_pow_bound(64, bits as nat);
        }
        return None;
    }
    let mut size: u64 = 1;
    let mut k: u32 = 0;
    while k < bits
        invariant
            k <= bits < 64,
            size == two_pow(k as nat),
        decreases bits - k,
    {
        proof {
            lemma_two_pow_64();
            lemma_two_pow_bound((k + 1) as nat, 63);
        }
        size = size * 2;
        k += 1;
    }
    Some(size)
}

/// A copy of the `count` colours from `from` on.
fn copy_colors(colors: &[Color], from: usize, count: usize) -> (copy: Vec<Color>)
    requires
        from + count <= colors.len(),
    ensures
        copy@ == colors@.subrange(from as int, from + count),
{
    let mut copy: Vec<Color> = Vec::new();
    let mut k: usize = 0;
    while k < count
        invariant
            k <= count,
            from + count <= colors.len(),
            copy@ == colors@.subrange(from as int, from + k),
        decreases count - k,
    {
        copy.push(colors[from + k]);
        k += 1;
        assert(copy@ =~= colors@.subrange(from as int, from + k));
    }
    copy
}

/// The least first palette above `bound` is the first palette of an image.
pub proof fn lemma_least_palette_is_one(s: Seq<u8>, bound: int, n: int)
    requires
        least_palette_above(s, bound, n) >= 0,
    ensures
        exists|j: int|
            0 <= j < n && #[trigger] image_first_palette(s, j) == least_palette_above(s, bound, n),
        least_palette_above(s, bound, n) > bound,
    decreases n,
{
    if n > 0 {
        let before = least_palette_above(s, bound, n - 1);
        let own = image_first_palette(s, n - 1);
        if own > bound && (before < 0 || own < before) {
            assert(image_first_palette(s, n - 1) == least_palette_above(s, bound, n));
        } else {
            lemma_least_palette_is_one(s, bound, n - 1);
        }
    }
}

/// The number of palettes of image `i`, and whether an image behind it has
/// the same first palette.
fn count_palettes(data: &DataView, i: usize, size: u64) -> (found: (u64, Ghost<int>))
    requires
        i < data.data.len() / IMAGE_SIZE,
        size > 0,
    ensures
        found.0 >= 1,
        found.1@ == least_palette_above(
            data@,
            image_first_palette(data@, i as int),
            (data@.len() / IMAGE_SIZE as nat) as int,
        ),
        found.0 == if palette_tie_after(data@, i as int) || found.1@ < 0 {
            1
        } else {
            let fit = 4 * (found.1@ - image_first_palette(data@, i as int)) / (size as int);
            if fit > 1 {
                fit
            } else {
                1
            }
        },
{
    let count = data.len() / IMAGE_SIZE;
    let own = data.get_u16(IMAGE_SIZE * i + 4);
    let mut tie = false;
    let mut j: usize = i + 1;
    while j < count
        invariant
            i < j <= count,
            count == data.data.len() / IMAGE_SIZE,
            own == image_first_palette(data@, i as int),
            tie == exists|k: int|
                i < k < j && #[trigger] image_first_palette(data@, k) == own as int,
        decreases count - j,
    {
        let other = data.get_u16(IMAGE_SIZE * j + 4);
        assert(other == image_first_palette(data@, j as int));
        if other == own {
            tie = true;
        }
        j += 1;
    }
    let mut next: Option<u16> = None;
    let mut j: usize = 0;
    while j < count
        invariant
            j <= count,
            count == data.data.len() / IMAGE_SIZE,
            match next {
                Some(next) => next == least_palette_above(data@, own as int, j as int),
                None => least_palette_above(data@, own as int, j as int) == -1,
            },
        decreases count - j,
    {
        let other = data.get_u16(IMAGE_SIZE * j + 4);
        let better = match next {
            Some(next) => other < next,
            None => true,
        };
        if other > own && better {
            next = Some(other);
        }
        j += 1;
    }
    match next {
        Some(next) => {
            proof {
                lemma_least_palette_is_one(data@, own as int, count as int);
            }
            if tie {
                (1, Ghost(next as int))
            } else {
                let fit = 4 * ((next - own) as u64) / size;
                if fit > 1 {
                    (fit, Ghost(next as int))
                } else {
                    (1, Ghost(next as int))
                }
            }
        },
        None => (1, Ghost(-1)),
    }
}

/// Whether the sprites and the first palette of image `i` exist.
pub open spec fn image_found(s: Seq<u8>, sprites: Seq<Sprite>, colors: int, i: int) -> bool {
    image_sprites_found(s, sprites.len() as int, i) && image_palette_found(s, sprites, colors, i)
}

/// Checks that the sprites and the first palette of image `i` exist.
fn check_image(data: &DataView, sprites: &[Sprite], colors: usize, i: usize) -> (result: Result<
    (),
    Error,
>)
    requires
        i < data.data.len() / IMAGE_SIZE,
    ensures
        match result {
            Ok(()) => image_found(data@, sprites@, colors as int, i as int),
            Err(Error::SpriteNotFound { image }) => image == i && !image_sprites_found(
                data@,
                sprites@.len() as int,
                i as int,
            ),
            Err(Error::PaletteNotFound { image }) => image == i && image_sprites_found(
                data@,
                sprites@.len() as int,
                i as int,
            ) && !image_palette_found(data@, sprites@, colors as int, i as int),
            Err(_) => false,
        },
{
    let count = data.len() / IMAGE_SIZE;
    let at = IMAGE_SIZE * i;
    let first = data.get_u16(at) as usize;
    let next = if i + 1 < count {
        data.get_u16(at + IMAGE_SIZE) as usize
    } else {
        sprites.len()
    };
    let columns = data.get_u8(at + 2) as usize;
    let rows = data.get_u8(at + 3) as usize;
    assert(columns * rows <= 0xff * 0xff) by (nonlinear_arith)
        requires
            columns <= 0xff,
            rows <= 0xff,
    ;
    let per = columns * rows;
    if first >= sprites.len() || per == 0 || next < first {
        return Err(Error::SpriteNotFound { image: i });
    }
    let subs = (next - first) / per;
    assert(subs * per <= next - first) by (nonlinear_arith)
        requires
            subs == (next - first) / (per as int),
            per > 0,
            next - first >= 0,
    ;
    if subs * per > sprites.len() - first {
        return Err(Error::SpriteNotFound { image: i });
    }
    let start = 4 * (data.get_u16(at + 4) as u64);
    let found = match palette_size(sprites[first].bpp) {
        Some(size) => size <= colors as u64 && start <= colors as u64 - size,
        None => false,
    };
    if !found {
        return Err(Error::PaletteNotFound { image: i });
    }
    Ok(())
}

/// The subimages and the palettes of image `i`, whose sprites and first
/// palette exist, as do those of every image.
fn read_image(data: &DataView, sprites: &[Sprite], all_colors: &[Color], i: usize) -> (result:
    Option<ImageSet>)
    requires
        i < data.data.len() / IMAGE_SIZE,
        forall|k: int|
            0 <= k < data@.len() / IMAGE_SIZE as nat ==> image_found(
                data@,
                sprites@,
                all_colors@.len() as int,
                k,
            ),
    ensures
        match result {
            Some(set) => image_tiles_ok(data@, sprites@, i as int) && image_is(
                set,
                data@,
                sprites@,
                all_colors@,
                i as int,
            ),
            None => !image_tiles_ok(data@, sprites@, i as int),
        },
{
    let ghost s = data@;
    let count = data.len() / IMAGE_SIZE;
    let at = IMAGE_SIZE * i;
    assert(image_found(s, sprites@, all_colors@.len() as int, i as int));
    let first = data.get_u16(at) as usize;
    let next = if i + 1 < count {
        data.get_u16(at + IMAGE_SIZE) as usize
    } else {
        sprites.len()
    };
    let columns = data.get_u8(at + 2) as u32;
    let rows = data.get_u8(at + 3) as u32;
    assert(columns * rows <= 0xff * 0xff) by (nonlinear_arith)
        requires
            columns <= 0xff,
            rows <= 0xff,
    ;
    let per = (columns * rows) as usize;
    let subs = (next - first) / per;
    let w = sprites[first].width;
    let h = sprites[first].height;
    assert(w * columns <= 0xffff_ffff * 0xff && h * rows <= 0xffff_ffff * 0xff)
        by (nonlinear_arith)
        requires
            w <= 0xffff_ffff,
            h <= 0xffff_ffff,
            columns <= 0xff,
            rows <= 0xff,
    ;
    assert(w * columns == columns * w && h * rows == rows * h) by (nonlinear_arith);
    let wide = w as u64 * columns as u64;
    let high = h as u64 * rows as u64;
    if w == 0 || h == 0 || wide > 0xffff_ffff || high > 0xffff_ffff {
        return None;
    }
    assert(columns > 0 && rows > 0) by (nonlinear_arith)
        requires
            columns * rows > 0,
            columns >= 0,
            rows >= 0,
    ;
    let mut subimages: Vec<SubImage> = Vec::new();
    let mut j: usize = 0;
    while j < subs
        invariant
            j <= subs,
            s == data@,
            first == image_first_sprite(s, i as int),
            columns == image_columns(s, i as int),
            rows == image_rows(s, i as int),
            per == image_tiles(s, i as int),
            per == columns * rows,
            subs == image_subimages(s, sprites@.len() as int, i as int),
            first + subs * per <= sprites.len(),
            0 < columns <= 0xff,
            0 < rows <= 0xff,
            0 < w,
            0 < h,
            w == image_tile_width(s, sprites@, i as int),
            h == image_tile_height(s, sprites@, i as int),
            columns * w <= u32::MAX,
            rows * h <= u32::MAX,
            subimages@.len() == j,
            forall|k: int|
                0 <= k < j ==> subimage_ok(
                    sprites@,
                    #[trigger] subimage_first_sprite(s, i as int, k),
                    columns as int,
                    rows as int,
                    w as int,
                    h as int,
                ),
            forall|k: int|
                0 <= k < j ==> subimage_is(
                    #[trigger] subimages@[k],
                    sprites@,
                    subimage_first_sprite(s, i as int, k),
                    columns as int,
                    rows as int,
                    w as int,
                    h as int,
                ),
        decreases subs - j,
    {
        assert((j + 1) * per <= subs * per) by (nonlinear_arith)
            requires
                j + 1 <= subs,
                per >= 0,
        ;
        assert((j + 1) * per == j * per + per) by (nonlinear_arith);
        let from = first + j * per;
        match read_subimage(sprites, from, columns, rows, w, h) {
            Some(sub) => {
                subimages.push(sub);
            },
            None => {
                assert(from == subimage_first_sprite(s, i as int, j as int));
                return None;
            },
        }
        j += 1;
    }
    let start = 4 * (data.get_u16(at + 4) as usize);
    assert(image_palette_found(s, sprites@, all_colors.len() as int, i as int));
    let size = match palette_size(sprites[first].bpp) {
        Some(size) => size,
        None => {
            assert(false);
            1
        },
    };
    proof {
        crate::data_view::lemma_two_pow_positive(sprites@[first as int].bpp as nat);
    }
    let (fit, Ghost(above)) = count_palettes(data, i, size);
    proof {
        // every palette counted lies below the first palette above, which
        // is the first palette of an image whose palette exists
        if fit > 1 {
            lemma_least_palette_is_one(s, image_first_palette(s, i as int), count as int);
            let other = choose|k: int|
                0 <= k < count && #[trigger] image_first_palette(s, k) == above;
            assert(image_found(s, sprites@, all_colors@.len() as int, other));
            crate::data_view::lemma_two_pow_positive(
                sprites@[image_first_sprite(s, other)].bpp as nat,
            );
            let room = 4 * (above - image_first_palette(s, i as int));
            assert(fit * size <= room) by (nonlinear_arith)
                requires
                    fit == room / (size as int),
                    size > 0,
                    room >= 0,
            ;
        } else {
            assert(fit * size == size) by (nonlinear_arith)
                requires
                    fit == 1,
            ;
        }
        assert(start + fit * size <= all_colors@.len());
    }
    let mut palettes: Vec<Vec<Color>> = Vec::new();
    let mut j: u64 = 0;
    while j < fit
        invariant
            j <= fit,
            start + fit * size <= all_colors.len(),
            start == 4 * image_first_palette(s, i as int),
            size == image_palette_size(s, sprites@, i as int),
            palettes@.len() == j,
            forall|k: int|
                0 <= k < j ==> (#[trigger] palettes@[k])@ == all_colors@.subrange(
                    image_palette_start(s, sprites@, i as int, k),
                    image_palette_start(s, sprites@, i as int, k + 1),
                ),
        decreases fit - j,
    {
        assert((j + 1) * size <= fit * size) by (nonlinear_arith)
            requires
                j + 1 <= fit,
                size >= 0,
        ;
        assert((j + 1) * size == j * size + size) by (nonlinear_arith);
        let from = start + (j * size) as usize;
        palettes.push(copy_colors(all_colors, from, size as usize));
        j += 1;
    }
    Some(
        ImageSet {
            original_index: i,
            width: columns * w,
            height: rows * h,
            width_in_sprites: columns,
            height_in_sprites: rows,
            is_quadrupled: sprites[first].is_quadrupled,
            first_palette_index: start / 4,
            palettes,
            subimages,
        },
    )
}

/// The images of a table of records of six bytes, made of the sprites and the
/// colours given. Bytes behind the last whole record are left out.
pub fn get_image_sets(data: &DataView, sprites: &[Sprite], all_colors: &[Color]) -> (result: Result<
    Vec<ImageSet>,
    Error,
>)
    ensures
        match result {
            Ok(sets) => {
                &&& sets@.len() == data@.len() / IMAGE_SIZE as nat
                &&& forall|i: int|
                    0 <= i < sets@.len() ==> image_found(
                        data@,
                        sprites@,
                        all_colors@.len() as int,
                        i,
                    )
                &&& forall|i: int| 0 <= i < sets@.len() ==> image_tiles_ok(data@, sprites@, i)
                &&& forall|i: int|
                    0 <= i < sets@.len() ==> image_is(
                        #[trigger] sets@[i],
                        data@,
                        sprites@,
                        all_colors@,
                        i,
                    )
            },
            Err(Error::SpriteNotFound { image }) => {
                &&& image < data@.len() / IMAGE_SIZE as nat
                &&& !image_sprites_found(data@, sprites@.len() as int, image as int)
                &&& forall|i: int|
                    0 <= i < image ==> image_found(data@, sprites@, all_colors@.len() as int, i)
            },
            Err(Error::PaletteNotFound { image }) => {
                &&& image < data@.len() / IMAGE_SIZE as nat
                &&& image_sprites_found(data@, sprites@.len() as int, image as int)
                &&& !image_palette_found(data@, sprites@, all_colors@.len() as int, image as int)
                &&& forall|i: int|
                    0 <= i < image ==> image_found(data@, sprites@, all_colors@.len() as int, i)
            },
            Err(Error::InvalidImage { image }) => {
                &&& image < data@.len() / IMAGE_SIZE as nat
                &&& forall|i: int|
                    0 <= i < data@.len() / IMAGE_SIZE as nat ==> image_found(
                        data@,
                        sprites@,
                        all_colors@.len() as int,
                        i,
                    )
                &&& !image_tiles_ok(data@, sprites@, image as int)
                &&& forall|i: int| 0 <= i < image ==> image_tiles_ok(data@, sprites@, i)
            },
            Err(_) => false,
        },
{
    let count = data.len() / IMAGE_SIZE;
    let mut i: usize = 0;
    while i < count
        invariant
            i <= count,
            count == data.data.len() / IMAGE_SIZE,
            forall|k: int|
                0 <= k < i ==> image_found(data@, sprites@, all_colors@.len() as int, k),
        decreases count - i,
    {
        match check_image(data, sprites, all_colors.len(), i) {
            Ok(()) => {},
            Err(e) => {
                return Err(e);
            },
        }
        i += 1;
    }
    let mut image_sets: Vec<ImageSet> = Vec::new();
    let mut i: usize = 0;
    while i < count
        invariant
            i <= count,
            count == data.data.len() / IMAGE_SIZE,
            forall|k: int|
                0 <= k < count ==> image_found(data@, sprites@, all_colors@.len() as int, k),
            image_sets@.len() == i,
            forall|k: int| 0 <= k < i ==> image_tiles_ok(data@, sprites@, k),
            forall|k: int|
                0 <= k < i ==> image_is(
                    #[trigger] image_sets@[k],
                    data@,
                    sprites@,
                    all_colors@,
                    k,
                ),
        decreases count - i,
    {
        match read_image(data, sprites, all_colors, i) {
            Some(set) => {
                image_sets.push(set);
            },
            None => {
                return Err(Error::InvalidImage { image: i });
            },
        }
        i += 1;
    }
    Ok(image_sets)
}

/// The colour that fills a palette up: transparent black.
pub open spec fn filler() -> Color {
    Color(0, 0, 0, 0)
}

/// The bits per pixel for a palette of `count` colours: the least of 2, 4, 6
/// and 8 that gives each colour an index.
pub open spec fn depth_for(count: int) -> int {
    if count <= 4 {
        2
    } else if count <= 16 {
        4
    } else if count <= 64 {
        6
    } else {
        8
    }
}

/// The number of colours that a palette of `count` colours is filled up to.
pub open spec fn goal_for(count: int) -> int {
    if count <= 4 {
        4
    } else if count <= 16 {
        16
    } else if count <= 64 {
        64
    } else {
        256
    }
}

/// A palette cut or filled up to `goal` colours.
pub open spec fn padded_palette(palette: Seq<Color>, goal: int) -> Seq<Color> {
    Seq::new(
        goal as nat,
        |k: int|
            if k < palette.len() {
                palette[k]
            } else {
                filler()
            },
    )
}

/// The palettes of an image, each filled up to the size that the first asks
/// for.
pub open spec fn padded_palettes(set: ImageSet) -> Seq<Seq<Color>> {
    Seq::new(
        set.palettes@.len(),
        |j: int| padded_palette(set.palettes@[j]@, goal_for(set.palettes@[0]@.len() as int)),
    )
}

/// The colours of an image as they are written: its palettes filled up, one
/// behind the other.
pub open spec fn image_colors(set: ImageSet) -> Seq<Color> {
    joined(padded_palettes(set))
}

/// Whether the colours of `a` are the first colours of `b`, as their words
/// tell.
pub open spec fn colors_prefix(a: Seq<Color>, b: Seq<Color>) -> bool {
    &&& a.len() <= b.len()
    &&& forall|k: int| 0 <= k < a.len() ==> color_word(#[trigger] a[k]) == color_word(b[k])
}

/// Whether `colors` stand among `all` from place `at` on, as their words tell.
pub open spec fn colors_stored(all: Seq<Color>, at: int, colors: Seq<Color>) -> bool {
    &&& 0 <= at
    &&& at + colors.len() <= all.len()
    &&& forall|k: int|
        0 <= k < colors.len() ==> color_word(#[trigger] colors[k]) == color_word(all[at + k])
}

/// Whether every part has a length that is a multiple of four.
pub open spec fn parts_in_fours(parts: Seq<Seq<Color>>) -> bool {
    forall|k: int| 0 <= k < parts.len() ==> (#[trigger] parts[k]).len() % 4 == 0
}

/// Parts whose lengths are multiples of four start at multiples of four.
pub proof fn lemma_starts_in_fours(parts: Seq<Seq<Color>>, k: int)
    requires
        parts_in_fours(parts),
        0 <= k <= parts.len(),
    ensures
        part_start(parts, k) % 4 == 0,
        part_start(parts, k) >= 0,
    decreases k,
{
    if k > 0 {
        lemma_starts_in_fours(parts, k - 1);
        lemma_joined_part(parts, k - 1);
        assert(parts[k - 1].len() % 4 == 0);
    } else {
        assert(parts.subrange(0, 0) =~= Seq::<Seq<Color>>::empty());
    }
}

fn is_prefix(a: &Vec<Color>, b: &Vec<Color>) -> (prefix: bool)
    ensures
        prefix == colors_prefix(a@, b@),
{
    if a.len() > b.len() {
        return false;
    }
    let n = a.len();
    let mut k: usize = 0;
    while k < n
        invariant
            k <= n,
            n == a.len(),
            n <= b.len(),
            forall|j: int| 0 <= j < k ==> color_word(#[trigger] a@[j]) == color_word(b@[j]),
        decreases n - k,
    {
        if a[k].as_word() != b[k].as_word() {
            return false;
        }
        k += 1;
    }
    true
}

/// The bits per pixel of an image and its colours as they are written.
fn gather_colors(set: &ImageSet) -> (found: (u32, Vec<Color>))
    requires
        set.palettes@.len() > 0,
        set.palettes@[0]@.len() <= 256,
    ensures
        found.0 == depth_for(set.palettes@[0]@.len() as int),
        found.1@ == image_colors(*set),
        found.1@.len() % 4 == 0,
{
    let count = set.palettes[0].len();
    let (bpp, goal): (u32, usize) = if count <= 4 {
        (2, 4)
    } else if count <= 16 {
        (4, 16)
    } else if count <= 64 {
        (6, 64)
    } else {
        (8, 256)
    };
    let ghost parts = padded_palettes(*set);
    let mut colors: Vec<Color> = Vec::new();
    let n = set.palettes.len();
    let mut j: usize = 0;
    assert(parts.subrange(0, 0) =~= Seq::<Seq<Color>>::empty());
    while j < n
        invariant
            j <= n,
            n == set.palettes@.len(),
            n > 0,
            goal == goal_for(set.palettes@[0]@.len() as int),
            goal % 4 == 0,
            parts == padded_palettes(*set),
            colors@ == joined(parts.subrange(0, j as int)),
            colors@.len() % 4 == 0,
        decreases n - j,
    {
        let palette = &set.palettes[j];
        let ghost before = colors@;
        let mut k: usize = 0;
        while k < goal
            invariant
                k <= goal,
                palette == set.palettes@[j as int],
                colors@ == before + padded_palette(palette@, goal as int).subrange(0, k as int),
            decreases goal - k,
        {
            let color = if k < palette.len() {
                palette[k]
            } else {
                Color::new(0, 0, 0, 0)
            };
            colors.push(color);
            k += 1;
            assert(colors@ =~= before + padded_palette(palette@, goal as int).subrange(
                0,
                k as int,
            ));
        }
        proof {
            let whole = padded_palette(palette@, goal as int);
            assert(whole.subrange(0, goal as int) =~= whole);
            assert(parts.subrange(0, j + 1).drop_last() =~= parts.subrange(0, j as int));
            assert(parts.subrange(0, j + 1).last() == whole);
        }
        j += 1;
    }
    assert(parts.subrange(0, n as int) =~= parts);
    (bpp, colors)
}

/// The views of palettes held as vectors.
pub open spec fn slot_views(slots: Seq<Vec<Color>>) -> Seq<Seq<Color>> {
    Seq::new(slots.len(), |k: int| slots[k]@)
}

/// The first palette from place `s` on of which `colors` are the first
/// colours, or which holds the first colours of `colors`; the number of
/// palettes where there is none.
pub open spec fn palette_slot(slots: Seq<Seq<Color>>, colors: Seq<Color>, s: int) -> int
    decreases slots.len() - s,
{
    if s < 0 || s >= slots.len() {
        slots.len() as int
    } else if colors_prefix(colors, slots[s]) || colors_prefix(slots[s], colors) {
        s
    } else {
        palette_slot(slots, colors, s + 1)
    }
}

/// The palettes with `colors` among them: as they are where `colors` are
/// the first colours of a palette; with `colors` in place of the first
/// palette that holds their first colours; and else with `colors` behind
/// them.
pub open spec fn slots_with(slots: Seq<Seq<Color>>, colors: Seq<Color>) -> Seq<Seq<Color>> {
    let s = palette_slot(slots, colors, 0);
    if s >= slots.len() {
        slots.push(colors)
    } else if colors_prefix(colors, slots[s]) {
        slots
    } else {
        slots.update(s, colors)
    }
}

/// The palettes that hold the colours of the first `i` images.
pub open spec fn image_slots(sets: Seq<ImageSet>, i: int) -> Seq<Seq<Color>>
    decreases i,
{
    if i <= 0 {
        Seq::empty()
    } else {
        slots_with(image_slots(sets, i - 1), image_colors(sets[i - 1]))
    }
}

/// The palette among those of all images that holds the colours of image
/// `i`.
pub open spec fn image_slot(sets: Seq<ImageSet>, i: int) -> int {
    palette_slot(image_slots(sets, i), image_colors(sets[i]), 0)
}

/// The colours of all images as they are written, one palette behind the
/// other.
pub open spec fn palette_colors(sets: Seq<ImageSet>) -> Seq<Color> {
    joined(image_slots(sets, sets.len() as int))
}

/// The place, in units of four colours, at which the colours of image `i`
/// stand among the colours of all images.
pub open spec fn palette_place(sets: Seq<ImageSet>, i: int) -> int {
    part_start(image_slots(sets, sets.len() as int), image_slot(sets, i)) / 4
}

/// Finds the first palette of which `colors` are the first colours, or which
/// holds the first colours of `colors` and is then replaced by them; where
/// there is none, `colors` become a new palette. Gives the place of the
/// palette.
fn place_palette(slots: &mut Vec<Vec<Color>>, colors: Vec<Color>) -> (slot: usize)
    requires
        parts_in_fours(slot_views(old(slots)@)),
        colors@.len() % 4 == 0,
    ensures
        slot == palette_slot(slot_views(old(slots)@), colors@, 0),
        slot_views(final(slots)@) == slots_with(slot_views(old(slots)@), colors@),
        slot < final(slots)@.len(),
        colors_prefix(colors@, final(slots)@[slot as int]@),
        old(slots)@.len() <= final(slots)@.len(),
        forall|s: int|
            0 <= s < old(slots)@.len() ==> colors_prefix(
                #[trigger] old(slots)@[s]@,
                final(slots)@[s]@,
            ),
        parts_in_fours(slot_views(final(slots)@)),
{
    let n = slots.len();
    let mut s: usize = 0;
    while s < n
        invariant
            s <= n,
            n == slots@.len(),
            slots@ == old(slots)@,
            parts_in_fours(slot_views(slots@)),
            colors@.len() % 4 == 0,
            palette_slot(slot_views(slots@), colors@, 0) == palette_slot(
                slot_views(slots@),
                colors@,
                s as int,
            ),
        decreases n - s,
    {
        if is_prefix(&colors, &slots[s]) {
            return s;
        }
        if is_prefix(&slots[s], &colors) {
            let ghost before = slots@;
            slots.set(s, colors);
            proof {
                assert(slot_views(slots@) =~= slot_views(before).update(s as int, colors@));
                assert forall|k: int| 0 <= k < slots@.len() implies (#[trigger] slot_views(
                    slots@,
                )[k]).len() % 4 == 0 by {
                    if k != s {
                        assert(slot_views(before)[k].len() % 4 == 0);
                    }
                }
            }
            return s;
        }
        s += 1;
    }
    let ghost before = slots@;
    slots.push(colors);
    proof {
        assert(slot_views(slots@) =~= slot_views(before).push(colors@));
        assert forall|k: int| 0 <= k < slots@.len() implies (#[trigger] slot_views(
            slots@,
        )[k]).len() % 4 == 0 by {
            if k < n {
                assert(slot_views(before)[k].len() % 4 == 0);
            }
        }
    }
    n
}

/// All palettes one behind the other, and the place at which each starts.
fn flatten_palettes(slots: &Vec<Vec<Color>>) -> (found: (Vec<Color>, Vec<usize>))
    ensures
        found.0@ == joined(slot_views(slots@)),
        found.1@.len() == slots@.len(),
        forall|s: int|
            0 <= s < slots@.len() ==> #[trigger] found.1@[s] == part_start(slot_views(slots@), s),
{
    let ghost parts = slot_views(slots@);
    let mut all: Vec<Color> = Vec::new();
    let mut starts: Vec<usize> = Vec::new();
    let n = slots.len();
    let mut s: usize = 0;
    assert(parts.subrange(0, 0) =~= Seq::<Seq<Color>>::empty());
    while s < n
        invariant
            s <= n,
            n == slots@.len(),
            parts == slot_views(slots@),
            all@ == joined(parts.subrange(0, s as int)),
            starts@.len() == s,
            forall|k: int| 0 <= k < s ==> #[trigger] starts@[k] == part_start(parts, k),
        decreases n - s,
    {
        starts.push(all.len());
        let slot = &slots[s];
        let m = slot.len();
        let ghost before = all@;
        let mut k: usize = 0;
        while k < m
            invariant
                k <= m,
                m == slot@.len(),
                all@ == before + slot@.subrange(0, k as int),
            decreases m - k,
        {
            all.push(slot[k]);
            k += 1;
            assert(all@ =~= before + slot@.subrange(0, k as int));
        }
        proof {
            assert(slot@.subrange(0, m as int) =~= slot@);
            assert(parts.subrange(0, s + 1).drop_last() =~= parts.subrange(0, s as int));
            assert(parts.subrange(0, s + 1).last() == slot@);
        }
        s += 1;
    }
    assert(parts.subrange(0, n as int) =~= parts);
    (all, starts)
}

/// The number of sprites of the first `i` images.
pub open spec fn sprites_before(sets: Seq<ImageSet>, i: int) -> int
    decreases i,
{
    if i <= 0 {
        0
    } else {
        sprites_before(sets, i - 1) + sets[i - 1].tile_count()
    }
}

/// Whether image `i` can be written: it has a palette, of at most 256
/// colours; at most 255 sprites stand in a row or a column of a subimage; the
/// number of its first sprite fits 16 bits; and it can be cut into tiles.
pub open spec fn image_writable(sets: Seq<ImageSet>, i: int) -> bool {
    &&& sets[i].palettes@.len() > 0
    &&& sets[i].palettes@[0]@.len() <= 256
    &&& sets[i].width_in_sprites <= 0xff
    &&& sets[i].height_in_sprites <= 0xff
    &&& sprites_before(sets, i) <= 0xffff
    &&& sets[i].tilable(sprites_before(sets, i))
}

/// Whether the record `i` of the table `data` is that of image `i`, and
/// names a place among `colors` where the colours of the image stand.
pub open spec fn record_is(data: Seq<u8>, colors: Seq<Color>, sets: Seq<ImageSet>, i: int) -> bool {
    &&& image_first_sprite(data, i) == sprites_before(sets, i)
    &&& image_columns(data, i) == sets[i].width_in_sprites
    &&& image_rows(data, i) == sets[i].height_in_sprites
    &&& colors_stored(colors, 4 * image_first_palette(data, i), image_colors(sets[i]))
}

/// The bits per pixel that image `i` is written with.
pub open spec fn image_depth(sets: Seq<ImageSet>, i: int) -> int {
    depth_for(sets[i].palettes@[0]@.len() as int)
}

/// Being the first colours of, as words tell, carries over.
pub proof fn lemma_prefix_carries(a: Seq<Color>, b: Seq<Color>, c: Seq<Color>)
    requires
        colors_prefix(a, b),
        colors_prefix(b, c),
    ensures
        colors_prefix(a, c),
{
    assert forall|k: int| 0 <= k < a.len() implies color_word(#[trigger] a[k]) == color_word(
        c[k],
    ) by {
        assert(color_word(b[k]) == color_word(c[k]));
    }
}

/// Whether the sprite at the place of tile `k` of image `i` is that tile.
pub open spec fn image_tile_is(sets: Seq<ImageSet>, sprites: Seq<Sprite>, i: int, k: int) -> bool {
    sets[i].tile_is(
        sprites[sprites_before(sets, i) + k],
        image_depth(sets, i) as u32,
        sprites_before(sets, i),
        k,
    )
}

/// The six bytes of the record of an image.
pub open spec fn image_record(first: u16, columns: u8, rows: u8, palette: u16) -> Seq<u8> {
    u16_bytes(first) + seq![columns, rows] + u16_bytes(palette)
}

/// Whether `data`, `sprites` and `colors` are a table written for the images
/// `sets`, with their sprites and their colours: every image can be written;
/// the sprites are the tiles of the images in order; the number of colours is
/// a multiple of four; and the record of each image names its first sprite,
/// its grid, and a place among the colours where its own colours stand.
pub open spec fn images_saved(
    data: Seq<u8>,
    sprites: Seq<Sprite>,
    colors: Seq<Color>,
    sets: Seq<ImageSet>,
) -> bool {
    &&& forall|i: int| 0 <= i < sets.len() ==> image_writable(sets, i)
    &&& sprites.len() == sprites_before(sets, sets.len() as int)
    &&& forall|i: int, k: int|
        0 <= i < sets.len() && 0 <= k < sets[i].tile_count() ==> #[trigger] image_tile_is(
            sets,
            sprites,
            i,
            k,
        )
    &&& colors.len() % 4 == 0
    &&& data.len() == IMAGE_SIZE * sets.len()
    &&& forall|i: int| 0 <= i < sets.len() ==> record_is(data, colors, sets, i)
}

/// Whether writing the images fails for a number that does not fit 16 bits:
/// the number of the first sprite of an image, where the images before it
/// can be written; or, where all images can be written, the place of the
/// colours of an image.
pub open spec fn images_oversize(sets: Seq<ImageSet>, error: Error) -> bool {
    match error {
        Error::SizeExceeded { size, limit } => {
            &&& limit == 0xffff
            &&& size > limit
            &&& exists|i: int| 0 <= i < sets.len() && #[trigger] oversize_at(sets, size as int, i)
        },
        _ => false,
    }
}

/// Whether `size` is the number of the first sprite of image `i`, where the
/// images before it can be written, or the place of its colours, where all
/// images can be written.
pub open spec fn oversize_at(sets: Seq<ImageSet>, size: int, i: int) -> bool {
    ||| size == sprites_before(sets, i) && forall|j: int| 0 <= j < i ==> image_writable(sets, j)
    ||| size == palette_place(sets, i) && forall|j: int|
        0 <= j < sets.len() ==> image_writable(sets, j)
}

/// The table of the images, their sprites, and their colours. Images whose
/// colours begin alike share a palette: where the colours of an image are the
/// first colours of a palette already there, or the other way round, the
/// longer of the two is kept for both.
pub fn save_image_sets(image_sets: &[ImageSet]) -> (result: Result<
    (Vec<u8>, Vec<Sprite>, Vec<Color>),
    Error,
>)
    ensures
        match result {
            Ok((data, sprites, colors)) => {
                &&& images_saved(data@, sprites@, colors@, image_sets@)
                &&& colors@ == palette_colors(image_sets@)
                &&& forall|i: int|
                    0 <= i < image_sets@.len() ==> #[trigger] image_first_palette(data@, i)
                        == palette_place(image_sets@, i)
            },
            Err(Error::TooManyColors { image, count }) => {
                &&& image < image_sets@.len()
                &&& image_sets@[image as int].palettes@.len() > 0
                &&& count == image_sets@[image as int].palettes@[0]@.len()
                &&& count > 256
                &&& forall|i: int| 0 <= i < image ==> image_writable(image_sets@, i)
            },
            Err(Error::InvalidImage { image }) => {
                &&& image < image_sets@.len()
                &&& !image_writable(image_sets@, image as int)
                &&& forall|i: int| 0 <= i < image ==> image_writable(image_sets@, i)
            },
            Err(error) => images_oversize(image_sets@, error),
        },
{
    let ghost sets = image_sets@;
    let n = image_sets.len();
    let mut sprites: Vec<Sprite> = Vec::new();
    let mut slots: Vec<Vec<Color>> = Vec::new();
    let mut slot_of: Vec<usize> = Vec::new();
    let mut firsts: Vec<u16> = Vec::new();
    let mut i: usize = 0;
    while i < n
        invariant
            i <= n,
            n == image_sets@.len(),
            sets == image_sets@,
            sprites@.len() == sprites_before(sets, i as int),
            forall|j: int| 0 <= j < i ==> image_writable(sets, j),
            forall|j: int, k: int|
                0 <= j < i && 0 <= k < sets[j].tile_count() ==> #[trigger] image_tile_is(
                    sets,
                    sprites@,
                    j,
                    k,
                ),
            parts_in_fours(slot_views(slots@)),
            slot_views(slots@) == image_slots(sets, i as int),
            slot_of@.len() == i,
            forall|j: int| 0 <= j < i ==> #[trigger] slot_of@[j] == image_slot(sets, j),
            forall|j: int|
                0 <= j < i ==> (#[trigger] slot_of@[j]) < slots@.len() && colors_prefix(
                    image_colors(sets[j]),
                    slots@[slot_of@[j] as int]@,
                ),
            firsts@.len() == i,
            forall|j: int| 0 <= j < i ==> #[trigger] firsts@[j] == sprites_before(sets, j),
        decreases n - i,
    {
        let set = &image_sets[i];
        if set.palettes.len() == 0 {
            return Err(Error::InvalidImage { image: i });
        }
        let count = set.palettes[0].len();
        if count > 256 {
            return Err(Error::TooManyColors { image: i, count });
        }
        if set.width_in_sprites > 0xff || set.height_in_sprites > 0xff {
            return Err(Error::InvalidImage { image: i });
        }
        let (bpp, colors) = gather_colors(set);
        let ghost held = slots@;
        let ghost own = colors@;
        let slot = place_palette(&mut slots, colors);
        proof {
            assert forall|j: int| 0 <= j < i implies (#[trigger] slot_of@[j]) < slots@.len()
                && colors_prefix(image_colors(sets[j]), slots@[slot_of@[j] as int]@) by {
                let at = slot_of@[j] as int;
                lemma_prefix_carries(image_colors(sets[j]), held[at]@, slots@[at]@);
            }
        }
        slot_of.push(slot);
        let first = sprites.len();
        if first > 0xffff {
            proof {
                let error = Error::SizeExceeded { size: first, limit: 0xffff };
                assert(oversize_at(sets, error->SizeExceeded_size as int, i as int));
                assert(0 <= i < sets.len());
                assert(images_oversize(sets, error));
            }
            return Err(Error::SizeExceeded { size: first, limit: 0xffff });
        }
        let mut more = match set.to_sprites(bpp, first) {
            Ok(more) => more,
            Err(_) => {
                return Err(Error::InvalidImage { image: i });
            },
        };
        let ghost before = sprites@;
        let ghost cut = more@;
        sprites.append(&mut more);
        firsts.push(first as u16);
        proof {
            assert forall|j: int, k: int|
                0 <= j < i + 1 && 0 <= k < sets[j].tile_count() implies #[trigger] image_tile_is(
                sets,
                sprites@,
                j,
                k,
            ) by {
                if j < i {
                    assert(image_tile_is(sets, before, j, k));
                    lemma_sprites_before_grows(sets, j, i as int);
                    assert(sprites@[sprites_before(sets, j) + k] == before[sprites_before(sets, j)
                        + k]);
                } else {
                    assert(sprites@[first + k] == cut[k]);
                    assert(sets[j].tile_is(cut[k], bpp, first as int, k));
                }
            }
        }
        i += 1;
    }
    let (colors, starts) = flatten_palettes(&slots);
    let ghost parts = slot_views(slots@);
    proof {
        lemma_starts_in_fours(parts, parts.len() as int);
        assert(parts.subrange(0, parts.len() as int) =~= parts);
    }
    let mut data: Vec<u8> = Vec::new();
    let mut i: usize = 0;
    while i < n
        invariant
            i <= n,
            n == image_sets@.len(),
            sets == image_sets@,
            parts == slot_views(slots@),
            parts_in_fours(parts),
            colors@ == joined(parts),
            starts@.len() == slots@.len(),
            forall|s: int| 0 <= s < slots@.len() ==> #[trigger] starts@[s] == part_start(parts, s),
            parts == image_slots(sets, n as int),
            slot_of@.len() == n,
            forall|j: int| 0 <= j < n ==> #[trigger] slot_of@[j] == image_slot(sets, j),
            forall|j: int|
                0 <= j < n ==> (#[trigger] slot_of@[j]) < slots@.len() && colors_prefix(
                    image_colors(sets[j]),
                    slots@[slot_of@[j] as int]@,
                ),
            firsts@.len() == n,
            forall|j: int| 0 <= j < n ==> #[trigger] firsts@[j] == sprites_before(sets, j),
            forall|j: int| 0 <= j < n ==> image_writable(sets, j),
            data@.len() == IMAGE_SIZE * i,
            forall|j: int| 0 <= j < i ==> record_is(data@, colors@, sets, j),
            forall|j: int|
                0 <= j < i ==> #[trigger] image_first_palette(data@, j) == palette_place(sets, j),
        decreases n - i,
    {
        let slot = slot_of[i];
        let start = starts[slot];
        proof {
            lemma_starts_in_fours(parts, slot as int);
            lemma_joined_part(parts, slot as int);
        }
        let palette = start / 4;
        proof {
            assert(palette == palette_place(sets, i as int));
        }
        if palette > 0xffff {
            proof {
                assert(oversize_at(sets, palette as int, i as int));
                assert(images_oversize(
                    sets,
                    Error::SizeExceeded { size: palette, limit: 0xffff },
                ));
            }
            return Err(Error::SizeExceeded { size: palette, limit: 0xffff });
        }
        let set = &image_sets[i];
        assert(image_writable(sets, i as int));
        let ghost before = data@;
        push_u16(&mut data, firsts[i]);
        data.push(set.width_in_sprites as u8);
        data.push(set.height_in_sprites as u8);
        push_u16(&mut data, palette as u16);
        proof {
            let record = image_record(
                firsts@[i as int],
                set.width_in_sprites as u8,
                set.height_in_sprites as u8,
                palette as u16,
            );
            assert(data@ =~= before + record);
            assert forall|j: int| 0 <= j < i + 1 implies #[trigger] image_first_palette(data@, j)
                == palette_place(sets, j) by {
                if j < i {
                    assert(image_first_palette(before, j) == palette_place(sets, j));
                    assert(data@[IMAGE_SIZE * j + 4] == before[IMAGE_SIZE * j + 4]);
                    assert(data@[IMAGE_SIZE * j + 5] == before[IMAGE_SIZE * j + 5]);
                } else {
                    let base = IMAGE_SIZE * i;
                    assert(data@[base + 4] == record[4]);
                    assert(data@[base + 5] == record[5]);
                    assert(image_first_palette(data@, j) == palette);
                }
            }
            assert forall|j: int| 0 <= j < i + 1 implies record_is(data@, colors@, sets, j) by {
                if j < i {
                    assert(record_is(before, colors@, sets, j));
                    assert(data@[IMAGE_SIZE * j] == before[IMAGE_SIZE * j]);
                    assert(data@[IMAGE_SIZE * j + 1] == before[IMAGE_SIZE * j + 1]);
                    assert(data@[IMAGE_SIZE * j + 2] == before[IMAGE_SIZE * j + 2]);
                    assert(data@[IMAGE_SIZE * j + 3] == before[IMAGE_SIZE * j + 3]);
                    assert(data@[IMAGE_SIZE * j + 4] == before[IMAGE_SIZE * j + 4]);
                    assert(data@[IMAGE_SIZE * j + 5] == before[IMAGE_SIZE * j + 5]);
                } else {
                    let base = IMAGE_SIZE * i;
                    assert(data@[base + 0] == record[0]);
                    assert(data@[base + 1] == record[1]);
                    assert(data@[base + 2] == record[2]);
                    assert(data@[base + 3] == record[3]);
                    assert(data@[base + 4] == record[4]);
                    assert(data@[base + 5] == record[5]);
                    assert(image_first_palette(data@, j) == palette);
                    let own = image_colors(sets[j]);
                    let kept = slots@[slot as int]@;
                    assert(parts[slot as int] == kept);
                    assert forall|c: int| 0 <= c < own.len() implies color_word(
                        #[trigger] own[c],
                    ) == color_word(colors@[4 * palette + c]) by {
                        assert(colors@.subrange(start as int, start + kept.len())[c] == kept[c]);
                    }
                }
            }
        }
        i += 1;
    }
    proof {
        lemma_starts_in_fours(parts, parts.len() as int);
    }
    Ok((data, sprites, colors))
}

/// The number of sprites in front of an image grows with the image.
pub proof fn lemma_sprites_before_grows(sets: Seq<ImageSet>, j: int, i: int)
    requires
        0 <= j < i <= sets.len(),
    ensures
        sprites_before(sets, j) + sets[j].tile_count() <= sprites_before(sets, i),
        0 <= sprites_before(sets, j),
    decreases i,
{
    lemma_sprites_before_positive(sets, j);
    lemma_sprites_before_positive(sets, i - 1);
    assert(sets[i - 1].tile_count() >= 0) by (nonlinear_arith)
        requires
            sets[i - 1].tile_count() == sets[i - 1].subimages@.len() * (
            sets[i - 1].width_in_sprites * sets[i - 1].height_in_sprites),
            sets[i - 1].width_in_sprites >= 0,
            sets[i - 1].height_in_sprites >= 0,
    ;
    if j < i - 1 {
        lemma_sprites_before_grows(sets, j, i - 1);
    }
}

/// The number of sprites of the first images is not negative.
pub proof fn lemma_sprites_before_positive(sets: Seq<ImageSet>, i: int)
    requires
        0 <= i <= sets.len(),
    ensures
        0 <= sprites_before(sets, i),
    decreases i,
{
    if i > 0 {
        lemma_sprites_before_positive(sets, i - 1);
        assert(sets[i - 1].tile_count() >= 0) by (nonlinear_arith)
            requires
                sets[i - 1].tile_count() == sets[i - 1].subimages@.len() * (
                sets[i - 1].width_in_sprites * sets[i - 1].height_in_sprites),
                sets[i - 1].width_in_sprites >= 0,
                sets[i - 1].height_in_sprites >= 0,
        ;
    }
}

/// Byte `b` of the four bytes of a colour: red, green, blue, alpha.
pub open spec fn channel(color: Color, b: int) -> u8 {
    if b == 0 {
        color.0
    } else if b == 1 {
        color.1
    } else if b == 2 {
        color.2
    } else {
        color.3
    }
}

/// The bytes of pixels given as colours, four for each.
pub open spec fn colors_rgba(colors: Seq<Color>) -> Seq<u8> {
    Seq::new(4 * colors.len(), |b: int| channel(colors[b / 4], b % 4))
}

/// The colours of colour indices by a palette.
pub open spec fn indexed_colors(palette: Seq<Color>, pixels: Seq<u32>) -> Seq<Color> {
    Seq::new(pixels.len(), |p: int| palette[pixels[p] as int])
}

/// Whether every colour index has a colour in the palette.
pub open spec fn indices_found(palette: Seq<Color>, pixels: Seq<u32>) -> bool {
    forall|p: int| 0 <= p < pixels.len() ==> (#[trigger] pixels[p] as int) < palette.len()
}

/// Appends the four bytes of a colour.
fn push_color(data: &mut Vec<u8>, color: Color)
    ensures
        final(data)@ == old(data)@ + seq![color.0, color.1, color.2, color.3],
{
    data.push(color.0);
    data.push(color.1);
    data.push(color.2);
    data.push(color.3);
    assert(data@ =~= old(data)@ + seq![color.0, color.1, color.2, color.3]);
}

/// The bytes of the pixels of colour indices by a palette, or the place of
/// the first index that has no colour.
fn paint(palette: &Vec<Color>, pixels: &Vec<u32>) -> (result: Result<Vec<u8>, usize>)
    ensures
        match result {
            Ok(data) => indices_found(palette@, pixels@) && data@ == colors_rgba(
                indexed_colors(palette@, pixels@),
            ),
            Err(pixel) => pixel < pixels@.len() && pixels@[pixel as int] >= palette@.len()
                && forall|p: int| 0 <= p < pixel ==> (#[trigger] pixels@[p] as int) < palette@.len(),
        },
{
    let mut data: Vec<u8> = Vec::new();
    let n = pixels.len();
    let mut p: usize = 0;
    let ghost colors = indexed_colors(palette@, pixels@);
    while p < n
        invariant
            p <= n,
            n == pixels@.len(),
            colors == indexed_colors(palette@, pixels@),
            forall|q: int| 0 <= q < p ==> (#[trigger] pixels@[q] as int) < palette@.len(),
            data@ == colors_rgba(colors.subrange(0, p as int)),
        decreases n - p,
    {
        let index = pixels[p] as usize;
        if index >= palette.len() {
            return Err(p);
        }
        let ghost before = data@;
        push_color(&mut data, palette[index]);
        proof {
            let some = colors.subrange(0, p as int);
            let more = colors.subrange(0, p + 1);
            assert forall|b: int| 0 <= b < 4 * (p + 1) implies data@[b] == colors_rgba(more)[b] by {
                if b < 4 * p {
                    assert(data@[b] == before[b]);
                    assert(some[b / 4] == more[b / 4]);
                }
            }
            assert(data@ =~= colors_rgba(more));
        }
        p += 1;
    }
    assert(colors.subrange(0, n as int) =~= colors);
    Ok(data)
}

impl ImageSet {
    /// Whether each subimage can be shown with palette `palette_index`:
    /// the palette exists, it has a colour for every colour index, and the
    /// subimage holds at least the pixels of the image.
    pub open spec fn showable(&self, palette_index: int) -> bool {
        &&& 0 <= palette_index < self.palettes@.len()
        &&& forall|j: int|
            0 <= j < self.subimages@.len() ==> indices_found(
                self.palettes@[palette_index]@,
                (#[trigger] self.subimages@[j]).pixel_data@,
            ) && self.subimages@[j].pixel_data@.len() >= self.width * self.height
    }

    /// Each subimage as an image, with the colours of palette `palette_index`.
    pub fn to_images(&self, palette_index: usize) -> (result: Result<Vec<Raster>, Error>)
        ensures
            match result {
                Ok(images) => {
                    &&& self.showable(palette_index as int)
                    &&& images@.len() == self.subimages@.len()
                    &&& forall|j: int|
                        0 <= j < images@.len() ==> (#[trigger] images@[j]).width == self.width
                            && images@[j].height == self.height && images@[j].data@
                            == colors_rgba(
                            indexed_colors(
                                self.palettes@[palette_index as int]@,
                                self.subimages@[j].pixel_data@,
                            ),
                        )
                },
                Err(Error::PaletteNotFound { image }) => image == self.original_index
                    && palette_index >= self.palettes@.len(),
                Err(Error::ColorNotFound { pixel }) => !self.showable(palette_index as int),
                Err(Error::InvalidImage { image }) => image == self.original_index
                    && !self.showable(palette_index as int),
                Err(_) => false,
            },
    {
        if palette_index >= self.palettes.len() {
            return Err(Error::PaletteNotFound { image: self.original_index });
        }
        assert(self.width * self.height <= 0xffff_ffff * 0xffff_ffff) by (nonlinear_arith)
            requires
                self.width <= 0xffff_ffff,
                self.height <= 0xffff_ffff,
        ;
        let area: u64 = (self.width as u64) * (self.height as u64);
        let mut images: Vec<Raster> = Vec::new();
        let n = self.subimages.len();
        let mut j: usize = 0;
        while j < n
            invariant
                j <= n,
                n == self.subimages@.len(),
                palette_index < self.palettes@.len(),
                area == self.width * self.height,
                images@.len() == j,
                forall|k: int|
                    0 <= k < j ==> indices_found(
                        self.palettes@[palette_index as int]@,
                        (#[trigger] self.subimages@[k]).pixel_data@,
                    ) && self.subimages@[k].pixel_data@.len() >= self.width * self.height,
                forall|k: int|
                    0 <= k < j ==> (#[trigger] images@[k]).width == self.width
                        && images@[k].height == self.height && images@[k].data@ == colors_rgba(
                        indexed_colors(
                            self.palettes@[palette_index as int]@,
                            self.subimages@[k].pixel_data@,
                        ),
                    ),
            decreases n - j,
        {
            let data = match paint(&self.palettes[palette_index], &self.subimages[j].pixel_data) {
                Ok(data) => data,
                Err(pixel) => {
                    assert(!indices_found(
                        self.palettes@[palette_index as int]@,
                        self.subimages@[j as int].pixel_data@,
                    ));
                    return Err(Error::ColorNotFound { pixel });
                },
            };
            if (self.subimages[j].pixel_data.len() as u64) < area {
                return Err(Error::InvalidImage { image: self.original_index });
            }
            images.push(Raster { width: self.width, height: self.height, data });
            j += 1;
        }
        Ok(images)
    }
}

} // verus!
