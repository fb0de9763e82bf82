//! Sprite sheets: all subimages of an image side by side, once for each of
//! its palettes, one palette below the other.

use vstd::prelude::*;
use crate::sprite_pack::image_def::{ImageSet, SubImage, colors_rgba};
use crate::sprite_pack::palette::{Color, color_word};
use crate::sprite_pack::raster::Raster;
use crate::error::Error;

verus! {

/// The place in a sheet `sheet_width` pixels wide of pixel `q` of the
/// subimage `j`, where a subimage is `width` pixels wide.
pub open spec fn sheet_place(width: int, sheet_width: int, j: int, q: int) -> int {
    (q / width) * sheet_width + j * width + q % width
}

/// Whether two colours have the same word.
pub open spec fn same_color(a: Color, b: Color) -> bool {
    color_word(a) == color_word(b)
}

/// Whether the entry of a palette stands for a colour: it has the same word,
/// or, where the palette is locked, both are fully transparent.
pub open spec fn color_matches(entry: Color, color: Color, lock: bool) -> bool {
    same_color(entry, color) || (lock && entry.3 == 0 && color.3 == 0)
}

/// Whether the palette holds a colour with the word of `color`.
pub open spec fn has_color(palette: Seq<Color>, color: Color) -> bool {
    exists|c: int| 0 <= c < palette.len() && same_color(#[trigger] palette[c], color)
}

/// Whether a colour with the word of that at place `p` stands before it.
pub open spec fn seen_before(colors: Seq<Color>, p: int) -> bool {
    exists|k: int| 0 <= k < p && same_color(#[trigger] colors[k], colors[p])
}

/// The places at which a colour stands for the first time, in order.
pub open spec fn first_places(colors: Seq<Color>) -> Seq<int>
    decreases colors.len(),
{
    if colors.len() == 0 {
        Seq::empty()
    } else {
        let before = first_places(colors.drop_last());
        if seen_before(colors, colors.len() - 1) {
            before
        } else {
            before.push(colors.len() - 1)
        }
    }
}

/// Whether `index` is the first entry of the palette that stands for
/// `color`.
pub open spec fn is_first_match(palette: Seq<Color>, color: Color, lock: bool, index: int) -> bool {
    &&& 0 <= index < palette.len()
    &&& color_matches(palette[index], color, lock)
    &&& forall|c: int| 0 <= c < index ==> !color_matches(#[trigger] palette[c], color, lock)
}

/// The first entry of the palette that stands for `color`.
fn find_color(palette: &Vec<Color>, color: Color, lock: bool) -> (found: Option<usize>)
    ensures
        match found {
            Some(index) => is_first_match(palette@, color, lock, index as int),
            None => forall|c: int|
                0 <= c < palette@.len() ==> !color_matches(#[trigger] palette@[c], color, lock),
        },
{
    let n = palette.len();
    let word = color.as_word();
    let mut c: usize = 0;
    while c < n
        invariant
            c <= n,
            n == palette@.len(),
            word == color_word(color),
            forall|k: int| 0 <= k < c ==> !color_matches(#[trigger] palette@[k], color, lock),
        decreases n - c,
    {
        let entry = palette[c];
        if entry.as_word() == word || (lock && entry.3 == 0 && color.3 == 0) {
            return Some(c);
        }
        c += 1;
    }
    None
}

impl ImageSet {
    /// The width of the sheet of the image.
    pub open spec fn sheet_width(&self) -> int {
        self.width * self.subimages@.len()
    }

    /// The height of the sheet of the image.
    pub open spec fn sheet_height(&self) -> int {
        self.height * self.palettes@.len()
    }

    /// The number of pixels of one palette's part of the sheet.
    pub open spec fn band_size(&self) -> int {
        self.sheet_width() * self.height
    }

    /// The number of pixels of a subimage.
    pub open spec fn area(&self) -> int {
        self.width * self.height
    }

    /// Whether `sheet` has the size of the sheet of the image.
    pub open spec fn sheet_fits(&self, sheet: Raster) -> bool {
        &&& sheet.width == self.sheet_width()
        &&& sheet.height == self.sheet_height()
        &&& sheet.data@.len() == 4 * (self.sheet_width() * self.sheet_height())
    }

    /// The colour at place `p` of the sheet of the image: place `p` lies in
    /// the part of the palette `p / band_size()` and there in the subimage
    /// that its column tells.
    pub open spec fn sheet_color(&self, p: int) -> Color {
        let x = p % self.sheet_width();
        let y = p / self.sheet_width();
        let sub = self.subimages@[x / (self.width as int)];
        self.palettes@[y / (self.height as int)]@[sub.pixel_data@[(y % (self.height as int))
            * self.width + x % (self.width as int)] as int]
    }

    /// Whether the sheet of the image can be made: its sides fit 32 bits, and
    /// each subimage can be shown with each palette.
    pub open spec fn sheet_makable(&self) -> bool {
        &&& self.sheet_width() <= u32::MAX
        &&& self.sheet_height() <= u32::MAX
        &&& forall|i: int| 0 <= i < self.palettes@.len() ==> self.showable(i)
    }

    /// The sheet of the image.
    pub fn to_spritesheet(&self) -> (result: Result<Raster, Error>)
        ensures
            match result {
                Ok(sheet) => {
                    &&& self.sheet_makable()
                    &&& sheet.width == self.sheet_width()
                    &&& sheet.height == self.sheet_height()
                    &&& sheet.data@ == colors_rgba(
                        Seq::new(
                            (self.sheet_width() * self.sheet_height()) as nat,
                            |p: int| self.sheet_color(p),
                        ),
                    )
                },
                Err(Error::ColorNotFound { pixel }) => !self.sheet_makable(),
                Err(Error::InvalidImage { image }) => image == self.original_index
                    && !self.sheet_makable(),
                Err(_) => false,
            },
    {
        let failed = Err(Error::InvalidImage { image: self.original_index });
        let subs = self.subimages.len();
        let pals = self.palettes.len();
        assert(self.width * subs <= 0xffff_ffff * 0xffff_ffff_ffff_ffff && self.height * pals
            <= 0xffff_ffff * 0xffff_ffff_ffff_ffff) by (nonlinear_arith)
            requires
                self.width <= 0xffff_ffff,
                self.height <= 0xffff_ffff,
                subs <= 0xffff_ffff_ffff_ffff,
                pals <= 0xffff_ffff_ffff_ffff,
        ;
        let wide: u128 = (self.width as u128) * (subs as u128);
        let high: u128 = (self.height as u128) * (pals as u128);
        if wide > 0xffff_ffff || high > 0xffff_ffff {
            return failed;
        }
        assert(self.width * self.height <= 0xffff_ffff * 0xffff_ffff) by (nonlinear_arith)
            requires
                self.width <= 0xffff_ffff,
                self.height <= 0xffff_ffff,
        ;
        let area: u64 = (self.width as u64) * (self.height as u64);
        let mut i: usize = 0;
        while i < pals
            invariant
                i <= pals,
                pals == self.palettes@.len(),
                subs == self.subimages@.len(),
                area == self.width * self.height,
                failed == Err::<Raster, Error>(Error::InvalidImage { image: self.original_index }),
                forall|k: int| 0 <= k < i ==> self.showable(k),
            decreases pals - i,
        {
            let palette = &self.palettes[i];
            let mut j: usize = 0;
            while j < subs
                invariant
                    j <= subs,
                    i < pals,
                    pals == self.palettes@.len(),
                    subs == self.subimages@.len(),
                    palette == self.palettes@[i as int],
                    area == self.width * self.height,
                    failed == Err::<Raster, Error>(
                        Error::InvalidImage { image: self.original_index },
                    ),
                    forall|k: int|
                        0 <= k < j ==> crate::sprite_pack::image_def::indices_found(
                            palette@,
                            (#[trigger] self.subimages@[k]).pixel_data@,
                        ) && self.subimages@[k].pixel_data@.len() >= self.width * self.height,
                decreases subs - j,
            {
                let pixels = &self.subimages[j].pixel_data;
                if (pixels.len() as u64) < area {
                    assert(!self.showable(i as int));
                    return failed;
                }
                let m = pixels.len();
                let mut q: usize = 0;
                while q < m
                    invariant
                        q <= m,
                        m == pixels@.len(),
                        i < pals,
                        j < subs,
                        pals == self.palettes@.len(),
                        subs == self.subimages@.len(),
                        palette == self.palettes@[i as int],
                        pixels == self.subimages@[j as int].pixel_data,
                        forall|k: int|
                            0 <= k < q ==> (#[trigger] pixels@[k] as int) < palette@.len(),
                    decreases m - q,
                {
                    if pixels[q] as usize >= palette.len() {
                        assert(!crate::sprite_pack::image_def::indices_found(palette@, pixels@));
                        assert(!self.showable(i as int));
                        return Err(Error::ColorNotFound { pixel: q });
                    }
                    q += 1;
                }
                j += 1;
            }
            i += 1;
        }
        let width = self.width as u64;
        let height = self.height as u64;
        let sheet_width = wide as u64;
        let sheet_height = high as u64;
        assert(sheet_width * sheet_height <= 0xffff_ffff * 0xffff_ffff) by (nonlinear_arith)
            requires
                sheet_width <= 0xffff_ffff,
                sheet_height <= 0xffff_ffff,
        ;
        let total: u64 = sheet_width * sheet_height;
        let ghost colors = Seq::new(total as nat, |p: int| self.sheet_color(p));
        let mut data: Vec<u8> = Vec::new();
        let mut p: u64 = 0;
        while p < total
            invariant
                p <= total,
                total == sheet_width * sheet_height,
                sheet_width == self.sheet_width(),
                sheet_height == self.sheet_height(),
                width == self.width,
                height == self.height,
                pals == self.palettes@.len(),
                subs == self.subimages@.len(),
                self.sheet_makable(),
                colors == Seq::new(total as nat, |p: int| self.sheet_color(p)),
                data@ == colors_rgba(colors.subrange(0, p as int)),
            decreases total - p,
        {
            assert(sheet_width > 0 && sheet_height > 0) by (nonlinear_arith)
                requires
                    p < sheet_width * sheet_height,
                    sheet_width >= 0,
                    sheet_height >= 0,
            ;
            let x = p % sheet_width;
            let y = p / sheet_width;
            assert(width > 0 && height > 0) by (nonlinear_arith)
                requires
                    sheet_width == width * subs,
                    sheet_height == height * pals,
                    sheet_width > 0,
                    sheet_height > 0,
            ;
            let j = (x / width) as usize;
            let i = (y / height) as usize;
            let along = x % width;
            let down = y % height;
            proof {
                assert(y < sheet_height) by (nonlinear_arith)
                    requires
                        p < sheet_width * sheet_height,
                        y == p / sheet_width,
                        sheet_width > 0,
                ;
                assert(x / width < subs) by (nonlinear_arith)
                    requires
                        x < width * subs,
                        width > 0,
                ;
                assert(y / height < pals) by (nonlinear_arith)
                    requires
                        y < height * pals,
                        height > 0,
                ;
                assert(down * width + along < width * height) by (nonlinear_arith)
                    requires
                        0 <= down < height,
                        0 <= along < width,
                ;
                assert(self.showable(i as int));
            }
            assert(width * height <= 0xffff_ffff * 0xffff_ffff) by (nonlinear_arith)
                requires
                    width <= 0xffff_ffff,
                    height <= 0xffff_ffff,
            ;
            let sub = &self.subimages[j];
            assert(sub == self.subimages@[j as int]);
            assert(sub.pixel_data.len() >= width * height);
            let inside = (down * width + along) as usize;
            let index = sub.pixel_data[inside] as usize;
            assert(crate::sprite_pack::image_def::indices_found(
                self.palettes@[i as int]@,
                sub.pixel_data@,
            ));
            assert((sub.pixel_data@[inside as int] as int) < self.palettes@[i as int]@.len());
            let color = self.palettes[i][index];
            proof {
                let wide = self.sheet_width();
                assert(p as int % wide == x);
                assert(p as int / wide == y);
                assert(x as int / (self.width as int) == j);
                assert(y as int / (self.height as int) == i);
                assert((y as int % (self.height as int)) * self.width + x as int % (
                self.width as int) == inside);
                assert(color == self.sheet_color(p as int));
            }
            let ghost before = data@;
            data.push(color.0);
            data.push(color.1);
            data.push(color.2);
            data.push(color.3);
            proof {
                let some = colors.subrange(0, p as int);
                let more = colors.subrange(0, p + 1);
                assert forall|b: int| 0 <= b < 4 * (p + 1) implies data@[b] == colors_rgba(more)[b] by {
                    if b < 4 * p {
                        assert(data@[b] == before[b]);
                        assert(some[b / 4] == more[b / 4]);
                    }
                }
                assert(data@ =~= colors_rgba(more));
            }
            p += 1;
        }
        assert(colors.subrange(0, total as int) =~= colors);
        Ok(Raster { width: wide as u32, height: high as u32, data })
    }
}

/// Whether `pixels` are the pixels of the subimage `j` as the sheet has
/// them: `area` indices, each the first entry of the palette that stands for
/// the colour at the pixel's place in the sheet.
pub open spec fn pixels_of_subimage(
    pixels: Seq<u32>,
    palette: Seq<Color>,
    sheet: Raster,
    lock: bool,
    width: int,
    sheet_width: int,
    area: int,
    j: int,
) -> bool {
    &&& pixels.len() == area
    &&& forall|q: int|
        0 <= q < area ==> is_first_match(
            palette,
            sheet.color(sheet_place(width, sheet_width, j, q)),
            lock,
            #[trigger] pixels[q] as int,
        )
}

/// The colours of the first `count` pixels of a sheet.
pub open spec fn sheet_colors(sheet: Raster, count: int) -> Seq<Color> {
    Seq::new(count as nat, |p: int| sheet.color(p))
}

/// Whether `palettes` are those that a sheet gives: the first holds each
/// colour of the first part of the sheet once, in the order in which they
/// come; each other holds the colours that stand at the same places of its
/// own part.
pub open spec fn palettes_of_sheet(
    palettes: Seq<Vec<Color>>,
    sheet: Raster,
    band: int,
    count: int,
) -> bool {
    let places = first_places(sheet_colors(sheet, band));
    &&& palettes.len() == count
    &&& forall|i: int|
        0 <= i < count ==> (#[trigger] palettes[i])@.len() == places.len()
    &&& forall|i: int, c: int|
        0 <= i < count && 0 <= c < places.len() ==> #[trigger] palettes[i]@[c] == sheet.color(
            i * band + places[c],
        )
}

/// The colours that first stand in the first `count` pixels of the sheet, in
/// order, and the places at which they stand.
fn first_colors(sheet: &Raster, count: usize) -> (found: (Vec<Color>, Vec<usize>))
    requires
        4 * count <= sheet.data.len(),
    ensures
        found.0@.len() == found.1@.len(),
        found.1@.len() == first_places(sheet_colors(*sheet, count as int)).len(),
        forall|c: int|
            0 <= c < found.1@.len() ==> #[trigger] found.1@[c] == first_places(
                sheet_colors(*sheet, count as int),
            )[c],
        forall|c: int|
            0 <= c < found.1@.len() ==> (#[trigger] found.1@[c]) < count && found.0@[c]
                == sheet.color(found.1@[c] as int),
        forall|k: int| 0 <= k < count ==> has_color(found.0@, #[trigger] sheet.color(k)),
{
    let ghost all = sheet_colors(*sheet, count as int);
    let mut colors: Vec<Color> = Vec::new();
    let mut places: Vec<usize> = Vec::new();
    let mut p: usize = 0;
    assert(all.subrange(0, 0) =~= Seq::<Color>::empty());
    while p < count
        invariant
            p <= count,
            4 * count <= sheet.data.len(),
            all == sheet_colors(*sheet, count as int),
            colors@.len() == places@.len(),
            places@.len() == first_places(all.subrange(0, p as int)).len(),
            forall|c: int|
                0 <= c < places@.len() ==> #[trigger] places@[c] == first_places(
                    all.subrange(0, p as int),
                )[c],
            forall|c: int|
                0 <= c < places@.len() ==> (#[trigger] places@[c]) < p && colors@[c] == all[places@[c] as int],
            forall|k: int| 0 <= k < p ==> has_color(colors@, #[trigger] all[k]),
        decreases count - p,
    {
        let color = sheet.color_at(p);
        let ghost some = all.subrange(0, p as int);
        let ghost more = all.subrange(0, p + 1);
        let ghost held = colors@;
        proof {
            assert(more.drop_last() =~= some);
            assert(color == all[p as int]);
        }
        match find_color(&colors, color, false) {
            Some(c) => {
                proof {
                    let k = places@[c as int] as int;
                    assert(same_color(more[k], more[p as int]));
                    assert(seen_before(more, p as int));
                }
            },
            None => {
                proof {
                    if seen_before(more, p as int) {
                        let k = choose|k: int|
                            0 <= k < p && same_color(#[trigger] more[k], more[p as int]);
                        assert(has_color(held, all[k]));
                        let c = choose|c: int|
                            0 <= c < held.len() && same_color(#[trigger] held[c], all[k]);
                        assert(color_matches(held[c], color, false));
                        assert(false);
                    }
                }
                colors.push(color);
                places.push(p);
            },
        }
        proof {
            assert forall|k: int| 0 <= k < p + 1 implies has_color(colors@, #[trigger] all[k]) by {
                if k < p {
                    assert(has_color(held, all[k]));
                    let c = choose|c: int|
                        0 <= c < held.len() && same_color(#[trigger] held[c], all[k]);
                    assert(colors@[c] == held[c]);
                    assert(same_color(colors@[c], all[k]));
                } else {
                    if colors@.len() > held.len() {
                        let c = held.len() as int;
                        assert(same_color(colors@[c], all[k]));
                    } else {
                        let c = choose|c: int|
                            0 <= c < held.len() && color_matches(held[c], color, false);
                        assert(same_color(colors@[c], all[k]));
                    }
                }
            }
        }
        p += 1;
    }
    proof {
        assert(all.subrange(0, count as int) =~= all);
        assert forall|k: int| 0 <= k < count implies has_color(
            colors@,
            #[trigger] sheet.color(k),
        ) by {
            assert(has_color(colors@, all[k]));
        }
    }
    (colors, places)
}

impl ImageSet {
    /// The place in the sheet of the image of pixel `q` of the subimage `j`.
    pub open spec fn pixel_place(&self, j: int, q: int) -> int {
        sheet_place(self.width as int, self.sheet_width(), j, q)
    }

    /// Whether the image keeps all but its palettes and its pixels.
    pub open spec fn same_frame(&self, other: ImageSet) -> bool {
        &&& self.original_index == other.original_index
        &&& self.width == other.width
        &&& self.height == other.height
        &&& self.width_in_sprites == other.width_in_sprites
        &&& self.height_in_sprites == other.height_in_sprites
        &&& self.is_quadrupled == other.is_quadrupled
        &&& self.first_palette_index == other.first_palette_index
        &&& self.subimages@.len() == other.subimages@.len()
        &&& forall|j: int|
            0 <= j < self.subimages@.len() ==> (#[trigger] self.subimages@[j]).offset_x
                == other.subimages@[j].offset_x && self.subimages@[j].offset_y
                == other.subimages@[j].offset_y
    }

    /// Whether the pixels of the image are those of the sheet: each is the
    /// first entry of the first palette that stands for the colour at its
    /// place in the sheet.
    pub open spec fn pixels_of_sheet(&self, sheet: Raster, lock: bool) -> bool {
        forall|j: int|
            0 <= j < self.subimages@.len() ==> pixels_of_subimage(
                (#[trigger] self.subimages@[j]).pixel_data@,
                self.palettes@[0]@,
                sheet,
                lock,
                self.width as int,
                self.sheet_width(),
                self.area(),
                j,
            )
    }

    /// The pixels of the subimage `j` as the sheet has them, by the palette
    /// given; or the place in the sheet of the first pixel whose colour the
    /// palette lacks.
    fn sheet_pixels(&self, sheet: &Raster, palette: &Vec<Color>, lock: bool, j: usize) -> (result:
        Result<Vec<u32>, usize>)
        requires
            self.sheet_fits(*sheet),
            self.palettes@.len() > 0,
            j < self.subimages@.len(),
            palette@.len() <= u32::MAX,
        ensures
            match result {
                Ok(pixels) => pixels_of_subimage(
                    pixels@,
                    palette@,
                    *sheet,
                    lock,
                    self.width as int,
                    self.sheet_width(),
                    self.area(),
                    j as int,
                ),
                Err(place) => place < self.band_size() && forall|c: int|
                    0 <= c < palette@.len() ==> !color_matches(
                        #[trigger] palette@[c],
                        sheet.color(place as int),
                        lock,
                    ),
            },
    {
        let width = self.width as u64;
        let height = self.height as u64;
        let subs = self.subimages.len();
        proof {
            self.lemma_sheet_bounds(*sheet);
        }
        let sheet_width = sheet.width as u64;
        assert(width * height <= 0xffff_ffff * 0xffff_ffff) by (nonlinear_arith)
            requires
                width <= 0xffff_ffff,
                height <= 0xffff_ffff,
        ;
        let area = width * height;
        let mut pixels: Vec<u32> = Vec::new();
        let mut q: u64 = 0;
        while q < area
            invariant
                q <= area,
                area == self.area(),
                width == self.width,
                height == self.height,
                sheet_width == self.sheet_width(),
                subs == self.subimages@.len(),
                j < subs,
                self.sheet_fits(*sheet),
                self.band_size() <= self.sheet_width() * self.sheet_height(),
                4 * (self.sheet_width() * self.sheet_height()) == sheet.data.len(),
                palette@.len() <= u32::MAX,
                pixels@.len() == q,
                forall|k: int|
                    0 <= k < q ==> is_first_match(
                        palette@,
                        sheet.color(self.pixel_place(j as int, k)),
                        lock,
                        #[trigger] pixels@[k] as int,
                    ),
            decreases area - q,
        {
            assert(width > 0) by (nonlinear_arith)
                requires
                    q < width * height,
                    width >= 0,
                    height >= 0,
            ;
            let down = q / width;
            let along = q % width;
            proof {
                assert(down < height) by (nonlinear_arith)
                    requires
                        q < width * height,
                        down == q / width,
                        width > 0,
                ;
                assert(j * width + along < sheet_width) by (nonlinear_arith)
                    requires
                        sheet_width == width * subs,
                        j < subs,
                        0 <= along < width,
                ;
                assert(down * sheet_width + (j * width + along) < sheet_width * height)
                    by (nonlinear_arith)
                    requires
                        0 <= down < height,
                        0 <= j * width + along < sheet_width,
                ;
                assert(j * width <= 0xffff_ffff && down * sheet_width <= 0xffff_ffff * 0xffff_ffff)
                    by (nonlinear_arith)
                    requires
                        j * width + along < sheet_width,
                        along >= 0,
                        sheet_width <= 0xffff_ffff,
                        0 <= down < height,
                        height <= 0xffff_ffff,
                ;
            }
            let place = (down * sheet_width + (j as u64) * width + along) as usize;
            assert(place == self.pixel_place(j as int, q as int));
            let color = sheet.color_at(place);
            match find_color(palette, color, lock) {
                Some(c) => {
                    pixels.push(c as u32);
                },
                None => {
                    return Err(place);
                },
            }
            q += 1;
        }
        Ok(pixels)
    }

    /// One part of the sheet of the image lies inside the sheet, and the
    /// sheet holds four bytes for each of its pixels.
    pub proof fn lemma_sheet_bounds(&self, sheet: Raster)
        requires
            self.sheet_fits(sheet),
            self.palettes@.len() > 0,
        ensures
            self.band_size() <= self.sheet_width() * self.sheet_height(),
            0 <= self.band_size(),
            4 * (self.sheet_width() * self.sheet_height()) == sheet.data@.len(),
    {
        let w = self.sheet_width();
        let h = self.height as int;
        let n = self.palettes@.len() as int;
        assert(w * h <= w * (h * n) && 0 <= w * h) by (nonlinear_arith)
            requires
                w >= 0,
                h >= 0,
                n >= 1,
        ;
    }

    /// Takes the pixels of the image, and unless `lock_colors` holds its
    /// palettes too, from a sheet of the image. With locked colours each
    /// pixel must have a colour of the first palette, where every fully
    /// transparent colour stands for every other. Where this fails the image
    /// stays as it is.
    pub fn replace_spritesheet(&mut self, sheet: &Raster, lock_colors: bool) -> (result: Result<
        (),
        Error,
    >)
        ensures
            match result {
                Ok(()) => {
                    &&& old(self).palettes@.len() > 0
                    &&& old(self).sheet_fits(*sheet)
                    &&& final(self).same_frame(*old(self))
                    &&& if lock_colors {
                        final(self).palettes == old(self).palettes
                    } else {
                        palettes_of_sheet(
                            final(self).palettes@,
                            *sheet,
                            old(self).band_size(),
                            old(self).palettes@.len() as int,
                        )
                    }
                    &&& final(self).pixels_of_sheet(*sheet, lock_colors)
                },
                Err(Error::InvalidImage { image }) => {
                    &&& image == old(self).original_index
                    &&& old(self).palettes@.len() == 0
                    &&& *final(self) == *old(self)
                },
                Err(Error::DimensionMismatch { expected_width, expected_height, width, height }) => {
                    &&& old(self).palettes@.len() > 0
                    &&& !old(self).sheet_fits(*sheet)
                    &&& width == sheet.width
                    &&& height == sheet.height
                    &&& *final(self) == *old(self)
                },
                Err(Error::ColorNotFound { pixel }) => {
                    &&& lock_colors
                    &&& old(self).palettes@.len() > 0
                    &&& old(self).sheet_fits(*sheet)
                    &&& pixel < old(self).band_size()
                    &&& forall|c: int|
                        0 <= c < old(self).palettes@[0]@.len() ==> !color_matches(
                            #[trigger] old(self).palettes@[0]@[c],
                            sheet.color(pixel as int),
                            true,
                        )
                    &&& *final(self) == *old(self)
                },
                Err(Error::TooManyColors { image, count }) => {
                    &&& image == old(self).original_index
                    &&& old(self).palettes@.len() > 0
                    &&& old(self).sheet_fits(*sheet)
                    &&& count > 0xffff_ffff
                    &&& count == if lock_colors {
                        old(self).palettes@[0]@.len()
                    } else {
                        first_places(
                            sheet_colors(*sheet, old(self).band_size()),
                        ).len()
                    }
                    &&& *final(self) == *old(self)
                },
                Err(_) => false,
            },
    {
        let subs = self.subimages.len();
        let pals = self.palettes.len();
        if pals == 0 {
            return Err(Error::InvalidImage { image: self.original_index });
        }
        assert(self.width * subs <= 0xffff_ffff * 0xffff_ffff_ffff_ffff && self.height * pals
            <= 0xffff_ffff * 0xffff_ffff_ffff_ffff) by (nonlinear_arith)
            requires
                self.width <= 0xffff_ffff,
                self.height <= 0xffff_ffff,
                subs <= 0xffff_ffff_ffff_ffff,
                pals <= 0xffff_ffff_ffff_ffff,
        ;
        let wide: u128 = (self.width as u128) * (subs as u128);
        let high: u128 = (self.height as u128) * (pals as u128);
        let mismatch = Err(
            Error::DimensionMismatch {
                expected_width: if wide > usize::MAX as u128 {
                    usize::MAX
                } else {
                    wide as usize
                },
                expected_height: if high > usize::MAX as u128 {
                    usize::MAX
                } else {
                    high as usize
                },
                width: sheet.width as usize,
                height: sheet.height as usize,
            },
        );
        if wide != sheet.width as u128 || high != sheet.height as u128 {
            return mismatch;
        }
        assert(wide * high <= 0xffff_ffff * 0xffff_ffff) by (nonlinear_arith)
            requires
                wide <= 0xffff_ffff,
                high <= 0xffff_ffff,
        ;
        if sheet.data.len() as u128 != 4 * (wide * high) {
            return mismatch;
        }
        proof {
            self.lemma_sheet_bounds(*sheet);
        }
        assert(wide * self.height <= wide * high) by (nonlinear_arith)
            requires
                high == self.height * pals,
                pals >= 1,
                wide >= 0,
                self.height >= 0,
        ;
        let band = (wide * (self.height as u128)) as usize;
        let mut new_palettes: Vec<Vec<Color>> = Vec::new();
        if !lock_colors {
            let (main, places) = first_colors(sheet, band);
            if main.len() > 0xffff_ffff {
                return Err(
                    Error::TooManyColors { image: self.original_index, count: main.len() },
                );
            }
            let count = places.len();
            let ghost firsts = first_places(sheet_colors(*sheet, band as int));
            let ghost first = main@;
            proof {
                assert forall|c: int| 0 <= c < count implies #[trigger] first[c] == sheet.color(
                    0 * band + firsts[c],
                ) by {
                    assert(places@[c] == firsts[c]);
                }
            }
            new_palettes.push(main);
            let mut i: usize = 1;
            while i < pals
                invariant
                    1 <= i <= pals,
                    new_palettes@[0]@ == first,
                    first.len() <= u32::MAX,
                    forall|k: int| 0 <= k < band ==> has_color(first, #[trigger] sheet.color(k)),
                    pals == self.palettes@.len(),
                    self.sheet_fits(*sheet),
                    band == self.band_size(),
                    4 * (self.sheet_width() * self.sheet_height()) == sheet.data.len(),
                    firsts == first_places(sheet_colors(*sheet, band as int)),
                    count == places@.len(),
                    count == firsts.len(),
                    forall|c: int|
                        0 <= c < count ==> (#[trigger] places@[c]) < band && places@[c]
                            == firsts[c],
                    new_palettes@.len() == i,
                    forall|k: int|
                        0 <= k < i ==> (#[trigger] new_palettes@[k])@.len() == count,
                    forall|k: int, c: int|
                        0 <= k < i && 0 <= c < count ==> #[trigger] new_palettes@[k]@[c]
                            == sheet.color(k * band + firsts[c]),
                decreases pals - i,
            {
                proof {
                    let w = self.sheet_width();
                    let h = self.height as int;
                    assert((i + 1) * band <= w * (h * pals) && i * band >= 0) by (nonlinear_arith)
                        requires
                            band == w * h,
                            i + 1 <= pals,
                            i >= 0,
                            w >= 0,
                            h >= 0,
                    ;
                    assert((i + 1) * band == i * band + band) by (nonlinear_arith);
                }
                let base = i * band;
                let mut palette: Vec<Color> = Vec::new();
                let mut c: usize = 0;
                while c < count
                    invariant
                        c <= count,
                        count == places@.len(),
                        base == i * band,
                        4 * (base + band) <= sheet.data.len(),
                        forall|d: int|
                            0 <= d < count ==> (#[trigger] places@[d]) < band && places@[d]
                                == firsts[d],
                        palette@.len() == c,
                        forall|d: int|
                            0 <= d < c ==> #[trigger] palette@[d] == sheet.color(
                                i * band + firsts[d],
                            ),
                    decreases count - c,
                {
                    palette.push(sheet.color_at(base + places[c]));
                    c += 1;
                }
                new_palettes.push(palette);
                i += 1;
            }
        }
        let mut new_subimages: Vec<SubImage> = Vec::new();
        let mut j: usize = 0;
        while j < subs
            invariant
                j <= subs,
                subs == self.subimages@.len(),
                pals == self.palettes@.len(),
                pals > 0,
                *self == *old(self),
                self.sheet_fits(*sheet),
                band == self.band_size(),
                !lock_colors ==> new_palettes@.len() == pals && new_palettes@[0]@.len()
                    <= u32::MAX && forall|k: int|
                    0 <= k < band ==> has_color(new_palettes@[0]@, #[trigger] sheet.color(k)),
                new_subimages@.len() == j,
                forall|k: int|
                    0 <= k < j ==> (#[trigger] new_subimages@[k]).offset_x
                        == self.subimages@[k].offset_x && new_subimages@[k].offset_y
                        == self.subimages@[k].offset_y,
                forall|k: int|
                    0 <= k < j ==> pixels_of_subimage(
                        (#[trigger] new_subimages@[k]).pixel_data@,
                        if lock_colors {
                            self.palettes@[0]@
                        } else {
                            new_palettes@[0]@
                        },
                        *sheet,
                        lock_colors,
                        self.width as int,
                        self.sheet_width(),
                        self.area(),
                        k,
                    ),
            decreases subs - j,
        {
            let palette = if lock_colors {
                &self.palettes[0]
            } else {
                &new_palettes[0]
            };
            if palette.len() > 0xffff_ffff {
                return Err(
                    Error::TooManyColors { image: self.original_index, count: palette.len() },
                );
            }
            let pixel_data = match self.sheet_pixels(sheet, palette, lock_colors, j) {
                Ok(pixels) => pixels,
                Err(place) => {
                    proof {
                        if !lock_colors {
                            assert(has_color(new_palettes@[0]@, sheet.color(place as int)));
                            let c = choose|c: int|
                                0 <= c < new_palettes@[0]@.len() && same_color(
                                    #[trigger] new_palettes@[0]@[c],
                                    sheet.color(place as int),
                                );
                            assert(color_matches(
                                palette@[c],
                                sheet.color(place as int),
                                lock_colors,
                            ));
                            assert(false);
                        }
                    }
                    return Err(Error::ColorNotFound { pixel: place });
                },
            };
            new_subimages.push(
                SubImage {
                    offset_x: self.subimages[j].offset_x,
                    offset_y: self.subimages[j].offset_y,
                    pixel_data,
                },
            );
            j += 1;
        }
        if !lock_colors {
            self.palettes = new_palettes;
        }
        self.subimages = new_subimages;
        Ok(())
    }
}

} // verus!
