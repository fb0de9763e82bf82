//! The sprite pack: images cut into sprites, their palettes, and the pool of
//! their bit-packed pixels.

use vstd::prelude::*;
use crate::data_view::{DataView, bytes_of_words, le_u32, push_all, push_fill, push_u32, u32_bytes};
use crate::data_pack::zeros;
use crate::error::Error;
use crate::sprite_pack::image_def::{
    colors_rgba, indexed_colors, ImageSet, get_image_sets, image_found, image_is, image_palette_found, image_sprites_found,
    image_first_palette, image_tiles_ok, image_writable, images_oversize, images_saved,
    palette_colors, palette_place, save_image_sets, IMAGE_SIZE,
};
use crate::sprite_pack::palette::{Color, color_words, colors_of, get_palettes, save_palettes};
use crate::sprite_pack::raster::Raster;
use crate::sprite_pack::round_trip::lemma_tiles_numbered;
use crate::sprite_pack::sprite::{
    Sprite, SpriteDef, chunk_index, def_matches, def_valid, defs_words, lemma_saved_in_order,
    pixels_saved, pool_fits, sprite_writable, get_sprites, pool_holds, save_pixel_data,
    save_sprites, sprite_in_pool, sprite_is, SPRITE_SIZE,
};

pub mod image_def;
pub mod palette;
pub mod pixels;
pub mod raster;
pub mod round_trip;
pub mod sprite;
pub mod spritesheet;

verus! {

/// The images of a sprite pack.
#[derive(Clone)]
pub struct SpritePack {
    pub image_sets: Vec<ImageSet>,
}

/// The length in bytes of the header of a sprite pack.
pub const HEADER_SIZE: usize = 16;

/// The places that are multiples of this are where pixel data may start.
pub const PIXEL_ALIGNMENT: usize = 32;

/// The byte at which section `k` of a sprite pack starts: the images, the
/// sprites, the palettes, the pixel data; for `k` four, the end of the pack.
pub open spec fn section_start(s: Seq<u8>, k: int) -> int {
    if k < 4 {
        le_u32(s, 4 * k) as int
    } else {
        s.len() as int
    }
}

/// Whether section `k` ends before it starts or after the end of the pack.
pub open spec fn section_is_bad(s: Seq<u8>, k: int) -> bool {
    section_start(s, k + 1) < section_start(s, k) || section_start(s, k + 1) > s.len()
}

/// Whether the header is there and no section is bad.
pub open spec fn sections_ok(s: Seq<u8>) -> bool {
    s.len() >= HEADER_SIZE && forall|k: int| 0 <= k < 4 ==> !section_is_bad(s, k)
}

/// The bytes of section `k`.
pub open spec fn section(s: Seq<u8>, k: int) -> Seq<u8> {
    s.subrange(section_start(s, k), section_start(s, k + 1))
}

/// Whether `sprites` are those that a table of records and a pool hold.
pub open spec fn sprites_are(sprites: Seq<Sprite>, defs: Seq<u8>, pool: Seq<u8>) -> bool {
    &&& sprites.len() == defs.len() / SPRITE_SIZE as nat
    &&& forall|i: int| 0 <= i < sprites.len() ==> sprite_in_pool(defs, pool, i)
    &&& forall|i: int| 0 <= i < sprites.len() ==> sprite_is(#[trigger] sprites[i], defs, pool, i)
}

/// Whether `sets` are the images that a table of records holds, made of the
/// sprites and the colours given.
pub open spec fn images_are(
    sets: Seq<ImageSet>,
    data: Seq<u8>,
    sprites: Seq<Sprite>,
    colors: Seq<Color>,
) -> bool {
    &&& sets.len() == data.len() / IMAGE_SIZE as nat
    &&& forall|i: int| 0 <= i < sets.len() ==> image_found(data, sprites, colors.len() as int, i)
    &&& forall|i: int| 0 <= i < sets.len() ==> image_tiles_ok(data, sprites, i)
    &&& forall|i: int| 0 <= i < sets.len() ==> image_is(#[trigger] sets[i], data, sprites, colors, i)
}

/// Whether `pack` is what the sprite pack `s` holds.
pub open spec fn sprite_pack_is(pack: SpritePack, s: Seq<u8>) -> bool {
    exists|sprites: Seq<Sprite>| #[trigger]
        sprites_are(sprites, section(s, 1), section(s, 3)) && images_are(
            pack.image_sets@,
            section(s, 0),
            sprites,
            colors_of(section(s, 2)),
        )
}

/// Whether image `image` of the sprite pack `s` fails as `error` says.
pub open spec fn image_fails(s: Seq<u8>, image: int, error: Error) -> bool {
    exists|sprites: Seq<Sprite>| #[trigger]
        sprites_are(sprites, section(s, 1), section(s, 3)) && image_fails_with(
            section(s, 0),
            sprites,
            colors_of(section(s, 2)).len() as int,
            image,
            error,
        )
}

/// Whether image `image` of the table `data` fails as `error` says, and no
/// image before it fails so.
pub open spec fn image_fails_with(
    data: Seq<u8>,
    sprites: Seq<Sprite>,
    colors: int,
    image: int,
    error: Error,
) -> bool {
    &&& 0 <= image < data.len() / IMAGE_SIZE as nat
    &&& match error {
        Error::SpriteNotFound { .. } => !image_sprites_found(data, sprites.len() as int, image)
            && forall|i: int| 0 <= i < image ==> image_found(data, sprites, colors, i),
        Error::PaletteNotFound { .. } => image_sprites_found(data, sprites.len() as int, image)
            && !image_palette_found(data, sprites, colors, image) && forall|i: int|
            0 <= i < image ==> image_found(data, sprites, colors, i),
        Error::InvalidImage { .. } => !image_tiles_ok(data, sprites, image) && (forall|i: int|
            0 <= i < data.len() / IMAGE_SIZE as nat ==> image_found(data, sprites, colors, i))
            && forall|i: int| 0 <= i < image ==> image_tiles_ok(data, sprites, i),
        _ => false,
    }
}

/// Whether the sprite pack `s` can be read.
pub open spec fn sprite_pack_readable(s: Seq<u8>) -> bool {
    sections_ok(s) && exists|pack: SpritePack| sprite_pack_is(pack, s)
}

/// Whether reading the sprite pack `s` fails as `error` says: the header is
/// cut off; or `section` is the first section whose place is bad; or the
/// places are good and `sprite` is the first whose pixels are not in the
/// pool; or the sprites are there and `image` fails.
pub open spec fn sprite_pack_fails(s: Seq<u8>, error: Error) -> bool {
    match error {
        Error::SpritePackTooShort => s.len() < HEADER_SIZE,
        Error::InvalidSectionOffset { section } => {
            &&& s.len() >= HEADER_SIZE
            &&& section < 4
            &&& section_is_bad(s, section as int)
            &&& forall|k: int| 0 <= k < section ==> !section_is_bad(s, k)
        },
        Error::PixelDataNotFound { sprite } => {
            &&& sections_ok(s)
            &&& sprite < section(s, 1).len() / SPRITE_SIZE as nat
            &&& !sprite_in_pool(section(s, 1), section(s, 3), sprite as int)
            &&& forall|i: int| 0 <= i < sprite ==> sprite_in_pool(section(s, 1), section(s, 3), i)
        },
        Error::SpriteNotFound { image } => sections_ok(s) && image_fails(s, image as int, error),
        Error::PaletteNotFound { image } => sections_ok(s) && image_fails(s, image as int, error),
        Error::InvalidImage { image } => sections_ok(s) && image_fails(s, image as int, error),
        _ => false,
    }
}

/// The bytes of a sprite pack: the header with the byte at which each section
/// starts, the images, the sprites, the palettes with zero bytes behind them
/// up to a multiple of 32, and the pixel data.
pub open spec fn sprite_pack_bytes(
    images: Seq<u8>,
    sprites: Seq<u8>,
    palettes: Seq<u8>,
    pool: Seq<u8>,
) -> Seq<u8> {
    let at_sprites = HEADER_SIZE + images.len();
    let at_palettes = at_sprites + sprites.len();
    let gap = padding_to(at_palettes + palettes.len(), PIXEL_ALIGNMENT as int);
    let at_pool = at_palettes + palettes.len() + gap;
    u32_bytes(HEADER_SIZE as u32) + u32_bytes(at_sprites as u32) + u32_bytes(at_palettes as u32)
        + u32_bytes(at_pool as u32) + images + sprites + palettes + zeros(gap as nat) + pool
}

/// The number of bytes from `at` up to the next multiple of `unit`.
pub open spec fn padding_to(at: int, unit: int) -> int {
    (unit - at % unit) % unit
}

/// Whether the places of the sections of a sprite pack fit 32 bits.
pub open spec fn sprite_pack_fits(images: Seq<u8>, sprites: Seq<u8>, palettes: Seq<u8>) -> bool {
    let end = HEADER_SIZE + images.len() + sprites.len() + palettes.len();
    end + padding_to(end, PIXEL_ALIGNMENT as int) <= u32::MAX
}

/// Whether `bytes` are the sprite pack of the images `sets`, made of the
/// table of the images, the sprites, the colours, the pool and the records
/// given: the images are written with their sprites and colours, of which
/// the colours are the palettes of the images; the pool is the pool of the
/// sprites, and the records are theirs, with sizes and depths that a record
/// can hold; and the places of the sections fit 32 bits.
pub open spec fn sprite_pack_made(
    bytes: Seq<u8>,
    sets: Seq<ImageSet>,
    images: Seq<u8>,
    sprites: Seq<Sprite>,
    colors: Seq<Color>,
    pool: Seq<u8>,
    defs: Seq<SpriteDef>,
) -> bool {
    &&& images_saved(images, sprites, colors, sets)
    &&& colors == palette_colors(sets)
    &&& forall|i: int|
        0 <= i < sets.len() ==> #[trigger] image_first_palette(images, i) == palette_place(sets, i)
    &&& pixels_saved(pool, defs, sprites)
    &&& pool_holds(pool, defs, sprites)
    &&& forall|i: int| 0 <= i < defs.len() ==> def_valid(defs[i])
    &&& sprite_pack_fits(
        images,
        bytes_of_words(defs_words(defs)),
        bytes_of_words(color_words(colors)),
    )
    &&& bytes == sprite_pack_bytes(
        images,
        bytes_of_words(defs_words(defs)),
        bytes_of_words(color_words(colors)),
        pool,
    )
}

/// Whether `bytes` are a sprite pack written for the images `sets`.
pub open spec fn sprite_pack_saved(bytes: Seq<u8>, sets: Seq<ImageSet>) -> bool {
    exists|images: Seq<u8>, sprites: Seq<Sprite>, colors: Seq<Color>, pool: Seq<u8>, defs: Seq<SpriteDef>| #[trigger]
        sprite_pack_made(bytes, sets, images, sprites, colors, pool, defs)
}

/// Whether the sprites and colours written for the images `sets` are over a
/// limit as `error` says: the number of the chunk of a sprite does not fit
/// 16 bits; or all do, a record can be written for every sprite, and the
/// place of the pool does not fit 32 bits.
pub open spec fn sections_oversize(
    sets: Seq<ImageSet>,
    images: Seq<u8>,
    sprites: Seq<Sprite>,
    colors: Seq<Color>,
    error: Error,
) -> bool {
    let end = HEADER_SIZE + images.len() + SPRITE_SIZE * sprites.len() + 2 * colors.len();
    let pool_at = end + padding_to(end, PIXEL_ALIGNMENT as int);
    &&& images_saved(images, sprites, colors, sets)
    &&& forall|i: int| 0 <= i < sprites.len() ==> sprite_writable(sprites[i])
    &&& match error {
        Error::SizeExceeded { size, limit } => {
            ||| limit == 0xffff && size > limit && exists|i: int|
                0 <= i < sprites.len() && size == #[trigger] chunk_index(sprites, i)
            ||| {
                &&& limit == 0xffff_ffff
                &&& pool_fits(sprites)
                &&& forall|i: int| 0 <= i < sprites.len() ==> sprite_storable(sprites[i])
                &&& pool_at > limit
                &&& size == if pool_at > usize::MAX {
                    usize::MAX as int
                } else {
                    pool_at
                }
            }
        },
        _ => false,
    }
}

/// Whether a record can be written for `sprite`: its sides are 8, 16, 32 or
/// 64 pixels, it has 2, 4, 6 or 8 bits per pixel, and its offsets fit 16
/// bits.
pub open spec fn sprite_storable(sprite: Sprite) -> bool {
    &&& sprite_writable(sprite)
    &&& sprite.bpp == 2 || sprite.bpp == 4 || sprite.bpp == 6 || sprite.bpp == 8
    &&& sprite.width == 8 || sprite.width == 16 || sprite.width == 32 || sprite.width == 64
    &&& sprite.height == 8 || sprite.height == 16 || sprite.height == 32 || sprite.height == 64
}

/// Whether writing a sprite pack for the images `sets` fails as `error`
/// says: `image` is the first image that cannot be written, for the number
/// of its colours or else; or the images can be written and no record can be
/// written for `sprite`, one of their tiles; or a number does not fit its
/// field: the first sprite or the place of the colours of an image, the
/// chunk of a sprite, or the place of the pool.
pub open spec fn sprite_pack_unsaved(sets: Seq<ImageSet>, error: Error) -> bool {
    match error {
        Error::TooManyColors { image, count } => {
            &&& image < sets.len()
            &&& sets[image as int].palettes@.len() > 0
            &&& count == sets[image as int].palettes@[0]@.len()
            &&& count > 256
            &&& forall|i: int| 0 <= i < image ==> image_writable(sets, i)
        },
        Error::InvalidImage { image } => {
            &&& image < sets.len()
            &&& !image_writable(sets, image as int)
            &&& forall|i: int| 0 <= i < image ==> image_writable(sets, i)
        },
        Error::InvalidSprite { sprite } => exists|
            images: Seq<u8>,
            sprites: Seq<Sprite>,
            colors: Seq<Color>,
        | #[trigger]
            images_saved(images, sprites, colors, sets) && sprite < sprites.len()
                && !sprite_storable(sprites[sprite as int]),
        Error::SizeExceeded { size, limit } => images_oversize(sets, error) || exists|
            images: Seq<u8>,
            sprites: Seq<Sprite>,
            colors: Seq<Color>,
        | #[trigger] sections_oversize(sets, images, sprites, colors, error),
        _ => false,
    }
}

/// The picture of subimage `j` with palette `p` among the pictures of an
/// image with `subs` subimages.
pub open spec fn picture_at(pictures: Seq<Raster>, subs: int, p: int, j: int) -> Raster {
    pictures[p * subs + j]
}

/// Whether `picture` shows subimage `j` of `set` with the colours of its
/// palette `p`.
pub open spec fn picture_is(set: ImageSet, p: int, j: int, picture: Raster) -> bool {
    &&& picture.width == set.width
    &&& picture.height == set.height
    &&& picture.data@ == colors_rgba(indexed_colors(set.palettes@[p]@, set.subimages@[j].pixel_data@))
}

/// Whether `pictures` show the subimages of `set` with each of its first
/// `count` palettes in turn, and each of those palettes can be shown.
pub open spec fn pictures_of(set: ImageSet, pictures: Seq<Raster>, count: int) -> bool {
    &&& pictures.len() == count * set.subimages@.len()
    &&& forall|p: int| 0 <= p < count ==> set.showable(p)
    &&& forall|p: int, j: int|
        0 <= p < count && 0 <= j < set.subimages@.len() ==> picture_is(
            set,
            p,
            j,
            #[trigger] picture_at(pictures, set.subimages@.len() as int, p, j),
        )
}

impl SpritePack {
    /// The images of a sprite pack.
    pub fn from_data(data: &DataView) -> (result: Result<SpritePack, Error>)
        ensures
            match result {
                Ok(pack) => sprite_pack_readable(data@) && sprite_pack_is(pack, data@),
                Err(error) => sprite_pack_fails(data@, error),
            },
    {
        let len = data.len();
        if len < HEADER_SIZE {
            return Err(Error::SpritePackTooShort);
        }
        let mut starts: Vec<usize> = Vec::new();
        let mut k: usize = 0;
        while k < 4
            invariant
                k <= 4,
                len == data.data.len(),
                len >= HEADER_SIZE,
                starts@.len() == k,
                forall|j: int| 0 <= j < k ==> #[trigger] starts@[j] == section_start(data@, j),
                forall|j: int| 0 <= j < k ==> #[trigger] starts@[j] <= len,
                forall|j: int| 0 <= j < k - 1 ==> #[trigger] starts@[j] <= starts@[j + 1],
                forall|j: int| 0 <= j < k - 1 ==> !section_is_bad(data@, j),
            decreases 4 - k,
        {
            let start = data.get_u32(4 * k);
            if start as u64 > len as u64 {
                // the section in front ends behind the pack, or this is the
                // first and starts there
                if k == 0 {
                    return Err(Error::InvalidSectionOffset { section: 0 });
                }
                return Err(Error::InvalidSectionOffset { section: k - 1 });
            }
            if k > 0 && (start as usize) < starts[k - 1] {
                return Err(Error::InvalidSectionOffset { section: k - 1 });
            }
            starts.push(start as usize);
            k += 1;
        }
        let images_at = starts[0];
        let sprites_at = starts[1];
        let palettes_at = starts[2];
        let pool_at = starts[3];
        assert(sections_ok(data@));
        let table = data.chunk(palettes_at, pool_at - palettes_at);
        let colors = match get_palettes(table.data.as_slice()) {
            Ok(colors) => colors,
            Err(e) => {
                return Err(e);
            },
        };
        let defs = data.chunk(sprites_at, palettes_at - sprites_at);
        let pool = data.chunk(pool_at, len - pool_at);
        proof {
            assert(table@ == section(data@, 2));
            assert(defs@ == section(data@, 1));
            assert(pool@ == section(data@, 3));
        }
        let sprites = match get_sprites(&defs, &pool) {
            Ok(sprites) => sprites,
            Err(e) => {
                return Err(e);
            },
        };
        let images = data.chunk(images_at, sprites_at - images_at);
        assert(images@ == section(data@, 0));
        assert(sprites_are(sprites@, section(data@, 1), section(data@, 3)));
        match get_image_sets(&images, sprites.as_slice(), colors.as_slice()) {
            Ok(image_sets) => {
                let pack = SpritePack { image_sets };
                assert(sprite_pack_is(pack, data@));
                Ok(pack)
            },
            Err(e) => {
                proof {
                    match e {
                        Error::SpriteNotFound { image } => {
                            assert(image_fails_with(
                                section(data@, 0),
                                sprites@,
                                colors@.len() as int,
                                image as int,
                                e,
                            ));
                        },
                        Error::PaletteNotFound { image } => {
                            assert(image_fails_with(
                                section(data@, 0),
                                sprites@,
                                colors@.len() as int,
                                image as int,
                                e,
                            ));
                        },
                        Error::InvalidImage { image } => {
                            assert(image_fails_with(
                                section(data@, 0),
                                sprites@,
                                colors@.len() as int,
                                image as int,
                                e,
                            ));
                        },
                        _ => {},
                    }
                }
                Err(e)
            },
        }
    }

    /// The bytes of a sprite pack of the images.
    pub fn as_bytes(&self) -> (result: Result<Vec<u8>, Error>)
        ensures
            match result {
                Ok(data) => sprite_pack_saved(data@, self.image_sets@),
                Err(error) => sprite_pack_unsaved(self.image_sets@, error),
            },
    {
        let (image_def_data, sprites, colors) = match save_image_sets(self.image_sets.as_slice()) {
            Ok(found) => found,
            Err(e) => {
                return Err(e);
            },
        };
        let palette_data = match save_palettes(colors.as_slice()) {
            Ok(found) => found,
            Err(e) => {
                return Err(e);
            },
        };
        let (pixel_data, sprite_defs) = match save_pixel_data(sprites.as_slice()) {
            Ok(found) => found,
            Err(e) => {
                proof {
                    assert(images_saved(image_def_data@, sprites@, colors@, self.image_sets@));
                    if let Error::InvalidSprite { sprite } = e {
                        assert(!sprite_storable(sprites@[sprite as int]));
                    } else {
                        assert(sections_oversize(
                            self.image_sets@,
                            image_def_data@,
                            sprites@,
                            colors@,
                            e,
                        ));
                    }
                }
                return Err(e);
            },
        };
        proof {
            lemma_tiles_numbered(image_def_data@, sprites@, colors@, self.image_sets@);
            lemma_saved_in_order(pixel_data@, sprite_defs@, sprites@);
        }
        let sprite_data = match save_sprites(sprite_defs.as_slice()) {
            Ok(found) => found,
            Err(e) => {
                proof {
                    if let Error::InvalidSprite { sprite } = e {
                        assert(images_saved(image_def_data@, sprites@, colors@, self.image_sets@));
                        assert(def_matches(sprite_defs@[sprite as int], sprites@[sprite as int]));
                        assert(!sprite_storable(sprites@[sprite as int]));
                    }
                }
                return Err(e);
            },
        };
        proof {
            assert forall|i: int| 0 <= i < sprites@.len() implies sprite_storable(sprites@[i]) by {
                assert(def_matches(sprite_defs@[i], sprites@[i]));
                assert(def_valid(sprite_defs@[i]));
            }
            crate::sprite_pack::round_trip::lemma_defs_words_len(sprite_defs@);
        }
        let limit: u128 = 0xffff_ffff;
        let sprites_offset: u128 = HEADER_SIZE as u128 + image_def_data.len() as u128;
        let palettes_offset: u128 = sprites_offset + sprite_data.len() as u128;
        let end: u128 = palettes_offset + palette_data.len() as u128;
        let gap = ((PIXEL_ALIGNMENT as u128 - end % (PIXEL_ALIGNMENT as u128)) % (
        PIXEL_ALIGNMENT as u128)) as usize;
        let pixel_data_offset: u128 = end + gap as u128;
        if pixel_data_offset > limit {
            let size = if pixel_data_offset > usize::MAX as u128 {
                usize::MAX
            } else {
                pixel_data_offset as usize
            };
            proof {
                assert(sections_oversize(
                    self.image_sets@,
                    image_def_data@,
                    sprites@,
                    colors@,
                    Error::SizeExceeded { size, limit: 0xffff_ffff },
                ));
            }
            return Err(Error::SizeExceeded { size, limit: 0xffff_ffff });
        }
        let mut data: Vec<u8> = Vec::new();
        push_u32(&mut data, HEADER_SIZE as u32);
        push_u32(&mut data, sprites_offset as u32);
        push_u32(&mut data, palettes_offset as u32);
        push_u32(&mut data, pixel_data_offset as u32);
        push_all(&mut data, image_def_data.as_slice());
        push_all(&mut data, sprite_data.as_slice());
        push_all(&mut data, palette_data.as_slice());
        push_fill(&mut data, 0, gap);
        push_all(&mut data, pixel_data.as_slice());
        proof {
            assert(data@ == sprite_pack_bytes(
                image_def_data@,
                sprite_data@,
                palette_data@,
                pixel_data@,
            ));
            assert(sprite_pack_made(
                data@,
                self.image_sets@,
                image_def_data@,
                sprites@,
                colors@,
                pixel_data@,
                sprite_defs@,
            ));
        }
        Ok(data)
    }

    /// The images of the pack as pictures: for each image, its subimages with
    /// the first palette, then with the next, and so on.
    pub fn get_image_data(&self) -> (result: Result<Vec<Vec<Raster>>, Error>)
        ensures
            match result {
                Ok(images) => {
                    &&& images@.len() == self.image_sets@.len()
                    &&& forall|i: int|
                        0 <= i < images@.len() ==> pictures_of(
                            self.image_sets@[i],
                            (#[trigger] images@[i])@,
                            self.image_sets@[i].palettes@.len() as int,
                        )
                },
                Err(Error::ColorNotFound { .. }) | Err(Error::InvalidImage { .. }) => exists|
                    i: int,
                    p: int,
                |
                    0 <= i < self.image_sets@.len() && 0 <= p < self.image_sets@[i].palettes@.len()
                        && !#[trigger] self.image_sets@[i].showable(p),
                Err(_) => false,
            },
    {
        let mut images: Vec<Vec<Raster>> = Vec::new();
        let n = self.image_sets.len();
        let mut i: usize = 0;
        while i < n
            invariant
                i <= n,
                n == self.image_sets@.len(),
                images@.len() == i,
                forall|k: int|
                    0 <= k < i ==> pictures_of(
                        self.image_sets@[k],
                        (#[trigger] images@[k])@,
                        self.image_sets@[k].palettes@.len() as int,
                    ),
            decreases n - i,
        {
            let set = &self.image_sets[i];
            let mut shown: Vec<Raster> = Vec::new();
            let pals = set.palettes.len();
            let ghost subs = set.subimages@.len() as int;
            let mut p: usize = 0;
            while p < pals
                invariant
                    p <= pals,
                    pals == set.palettes@.len(),
                    subs == set.subimages@.len(),
                    0 <= i < self.image_sets@.len(),
                    *set == self.image_sets@[i as int],
                    pictures_of(*set, shown@, p as int),
                decreases pals - p,
            {
                let mut more = match set.to_images(p) {
                    Ok(more) => more,
                    Err(e) => {
                        assert(!self.image_sets@[i as int].showable(p as int));
                        return Err(e);
                    },
                };
                let ghost before = shown@;
                let ghost added = more@;
                shown.append(&mut more);
                proof {
                    assert(shown@ == before + added);
                    assert((p + 1) * subs == p * subs + subs) by (nonlinear_arith);
                    assert forall|q: int, j: int| 0 <= q < p + 1 && 0 <= j < subs implies picture_is(
                        *set,
                        q,
                        j,
                        #[trigger] picture_at(shown@, subs, q, j),
                    ) by {
                        if q < p {
                            assert(q * subs + subs <= p * subs) by (nonlinear_arith)
                                requires
                                    q + 1 <= p,
                                    0 <= subs,
                            ;
                            assert(0 <= q * subs) by (nonlinear_arith)
                                requires
                                    0 <= q,
                                    0 <= subs,
                            ;
                            assert(picture_is(*set, q, j, picture_at(before, subs, q, j)));
                        } else {
                            assert(shown@[p * subs + j] == added[j]);
                        }
                    }
                }
                p += 1;
            }
            images.push(shown);
            i += 1;
        }
        Ok(images)
    }
}

} // verus!
