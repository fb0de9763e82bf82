//! What is written for sprites is read back as those sprites.

use vstd::prelude::*;
use vstd::arithmetic::div_mod::{
    lemma_div_pos_is_pos, lemma_fundamental_div_mod, lemma_fundamental_div_mod_converse,
    lemma_mod_bound, lemma_multiply_divide_lt,
};
use crate::sprite_pack::image_def::{
    ImageSet, SubImage, goal_for, image_colors, image_columns, image_depth, image_first_sprite,
    image_found, image_is, image_palette_found, image_palette_size, image_rows,
    image_first_palette, image_sprites_found, image_tiles, image_tiles_ok, image_writable,
    padded_palettes, palette_place,
    subimage_ok, image_next_sprite, image_subimages,
    image_tile_height, image_tile_is, image_tile_width, images_saved, least_offset_x,
    least_offset_y, record_is, sprites_before, subimage_first_sprite, subimage_is, tile_source,
    tiled_pixel, IMAGE_SIZE, OFFSET_START,
};
use crate::data_pack::blocks::lemma_joined_part;
use crate::data_pack::entry_at;
use crate::data_pack::round_trip::{lemma_u32_of_bytes, lemma_word_of_bytes};
use crate::data_pack::zeros;
use crate::data_view::{
    word_of, bytes_of_u32s, bytes_of_words, le_u16, lemma_signed_round_trip, two_pow, u32_bytes,
    unsigned_of,
};
use crate::sprite_pack::pixels::{
    lemma_pack_round_trip, lemma_pixel_bits_len, pixels_fit,
};
use crate::sprite_pack::sprite::{
    Sprite, SpriteDef, chunk_index, def_matches, def_of, def_props, def_valid, defs_words,
    index_order, lemma_index_order, place_for, pool_above, pool_holds, pool_round, sprite_key,
    sprite_byte_count, sprite_bytes, sprite_depth, sprite_height, sprite_in_pool, sprite_is,
    sprite_pixels_start, sprite_props, sprite_quadrupled, sprite_width, stored_at, SPRITE_SIZE,
};
use crate::sprite_pack::palette::{Color, color_words, colors_of};
use crate::error::Error;
use crate::sprite_pack::{
    SpritePack, image_fails, image_fails_with, images_are, sprite_pack_fails, sprite_pack_is,
    sprite_pack_made, sprite_pack_saved, padding_to, section, section_is_bad, section_start, sections_ok, sprite_pack_bytes,
    sprite_pack_fits, sprite_storable, sprites_are, HEADER_SIZE, PIXEL_ALIGNMENT,
};

verus! {

/// Whether `sprite` is a whole sprite of number `i`: a record can be written
/// for it, it is not quadrupled, and it has a pixel for each place, each of
/// which fits its depth.
pub open spec fn sprite_wf(sprite: Sprite, i: int) -> bool {
    &&& sprite.index == i
    &&& !sprite.is_quadrupled
    &&& sprite_storable(sprite)
    &&& sprite.pixels@.len() == sprite.width * sprite.height
    &&& pixels_fit(sprite.pixels@, sprite.bpp as nat)
}

/// The words of records one behind the other: four for each, those of record
/// `i` from place `4 * i` on.
pub proof fn lemma_defs_words(defs: Seq<SpriteDef>, i: int)
    requires
        0 <= i < defs.len(),
    ensures
        defs_words(defs).len() == 4 * defs.len(),
        defs_words(defs)[4 * i] == defs[i].pixel_data_index,
        defs_words(defs)[4 * i + 1] == unsigned_of(defs[i].offset_x),
        defs_words(defs)[4 * i + 2] == unsigned_of(defs[i].offset_y),
        defs_words(defs)[4 * i + 3] == def_props(defs[i]),
    decreases defs.len(),
{
    lemma_defs_words_len(defs.drop_last());
    if i < defs.len() - 1 {
        lemma_defs_words(defs.drop_last(), i);
    }
}

/// Records have four words each.
pub proof fn lemma_defs_words_len(defs: Seq<SpriteDef>)
    ensures
        defs_words(defs).len() == 4 * defs.len(),
    decreases defs.len(),
{
    if defs.len() > 0 {
        lemma_defs_words_len(defs.drop_last());
    }
}

/// The properties word of a record tells its depth and sides again.
pub proof fn lemma_props_round_trip(def: SpriteDef)
    requires
        def_valid(def),
    ensures
        crate::sprite_pack::sprite::depth_of(def_props(def) as int % 4) == def.bpp,
        crate::sprite_pack::sprite::side_of((def_props(def) as int / 16) % 4) == def.width,
        crate::sprite_pack::sprite::side_of((def_props(def) as int / 64) % 4) == def.height,
        (def_props(def) as int / 0x8000 == 1) == def.is_quadrupled,
{
}

/// The bytes that hold the pixels of a whole sprite are as many as its
/// record tells.
pub proof fn lemma_sprite_bytes_len(sprite: Sprite, i: int)
    requires
        sprite_wf(sprite, i),
    ensures
        sprite_bytes(sprite).len() == sprite.width * sprite.height * sprite.bpp / 8,
        8 <= sprite_bytes(sprite).len(),
{
    lemma_pixel_bits_len(sprite.pixels@, sprite.bpp as nat);
    let w = sprite.width as int;
    let h = sprite.height as int;
    let d = sprite.bpp as int;
    assert((w * h) % 64 == 0 && 64 <= w * h <= 4096) by (nonlinear_arith)
        requires
            w == 8 || w == 16 || w == 32 || w == 64,
            h == 8 || h == 16 || h == 32 || h == 64,
    ;
    let n = w * h;
    assert((n * d) % 8 == 0 && n * d >= 64) by (nonlinear_arith)
        requires
            n % 64 == 0,
            64 <= n,
            d == 2 || d == 4 || d == 6 || d == 8,
    ;
}

/// A sprite that a table of records and a pool were written for is what its
/// record and the pool hold, where it is a whole sprite.
pub proof fn lemma_sprite_round_trip(pool: Seq<u8>, defs: Seq<SpriteDef>, sprites: Seq<Sprite>, i: int)
    requires
        pool_holds(pool, defs, sprites),
        0 <= i < sprites.len(),
        sprite_wf(sprites[i], i),
        def_valid(defs[i]),
    ensures
        sprite_in_pool(bytes_of_words(defs_words(defs)), pool, i),
        sprite_is(sprites[i], bytes_of_words(defs_words(defs)), pool, i),
{
    let words = defs_words(defs);
    let s = bytes_of_words(words);
    let def = defs[i];
    let sprite = sprites[i];
    assert(def_matches(def, sprite));
    lemma_defs_words(defs, i);
    lemma_word_of_bytes(words, 4 * i);
    lemma_word_of_bytes(words, 4 * i + 1);
    lemma_word_of_bytes(words, 4 * i + 2);
    lemma_word_of_bytes(words, 4 * i + 3);
    assert(le_u16(s, SPRITE_SIZE * i) == def.pixel_data_index) by {
        assert(entry_at(s, 4 * i) == le_u16(s, SPRITE_SIZE * i));
    }
    assert(le_u16(s, SPRITE_SIZE * i + 2) == unsigned_of(def.offset_x)) by {
        assert(entry_at(s, 4 * i + 1) == le_u16(s, SPRITE_SIZE * i + 2));
    }
    assert(le_u16(s, SPRITE_SIZE * i + 4) == unsigned_of(def.offset_y)) by {
        assert(entry_at(s, 4 * i + 2) == le_u16(s, SPRITE_SIZE * i + 4));
    }
    assert(sprite_props(s, i) == def_props(def)) by {
        assert(entry_at(s, 4 * i + 3) == le_u16(s, SPRITE_SIZE * i + 6));
    }
    lemma_signed_round_trip(0, def.offset_x);
    lemma_signed_round_trip(0, def.offset_y);
    lemma_props_round_trip(def);
    assert(!sprite_quadrupled(s, i));
    assert(sprite_depth(s, i) == sprite.bpp);
    assert(sprite_width(s, i) == sprite.width);
    assert(sprite_height(s, i) == sprite.height);
    lemma_sprite_bytes_len(sprite, i);
    assert(sprite_byte_count(s, i) == sprite_bytes(sprite).len());
    assert(stored_at(pool, def.pixel_data_index as int, sprite_bytes(sprite)));
    assert(sprite_pixels_start(s, i) == def.pixel_data_index * sprite_bytes(sprite).len());
    lemma_pack_round_trip(sprite.pixels@, sprite.bpp as nat);
}

/// The sprites that a table of records and a pool were written for are what
/// the table and the pool hold, where each is a whole sprite.
pub proof fn lemma_sprites_round_trip(pool: Seq<u8>, defs: Seq<SpriteDef>, sprites: Seq<Sprite>)
    requires
        pool_holds(pool, defs, sprites),
        forall|i: int| 0 <= i < sprites.len() ==> sprite_wf(#[trigger] sprites[i], i),
    ensures
        sprites_are(sprites, bytes_of_words(defs_words(defs)), pool),
{
    let s = bytes_of_words(defs_words(defs));
    lemma_defs_words_len(defs);
    assert(s.len() / SPRITE_SIZE as nat == sprites.len());
    assert forall|i: int| 0 <= i < sprites.len() implies sprite_in_pool(s, pool, i) by {
        assert(sprite_wf(sprites[i], i));
        assert(def_matches(defs[i], sprites[i]));
        lemma_sprite_round_trip(pool, defs, sprites, i);
    }
    assert forall|i: int| 0 <= i < sprites.len() implies sprite_is(
        #[trigger] sprites[i],
        s,
        pool,
        i,
    ) by {
        assert(sprite_wf(sprites[i], i));
        assert(def_matches(defs[i], sprites[i]));
        lemma_sprite_round_trip(pool, defs, sprites, i);
    }
}

/// Where pixel `p` of a subimage of `c` by `r` tiles, each `w` by `h`
/// pixels, is found: in which tile, and at which place of that tile. The
/// tiles are counted row by row, from tile `j * (c * r)` on for subimage `j`.
pub proof fn lemma_tile_place(c: int, r: int, w: int, h: int, j: int, p: int)
    requires
        c > 0,
        r > 0,
        w > 0,
        h > 0,
        0 <= j,
        0 <= p < (c * w) * (r * h),
    ensures
        ({
            let x = p % (c * w);
            let y = p / (c * w);
            let t = (y / h) * c + x / w;
            let k = j * (c * r) + t;
            let n = (y % h) * w + x % w;
            &&& 0 <= t < c * r
            &&& k % c == x / w
            &&& (k / c) % r == y / h
            &&& k / (c * r) == j
            &&& 0 <= n < w * h
            &&& tile_source(c * w, w, h, k % c, (k / c) % r, n) == p
        }),
{
    let width = c * w;
    assert(width > 0) by (nonlinear_arith)
        requires
            width == c * w,
            c > 0,
            w > 0,
    ;
    let x = p % width;
    let y = p / width;
    lemma_fundamental_div_mod(p, width);
    lemma_mod_bound(p, width);
    lemma_div_pos_is_pos(p, width);
    lemma_multiply_divide_lt(p, width, r * h);
    assert(y < h * r) by (nonlinear_arith)
        requires
            y < r * h,
    ;
    let tx = x / w;
    let ty = y / h;
    assert(x < w * c) by (nonlinear_arith)
        requires
            x < width,
            width == c * w,
    ;
    lemma_multiply_divide_lt(x, w, c);
    lemma_multiply_divide_lt(y, h, r);
    lemma_div_pos_is_pos(x, w);
    lemma_div_pos_is_pos(y, h);
    lemma_fundamental_div_mod(x, w);
    lemma_fundamental_div_mod(y, h);
    lemma_mod_bound(x, w);
    lemma_mod_bound(y, h);
    let t = ty * c + tx;
    let k = j * (c * r) + t;
    assert(0 <= t < c * r) by (nonlinear_arith)
        requires
            t == ty * c + tx,
            0 <= ty < r,
            0 <= tx < c,
    ;
    assert(k == (j * r + ty) * c + tx) by (nonlinear_arith)
        requires
            k == j * (c * r) + ty * c + tx,
    ;
    lemma_fundamental_div_mod_converse(k, c, j * r + ty, tx);
    lemma_fundamental_div_mod_converse(j * r + ty, r, j, ty);
    assert(c * r > 0) by (nonlinear_arith)
        requires
            c > 0,
            r > 0,
    ;
    lemma_fundamental_div_mod_converse(k, c * r, j, t);
    let n = (y % h) * w + x % w;
    lemma_fundamental_div_mod_converse(n, w, y % h, x % w);
    assert(0 <= n < w * h) by (nonlinear_arith)
        requires
            n == (y % h) * w + x % w,
            0 <= y % h < h,
            0 <= x % w < w,
    ;
    assert((tx * w + x % w) + (ty * h + y % h) * width == p) by (nonlinear_arith)
        requires
            x == w * tx + x % w,
            y == h * ty + y % h,
            p == width * y + x,
    ;
}

/// Whether an image is whole: it is not quadrupled; its tiles, at least one
/// each way, make up its width and its height; and each of its subimages
/// has a pixel for each place, and offsets of 128 at most.
pub open spec fn image_wf(set: ImageSet) -> bool {
    &&& !set.is_quadrupled
    &&& set.width_in_sprites > 0
    &&& set.height_in_sprites > 0
    &&& set.tile_width() > 0
    &&& set.tile_height() > 0
    &&& set.width == set.width_in_sprites * set.tile_width()
    &&& set.height == set.height_in_sprites * set.tile_height()
    &&& forall|j: int|
        0 <= j < set.subimages@.len() ==> {
            &&& (#[trigger] set.subimages@[j]).pixel_data@.len() == set.width * set.height
            &&& set.subimages@[j].offset_x <= OFFSET_START
            &&& set.subimages@[j].offset_y <= OFFSET_START
        }
}

/// Whether the sprites from `from` on are the tiles of `set`.
pub open spec fn tiles_are(set: ImageSet, sprites: Seq<Sprite>, from: int, bpp: u32) -> bool {
    &&& 0 <= from
    &&& from + set.tile_count() <= sprites.len()
    &&& forall|k: int|
        0 <= k < set.tile_count() ==> set.tile_is(#[trigger] sprites[from + k], bpp, from, k)
}

/// Tile `t` of subimage `j` is tile `j * (c * r) + t` of the image; the first
/// stands in column and row zero.
pub proof fn lemma_tile_of_subimage(c: int, r: int, j: int, t: int)
    requires
        c > 0,
        r > 0,
        0 <= j,
        0 <= t < c * r,
    ensures
        (j * (c * r) + t) / (c * r) == j,
        0 <= (j * (c * r) + t) % c,
        0 <= ((j * (c * r) + t) / c) % r,
        t == 0 ==> (j * (c * r) + t) % c == 0 && ((j * (c * r) + t) / c) % r == 0,
{
    let k = j * (c * r) + t;
    lemma_fundamental_div_mod_converse(k, c * r, j, t);
    lemma_mod_bound(k, c);
    lemma_mod_bound(k / c, r);
    if t == 0 {
        assert(k == (j * r) * c + 0) by (nonlinear_arith)
            requires
                k == j * (c * r),
        ;
        lemma_fundamental_div_mod_converse(k, c, j * r, 0);
        lemma_fundamental_div_mod_converse(j * r, r, j, 0);
    }
}

/// The smallest offsets among the first `m` tiles of subimage `j` are those
/// of the subimage.
pub proof fn lemma_least_offsets(set: ImageSet, sprites: Seq<Sprite>, from: int, bpp: u32, j: int, m: int)
    requires
        image_wf(set),
        tiles_are(set, sprites, from, bpp),
        0 <= j < set.subimages@.len(),
        0 < m <= set.tiles_per_subimage(),
    ensures
        least_offset_x(
            sprites,
            from + j * set.tiles_per_subimage(),
            m,
            set.tile_width() / 2,
        ) == set.subimages@[j].offset_x,
        least_offset_y(
            sprites,
            from + j * set.tiles_per_subimage(),
            m,
            set.tile_height() / 2,
        ) == set.subimages@[j].offset_y,
    decreases m,
{
    let c = set.width_in_sprites as int;
    let r = set.height_in_sprites as int;
    let tiles = set.tiles_per_subimage();
    let first = from + j * tiles;
    let t = m - 1;
    let k = j * tiles + t;
    assert(0 <= k < set.tile_count()) by (nonlinear_arith)
        requires
            k == j * tiles + t,
            0 <= t < tiles,
            0 <= j < set.subimages@.len(),
            set.tile_count() == set.subimages@.len() * tiles,
    ;
    lemma_tile_of_subimage(c, r, j, t);
    assert(set.tile_is(sprites[from + k], bpp, from, k));
    assert(first + m - 1 == from + k);
    assert(set.tile_sub(k) == j);
    assert(0 <= set.tile_col(k) * set.tile_width()) by (nonlinear_arith)
        requires
            0 <= set.tile_col(k),
            0 < set.tile_width(),
    ;
    assert(0 <= set.tile_row(k) * set.tile_height()) by (nonlinear_arith)
        requires
            0 <= set.tile_row(k),
            0 < set.tile_height(),
    ;
    if m > 1 {
        lemma_least_offsets(set, sprites, from, bpp, j, m - 1);
    } else {
        assert(set.tile_col(k) * set.tile_width() == 0) by (nonlinear_arith)
            requires
                set.tile_col(k) == 0,
        ;
        assert(set.tile_row(k) * set.tile_height() == 0) by (nonlinear_arith)
            requires
                set.tile_row(k) == 0,
        ;
        assert(least_offset_x(sprites, first, 0, set.tile_width() / 2) == OFFSET_START);
        assert(least_offset_y(sprites, first, 0, set.tile_height() / 2) == OFFSET_START);
    }
}

/// The tiles cut from a subimage of a whole image make that subimage again:
/// the same pixels at the same offsets.
pub proof fn lemma_subimage_round_trip(
    set: ImageSet,
    sprites: Seq<Sprite>,
    from: int,
    bpp: u32,
    j: int,
    sub: SubImage,
)
    requires
        image_wf(set),
        tiles_are(set, sprites, from, bpp),
        0 <= j < set.subimages@.len(),
        subimage_is(
            sub,
            sprites,
            from + j * set.tiles_per_subimage(),
            set.width_in_sprites as int,
            set.height_in_sprites as int,
            set.tile_width(),
            set.tile_height(),
        ),
    ensures
        sub.pixel_data@ == set.subimages@[j].pixel_data@,
        sub.offset_x == set.subimages@[j].offset_x,
        sub.offset_y == set.subimages@[j].offset_y,
{
    let c = set.width_in_sprites as int;
    let r = set.height_in_sprites as int;
    let w = set.tile_width();
    let h = set.tile_height();
    let tiles = set.tiles_per_subimage();
    let first = from + j * tiles;
    assert(tiles > 0) by (nonlinear_arith)
        requires
            tiles == c * r,
            c > 0,
            r > 0,
    ;
    lemma_least_offsets(set, sprites, from, bpp, j, tiles);
    let own = set.subimages@[j].pixel_data@;
    assert((c * w) * (r * h) == set.width * set.height);
    assert forall|p: int| 0 <= p < own.len() implies sub.pixel_data@[p] == own[p] by {
        lemma_tile_place(c, r, w, h, j, p);
        let x = p % (c * w);
        let y = p / (c * w);
        let t = (y / h) * c + x / w;
        let k = j * tiles + t;
        let n = (y % h) * w + x % w;
        assert(0 <= k < set.tile_count()) by (nonlinear_arith)
            requires
                k == j * tiles + t,
                0 <= t < tiles,
                0 <= j < set.subimages@.len(),
                set.tile_count() == set.subimages@.len() * tiles,
        ;
        assert(set.tile_is(sprites[from + k], bpp, from, k));
        assert(first + (y / h) * c + x / w == from + k);
        assert(sub.pixel_data@[p] == tiled_pixel(sprites, first, c, w, h, p));
        assert(set.tile_pixels(k)[n] == own[set.tile_pixel_source(k, n)]);
    }
    assert(sub.pixel_data@ =~= own);
}

/// Whether the images are whole, with a subimage at least each.
pub open spec fn images_wf(sets: Seq<ImageSet>) -> bool {
    forall|i: int|
        0 <= i < sets.len() ==> image_wf(#[trigger] sets[i]) && sets[i].subimages@.len() > 0
}

/// The number of sprites of the first images grows with their number.
pub proof fn lemma_sprites_before_grows(sets: Seq<ImageSet>, a: int, b: int)
    requires
        0 <= a <= b <= sets.len(),
    ensures
        0 <= sprites_before(sets, a) <= sprites_before(sets, b),
    decreases b,
{
    if b > 0 {
        let set = sets[b - 1];
        assert(0 <= set.tile_count()) by (nonlinear_arith)
            requires
                set.tile_count() == set.subimages@.len() * (set.width_in_sprites
                    * set.height_in_sprites),
                0 <= set.width_in_sprites,
                0 <= set.height_in_sprites,
        ;
        if a < b {
            lemma_sprites_before_grows(sets, a, b - 1);
        } else {
            lemma_sprites_before_grows(sets, a - 1, b - 1);
        }
    }
}

/// What is read of an image from a table written for whole images, with
/// whatever colours, has the size, the grid and the subimages of that image:
/// the same pixels at the same offsets.
pub proof fn lemma_image_round_trip(
    data: Seq<u8>,
    sprites: Seq<Sprite>,
    colors: Seq<Color>,
    sets: Seq<ImageSet>,
    i: int,
    read: ImageSet,
    shown: Seq<Color>,
)
    requires
        images_saved(data, sprites, colors, sets),
        images_wf(sets),
        0 <= i < sets.len(),
        image_is(read, data, sprites, shown, i),
    ensures
        read.width == sets[i].width,
        read.height == sets[i].height,
        read.width_in_sprites == sets[i].width_in_sprites,
        read.height_in_sprites == sets[i].height_in_sprites,
        read.is_quadrupled == sets[i].is_quadrupled,
        read.subimages@.len() == sets[i].subimages@.len(),
        forall|j: int|
            0 <= j < read.subimages@.len() ==> {
                &&& (#[trigger] read.subimages@[j]).pixel_data@ == sets[i].subimages@[j].pixel_data@
                &&& read.subimages@[j].offset_x == sets[i].subimages@[j].offset_x
                &&& read.subimages@[j].offset_y == sets[i].subimages@[j].offset_y
            },
{
    let set = sets[i];
    let c = set.width_in_sprites as int;
    let r = set.height_in_sprites as int;
    let tiles = set.tiles_per_subimage();
    let subs = set.subimages@.len() as int;
    let first = sprites_before(sets, i);
    let depth = image_depth(sets, i) as u32;
    assert(image_wf(set) && subs > 0);
    assert(record_is(data, colors, sets, i));
    assert(tiles > 0) by (nonlinear_arith)
        requires
            tiles == c * r,
            c > 0,
            r > 0,
    ;
    assert(set.tile_count() >= tiles) by (nonlinear_arith)
        requires
            set.tile_count() == subs * tiles,
            subs > 0,
            tiles > 0,
    ;
    lemma_sprites_before_grows(sets, i + 1, sets.len() as int);
    lemma_sprites_before_grows(sets, i, i + 1);
    assert(data.len() / IMAGE_SIZE as nat == sets.len());
    assert(image_next_sprite(data, sprites.len() as int, i) == first + set.tile_count()) by {
        if i + 1 < sets.len() {
            assert(record_is(data, colors, sets, i + 1));
        }
    }
    lemma_fundamental_div_mod_converse(set.tile_count(), tiles, subs, 0);
    assert(image_subimages(data, sprites.len() as int, i) == subs);
    assert(tiles_are(set, sprites, first, depth)) by {
        assert forall|k: int| 0 <= k < set.tile_count() implies set.tile_is(
            #[trigger] sprites[first + k],
            depth,
            first,
            k,
        ) by {
            assert(image_tile_is(sets, sprites, i, k));
        }
    }
    assert(set.tile_is(sprites[first + 0], depth, first, 0));
    assert(image_tile_width(data, sprites, i) == set.tile_width());
    assert(image_tile_height(data, sprites, i) == set.tile_height());
    assert forall|j: int| 0 <= j < read.subimages@.len() implies {
        &&& (#[trigger] read.subimages@[j]).pixel_data@ == set.subimages@[j].pixel_data@
        &&& read.subimages@[j].offset_x == set.subimages@[j].offset_x
        &&& read.subimages@[j].offset_y == set.subimages@[j].offset_y
    } by {
        assert(subimage_first_sprite(data, i, j) == first + j * tiles);
        lemma_subimage_round_trip(set, sprites, first, depth, j, read.subimages@[j]);
    }
}

/// Whether two lists of sprites are alike: as many, and each with the same
/// number, size, depth, offsets and pixels.
pub open spec fn sprites_alike(a: Seq<Sprite>, b: Seq<Sprite>) -> bool {
    &&& a.len() == b.len()
    &&& forall|i: int|
        0 <= i < a.len() ==> {
            &&& (#[trigger] a[i]).index == b[i].index
            &&& a[i].width == b[i].width
            &&& a[i].height == b[i].height
            &&& a[i].bpp == b[i].bpp
            &&& a[i].offset_x == b[i].offset_x
            &&& a[i].offset_y == b[i].offset_y
            &&& a[i].is_quadrupled == b[i].is_quadrupled
            &&& a[i].pixels@ == b[i].pixels@
        }
}

/// Two lists of sprites that the same table and pool hold are alike.
pub proof fn lemma_same_sprites(a: Seq<Sprite>, b: Seq<Sprite>, defs: Seq<u8>, pool: Seq<u8>)
    requires
        sprites_are(a, defs, pool),
        sprites_are(b, defs, pool),
    ensures
        sprites_alike(a, b),
{
    assert forall|i: int| 0 <= i < a.len() implies (#[trigger] a[i]).pixels@ == b[i].pixels@
        && a[i].index == b[i].index && a[i].width == b[i].width && a[i].height == b[i].height
        && a[i].bpp == b[i].bpp && a[i].offset_x == b[i].offset_x && a[i].offset_y
        == b[i].offset_y && a[i].is_quadrupled == b[i].is_quadrupled by {
        assert(sprite_is(a[i], defs, pool, i));
        assert(sprite_is(b[i], defs, pool, i));
    }
}

/// A table written for images with their sprites is one written for them
/// with any sprites that are like those.
pub proof fn lemma_images_saved_alike(
    data: Seq<u8>,
    a: Seq<Sprite>,
    b: Seq<Sprite>,
    colors: Seq<Color>,
    sets: Seq<ImageSet>,
)
    requires
        images_saved(data, a, colors, sets),
        sprites_alike(a, b),
    ensures
        images_saved(data, b, colors, sets),
{
    assert forall|i: int, k: int|
        0 <= i < sets.len() && 0 <= k < sets[i].tile_count() implies #[trigger] image_tile_is(
        sets,
        b,
        i,
        k,
    ) by {
        assert(image_tile_is(sets, a, i, k));
        lemma_sprites_before_grows(sets, i + 1, sets.len() as int);
        lemma_sprites_before_grows(sets, 0, i);
        let m = sprites_before(sets, i) + k;
        assert(a[m].pixels@ == b[m].pixels@);
    }
}

/// The sections of a sprite pack as it is written, with any bytes behind
/// it: the images, the sprites and the pool are where the header says, and
/// the bytes behind the sprite pack stand behind the pool.
pub proof fn lemma_sprite_pack_sections(
    images: Seq<u8>,
    sprites: Seq<u8>,
    palettes: Seq<u8>,
    pool: Seq<u8>,
    tail: Seq<u8>,
)
    requires
        sprite_pack_fits(images, sprites, palettes),
    ensures
        sections_ok(sprite_pack_bytes(images, sprites, palettes, pool) + tail),
        section(sprite_pack_bytes(images, sprites, palettes, pool) + tail, 0) == images,
        section(sprite_pack_bytes(images, sprites, palettes, pool) + tail, 1) == sprites,
        section(sprite_pack_bytes(images, sprites, palettes, pool) + tail, 3) == pool + tail,
        section(sprite_pack_bytes(images, sprites, palettes, pool) + tail, 2).len()
            >= palettes.len(),
{
    let s = sprite_pack_bytes(images, sprites, palettes, pool) + tail;
    let at_sprites = HEADER_SIZE + images.len();
    let at_palettes = at_sprites + sprites.len();
    let gap = padding_to(at_palettes + palettes.len(), PIXEL_ALIGNMENT as int);
    let at_pool = at_palettes + palettes.len() + gap;
    let starts = seq![HEADER_SIZE as u32, at_sprites as u32, at_palettes as u32, at_pool as u32];
    let rest = images + sprites + palettes + zeros(gap as nat) + pool + tail;
    assert(bytes_of_u32s(starts) =~= u32_bytes(starts[0]) + u32_bytes(starts[1]) + u32_bytes(
        starts[2],
    ) + u32_bytes(starts[3]));
    assert(s =~= bytes_of_u32s(starts) + rest);
    lemma_u32_of_bytes(starts, rest, 0);
    lemma_u32_of_bytes(starts, rest, 1);
    lemma_u32_of_bytes(starts, rest, 2);
    lemma_u32_of_bytes(starts, rest, 3);
    assert(section_start(s, 0) == HEADER_SIZE);
    assert(section_start(s, 1) == at_sprites);
    assert(section_start(s, 2) == at_palettes);
    assert(section_start(s, 3) == at_pool);
    assert(section_start(s, 4) == s.len());
    assert(s.len() == at_pool + pool.len() + tail.len());
    assert(section(s, 0) =~= images);
    assert(section(s, 1) =~= sprites);
    assert(section(s, 3) =~= pool + tail);
    assert forall|k: int| 0 <= k < 4 implies !section_is_bad(s, k) by {
        if k == 0 {
        } else if k == 1 {
        } else if k == 2 {
        } else {
        }
    }
}

/// The sprites that a table and a pool hold, they hold with any bytes behind
/// the pool.
pub proof fn lemma_sprites_with_tail(sprites: Seq<Sprite>, defs: Seq<u8>, pool: Seq<u8>, tail: Seq<u8>)
    requires
        sprites_are(sprites, defs, pool),
    ensures
        sprites_are(sprites, defs, pool + tail),
{
    let whole = pool + tail;
    assert forall|i: int| 0 <= i < sprites.len() implies sprite_in_pool(defs, whole, i) by {
        assert(sprite_in_pool(defs, pool, i));
    }
    assert forall|i: int| 0 <= i < sprites.len() implies sprite_is(
        #[trigger] sprites[i],
        defs,
        whole,
        i,
    ) by {
        assert(sprite_in_pool(defs, pool, i));
        assert(sprite_is(sprites[i], defs, pool, i));
        let count = sprite_byte_count(defs, i);
        let start = sprite_pixels_start(defs, i);
        lemma_sprite_chunk_place(defs, i);
        assert(whole.subrange(start, start + count) =~= pool.subrange(start, start + count));
    }
}

/// The pixels of a sprite start at no byte before the first, and take no
/// fewer bytes than none.
pub proof fn lemma_sprite_chunk_place(defs: Seq<u8>, i: int)
    ensures
        0 <= sprite_byte_count(defs, i),
        0 <= sprite_pixels_start(defs, i),
{
    let w = sprite_width(defs, i);
    let h = sprite_height(defs, i);
    let d = sprite_depth(defs, i);
    assert(0 < w && 0 < h && 0 < d);
    assert(0 <= w * h * d) by (nonlinear_arith)
        requires
            0 < w,
            0 < h,
            0 < d,
    ;
    let count = sprite_byte_count(defs, i);
    assert(0 <= count);
    let index = le_u16(defs, SPRITE_SIZE * i) as int;
    assert(0 <= index * count) by (nonlinear_arith)
        requires
            0 <= index,
            0 <= count,
    ;
}

/// Whether every pixel of every image fits the depth that the image is
/// written with.
pub open spec fn images_in_depth(sets: Seq<ImageSet>) -> bool {
    forall|i: int, j: int, p: int|
        0 <= i < sets.len() && 0 <= j < sets[i].subimages@.len() && 0 <= p
            < sets[i].subimages@[j].pixel_data@.len() ==> (
        #[trigger] sets[i].subimages@[j].pixel_data@[p] as nat) < two_pow(
            image_depth(sets, i) as nat,
        )
}

/// The image and the tile of it that sprite `m` is, among the sprites of the
/// first `n` images.
pub proof fn lemma_sprite_place(sets: Seq<ImageSet>, n: int, m: int) -> (place: (int, int))
    requires
        0 <= n <= sets.len(),
        0 <= m < sprites_before(sets, n),
    ensures
        0 <= place.0 < n,
        0 <= place.1 < sets[place.0].tile_count(),
        m == sprites_before(sets, place.0) + place.1,
    decreases n,
{
    lemma_sprites_before_grows(sets, n - 1, n);
    if m >= sprites_before(sets, n - 1) {
        (n - 1, m - sprites_before(sets, n - 1))
    } else {
        lemma_sprite_place(sets, n - 1, m)
    }
}

/// The sprites written for whole images whose pixels fit their depth are
/// whole sprites, where a record can be written for each.
pub proof fn lemma_tiles_are_whole(
    data: Seq<u8>,
    sprites: Seq<Sprite>,
    colors: Seq<Color>,
    sets: Seq<ImageSet>,
    m: int,
)
    requires
        images_saved(data, sprites, colors, sets),
        images_wf(sets),
        images_in_depth(sets),
        0 <= m < sprites.len(),
        sprite_storable(sprites[m]),
    ensures
        sprite_wf(sprites[m], m),
{
    let (i, k) = lemma_sprite_place(sets, sets.len() as int, m);
    let set = sets[i];
    assert(image_tile_is(sets, sprites, i, k));
    assert(image_wf(set));
    let sprite = sprites[m];
    let tiles = set.tiles_per_subimage();
    assert(tiles > 0) by (nonlinear_arith)
        requires
            tiles == set.width_in_sprites * set.height_in_sprites,
            set.width_in_sprites > 0,
            set.height_in_sprites > 0,
    ;
    assert(k < tiles * set.subimages@.len()) by (nonlinear_arith)
        requires
            k < set.subimages@.len() * tiles,
    ;
    lemma_multiply_divide_lt(k, tiles, set.subimages@.len() as int);
    lemma_div_pos_is_pos(k, tiles);
    let j = set.tile_sub(k);
    assert(image_writable(sets, i));
    assert(set.tile_ok(k));
    assert forall|n: int| 0 <= n < sprite.pixels@.len() implies (#[trigger] sprite.pixels@[n] as nat)
        < two_pow(sprite.bpp as nat) by {
        let source = set.tile_pixel_source(k, n);
        assert(0 <= source < set.subimages@[j].pixel_data@.len());
        assert(sprite.pixels@[n] == sets[i].subimages@[j].pixel_data@[source]);
    }
}

/// Whether two images have the same size, the same grid and the same
/// subimages: the same pixels at the same offsets.
pub open spec fn same_pictures(a: ImageSet, b: ImageSet) -> bool {
    &&& a.width == b.width
    &&& a.height == b.height
    &&& a.width_in_sprites == b.width_in_sprites
    &&& a.height_in_sprites == b.height_in_sprites
    &&& a.is_quadrupled == b.is_quadrupled
    &&& a.subimages@.len() == b.subimages@.len()
    &&& forall|j: int|
        0 <= j < a.subimages@.len() ==> {
            &&& (#[trigger] a.subimages@[j]).pixel_data@ == b.subimages@[j].pixel_data@
            &&& a.subimages@[j].offset_x == b.subimages@[j].offset_x
            &&& a.subimages@[j].offset_y == b.subimages@[j].offset_y
        }
}

/// What is read of a sprite pack written for whole images, whose pixels fit
/// their depth, are those images again, whatever stands behind the sprite
/// pack: as many, each of the same size and grid, with the same pixels at
/// the same offsets in each subimage.
pub proof fn lemma_sprite_pack_round_trip(
    bytes: Seq<u8>,
    tail: Seq<u8>,
    sets: Seq<ImageSet>,
    pack: SpritePack,
)
    requires
        sprite_pack_saved(bytes, sets),
        images_wf(sets),
        images_in_depth(sets),
        sprite_pack_is(pack, bytes + tail),
    ensures
        sections_ok(bytes + tail),
        pack.image_sets@.len() == sets.len(),
        forall|i: int|
            0 <= i < sets.len() ==> same_pictures(#[trigger] pack.image_sets@[i], sets[i]),
{
    let (images, sprites, colors, pool, defs) = choose|
        images: Seq<u8>,
        sprites: Seq<Sprite>,
        colors: Seq<Color>,
        pool: Seq<u8>,
        defs: Seq<SpriteDef>,
    | #[trigger] sprite_pack_made(bytes, sets, images, sprites, colors, pool, defs);
    let table = bytes_of_words(defs_words(defs));
    lemma_sprite_pack_sections(images, table, bytes_of_words(color_words(colors)), pool, tail);
    assert forall|m: int| 0 <= m < sprites.len() implies sprite_wf(#[trigger] sprites[m], m) by {
        assert(def_valid(defs[m]));
        assert(def_matches(defs[m], sprites[m]));
        lemma_tiles_are_whole(images, sprites, colors, sets, m);
    }
    lemma_sprites_round_trip(pool, defs, sprites);
    lemma_sprites_with_tail(sprites, table, pool, tail);
    let whole = bytes + tail;
    let read = choose|read: Seq<Sprite>| #[trigger]
        sprites_are(read, section(whole, 1), section(whole, 3)) && images_are(
            pack.image_sets@,
            section(whole, 0),
            read,
            colors_of(section(whole, 2)),
        );
    lemma_same_sprites(sprites, read, table, pool + tail);
    lemma_images_saved_alike(images, sprites, read, colors, sets);
    assert forall|i: int| 0 <= i < sets.len() implies same_pictures(
        #[trigger] pack.image_sets@[i],
        sets[i],
    ) by {
        assert(image_is(pack.image_sets@[i], images, read, colors_of(section(whole, 2)), i));
        lemma_image_round_trip(
            images,
            read,
            colors,
            sets,
            i,
            pack.image_sets@[i],
            colors_of(section(whole, 2)),
        );
    }
}

/// The sprites written for images have the numbers of their places.
pub proof fn lemma_tiles_numbered(
    data: Seq<u8>,
    sprites: Seq<Sprite>,
    colors: Seq<Color>,
    sets: Seq<ImageSet>,
)
    requires
        images_saved(data, sprites, colors, sets),
    ensures
        forall|m: int| 0 <= m < sprites.len() ==> (#[trigger] sprites[m]).index == m,
        forall|a: int, b: int|
            0 <= a < b < sprites.len() ==> (#[trigger] sprites[a]).index <= (
            #[trigger] sprites[b]).index,
{
    assert forall|m: int| 0 <= m < sprites.len() implies (#[trigger] sprites[m]).index == m by {
        let (i, k) = lemma_sprite_place(sets, sets.len() as int, m);
        assert(image_tile_is(sets, sprites, i, k));
    }
}

/// Where the sprites of image `i` stand among the sprites written for whole
/// images: from its first sprite up to the first of the next image, as many
/// as its subimages need, each the tile of its place.
pub proof fn lemma_image_run(
    data: Seq<u8>,
    sprites: Seq<Sprite>,
    colors: Seq<Color>,
    sets: Seq<ImageSet>,
    i: int,
)
    requires
        images_saved(data, sprites, colors, sets),
        images_wf(sets),
        0 <= i < sets.len(),
    ensures
        image_first_sprite(data, i) == sprites_before(sets, i),
        0 <= sprites_before(sets, i),
        sets[i].tiles_per_subimage() > 0,
        sets[i].tile_count() == sets[i].subimages@.len() * sets[i].tiles_per_subimage(),
        sprites_before(sets, i) + sets[i].tile_count() <= sprites.len(),
        image_next_sprite(data, sprites.len() as int, i) == sprites_before(sets, i)
            + sets[i].tile_count(),
        image_subimages(data, sprites.len() as int, i) == sets[i].subimages@.len(),
        tiles_are(sets[i], sprites, sprites_before(sets, i), image_depth(sets, i) as u32),
        image_tile_width(data, sprites, i) == sets[i].tile_width(),
        image_tile_height(data, sprites, i) == sets[i].tile_height(),
        sprites[sprites_before(sets, i)].bpp == image_depth(sets, i),
{
    let set = sets[i];
    let c = set.width_in_sprites as int;
    let r = set.height_in_sprites as int;
    let tiles = set.tiles_per_subimage();
    let subs = set.subimages@.len() as int;
    let first = sprites_before(sets, i);
    let depth = image_depth(sets, i) as u32;
    assert(image_wf(set) && subs > 0);
    assert(image_writable(sets, i));
    assert(record_is(data, colors, sets, i));
    assert(tiles > 0) by (nonlinear_arith)
        requires
            tiles == c * r,
            c > 0,
            r > 0,
    ;
    assert(set.tile_count() >= tiles) by (nonlinear_arith)
        requires
            set.tile_count() == subs * tiles,
            subs > 0,
            tiles > 0,
    ;
    lemma_sprites_before_grows(sets, i + 1, sets.len() as int);
    lemma_sprites_before_grows(sets, i, i + 1);
    assert(data.len() / IMAGE_SIZE as nat == sets.len());
    assert(image_next_sprite(data, sprites.len() as int, i) == first + set.tile_count()) by {
        if i + 1 < sets.len() {
            assert(record_is(data, colors, sets, i + 1));
        }
    }
    lemma_fundamental_div_mod_converse(set.tile_count(), tiles, subs, 0);
    assert(tiles_are(set, sprites, first, depth)) by {
        assert forall|k: int| 0 <= k < set.tile_count() implies set.tile_is(
            #[trigger] sprites[first + k],
            depth,
            first,
            k,
        ) by {
            assert(image_tile_is(sets, sprites, i, k));
        }
    }
    assert(set.tile_is(sprites[first + 0], depth, first, 0));
}

/// An image written among whole images can be read: its sprites are there,
/// its first palette lies inside the colours, and its subimages can be made
/// of its sprites.
pub proof fn lemma_image_readable(
    data: Seq<u8>,
    sprites: Seq<Sprite>,
    colors: Seq<Color>,
    sets: Seq<ImageSet>,
    i: int,
    count: int,
)
    requires
        images_saved(data, sprites, colors, sets),
        images_wf(sets),
        0 <= i < sets.len(),
        colors.len() <= count,
    ensures
        image_sprites_found(data, sprites.len() as int, i),
        image_palette_found(data, sprites, count, i),
        image_tiles_ok(data, sprites, i),
{
    let set = sets[i];
    let first = sprites_before(sets, i);
    let tiles = set.tiles_per_subimage();
    let subs = set.subimages@.len() as int;
    let depth = image_depth(sets, i) as u32;
    let w = set.tile_width();
    let h = set.tile_height();
    lemma_image_run(data, sprites, colors, sets, i);
    assert(image_wf(set));
    assert(image_writable(sets, i));
    assert(record_is(data, colors, sets, i));
    assert(image_tiles(data, i) == tiles);
    assert(set.tile_count() >= tiles) by (nonlinear_arith)
        requires
            set.tile_count() == subs * tiles,
            subs > 0,
            tiles > 0,
    ;
    // the first palette
    let parts = padded_palettes(set);
    lemma_joined_part(parts, 0);
    assert(parts.subrange(0, 0) =~= Seq::<Seq<Color>>::empty());
    assert(image_colors(set).len() >= goal_for(set.palettes@[0]@.len() as int));
    assert(two_pow(2) == 4 && two_pow(4) == 16 && two_pow(6) == 64 && two_pow(8) == 256) by {
        reveal_with_fuel(two_pow, 9);
    }
    assert(image_palette_size(data, sprites, i) == goal_for(set.palettes@[0]@.len() as int));
    // the subimages
    assert forall|j: int| 0 <= j < image_subimages(data, sprites.len() as int, i) implies subimage_ok(
        sprites,
        #[trigger] subimage_first_sprite(data, i, j),
        image_columns(data, i),
        image_rows(data, i),
        image_tile_width(data, sprites, i),
        image_tile_height(data, sprites, i),
    ) by {
        let from = subimage_first_sprite(data, i, j);
        assert(from == first + j * tiles);
        lemma_least_offsets(set, sprites, first, depth, j, tiles);
        assert(0 <= w * h) by (nonlinear_arith)
            requires
                0 < w,
                0 < h,
        ;
        assert forall|m: int| 0 <= m < tiles implies (#[trigger] sprites[from + m]).width == w
            && sprites[from + m].height == h && sprites[from + m].pixels@.len() == w * h by {
            let k = j * tiles + m;
            assert(0 <= k < set.tile_count()) by (nonlinear_arith)
                requires
                    k == j * tiles + m,
                    0 <= m < tiles,
                    0 <= j < subs,
                    set.tile_count() == subs * tiles,
            ;
            assert(set.tile_is(sprites[first + k], depth, first, k));
            assert(from + m == first + k);
        }
    }
}

/// What is written for whole images whose pixels fit their depth can be
/// read: reading the sprite pack fails in no way, so that it gives the
/// images.
pub proof fn lemma_sprite_pack_readable(bytes: Seq<u8>, sets: Seq<ImageSet>)
    requires
        sprite_pack_saved(bytes, sets),
        images_wf(sets),
        images_in_depth(sets),
    ensures
        sections_ok(bytes),
        forall|error: Error| !sprite_pack_fails(bytes, error),
{
    let (images, sprites, colors, pool, defs) = choose|
        images: Seq<u8>,
        sprites: Seq<Sprite>,
        colors: Seq<Color>,
        pool: Seq<u8>,
        defs: Seq<SpriteDef>,
    | #[trigger] sprite_pack_made(bytes, sets, images, sprites, colors, pool, defs);
    let table = bytes_of_words(defs_words(defs));
    let palettes = bytes_of_words(color_words(colors));
    lemma_sprite_pack_sections(images, table, palettes, pool, Seq::empty());
    assert(bytes + Seq::<u8>::empty() =~= bytes);
    assert(pool + Seq::<u8>::empty() =~= pool);
    assert forall|m: int| 0 <= m < sprites.len() implies sprite_wf(#[trigger] sprites[m], m) by {
        assert(def_valid(defs[m]));
        assert(def_matches(defs[m], sprites[m]));
        lemma_tiles_are_whole(images, sprites, colors, sets, m);
    }
    lemma_sprites_round_trip(pool, defs, sprites);
    let count = colors_of(section(bytes, 2)).len() as int;
    assert(colors.len() <= count);
    assert(images.len() / IMAGE_SIZE as nat == sets.len());
    assert forall|error: Error| !sprite_pack_fails(bytes, error) by {
        match error {
            Error::PixelDataNotFound { sprite } => {
                if sprite < sprites.len() {
                    assert(sprite_in_pool(table, pool, sprite as int));
                }
            },
            Error::InvalidSectionOffset { section: k } => {
                if k < 4 {
                    assert(!section_is_bad(bytes, k as int));
                }
            },
            Error::SpriteNotFound { image } | Error::PaletteNotFound { image }
            | Error::InvalidImage { image } => {
                if image_fails(bytes, image as int, error) {
                    let read = choose|read: Seq<Sprite>| #[trigger]
                        sprites_are(read, section(bytes, 1), section(bytes, 3))
                            && image_fails_with(
                            section(bytes, 0),
                            read,
                            colors_of(section(bytes, 2)).len() as int,
                            image as int,
                            error,
                        );
                    lemma_same_sprites(sprites, read, table, pool);
                    lemma_images_saved_alike(images, sprites, read, colors, sets);
                    assert forall|i: int| 0 <= i < sets.len() implies image_found(
                        images,
                        read,
                        count,
                        i,
                    ) && image_tiles_ok(images, read, i) by {
                        lemma_image_readable(images, read, colors, sets, i, count);
                    }
                    lemma_image_readable(images, read, colors, sets, image as int, count);
                }
            },
            _ => {},
        }
    }
}

/// A round puts the same bytes into the pool for sprites that are alike.
pub proof fn lemma_alike_round(pool: Seq<u8>, a: Seq<Sprite>, b: Seq<Sprite>, key: int, i: int)
    requires
        sprites_alike(a, b),
        0 <= i <= a.len(),
    ensures
        pool_round(pool, a, key, i) == pool_round(pool, b, key, i),
    decreases i,
{
    if i > 0 {
        lemma_alike_round(pool, a, b, key, i - 1);
        assert(a[i - 1].pixels@ == b[i - 1].pixels@);
    }
}

/// Sprites that are alike have the same pool.
pub proof fn lemma_alike_pool(a: Seq<Sprite>, b: Seq<Sprite>, bound: int)
    requires
        sprites_alike(a, b),
    ensures
        pool_above(a, bound) == pool_above(b, bound),
    decreases 0x100_0000 - bound,
{
    if bound < 0x100_0000 {
        lemma_alike_pool(a, b, bound + 1);
        lemma_alike_round(pool_above(a, bound + 1), a, b, bound, a.len() as int);
    }
}

/// Sprites that are alike stand in the same chunks.
pub proof fn lemma_alike_chunk(a: Seq<Sprite>, b: Seq<Sprite>, i: int)
    requires
        sprites_alike(a, b),
        0 <= i < a.len(),
    ensures
        chunk_index(a, i) == chunk_index(b, i),
{
    assert(a[i].pixels@ == b[i].pixels@);
    let key = sprite_key(a[i]);
    lemma_alike_pool(a, b, key + 1);
    lemma_alike_round(pool_above(a, key + 1), a, b, key, i);
}

/// A sprite goes to the same place among sprites that are alike.
pub proof fn lemma_alike_place(a: Seq<Sprite>, b: Seq<Sprite>, order: Seq<int>, index: usize, k: int)
    requires
        sprites_alike(a, b),
        0 <= k <= order.len(),
        forall|j: int| 0 <= j < order.len() ==> 0 <= #[trigger] order[j] < a.len(),
    ensures
        place_for(a, order, index, k) == place_for(b, order, index, k),
    decreases k,
{
    if k > 0 {
        assert(a[order[k - 1]].index == b[order[k - 1]].index);
        lemma_alike_place(a, b, order, index, k - 1);
    }
}

/// Sprites that are alike come in the same order of their numbers.
pub proof fn lemma_alike_order(a: Seq<Sprite>, b: Seq<Sprite>, n: int)
    requires
        sprites_alike(a, b),
        0 <= n <= a.len(),
    ensures
        index_order(a, n) == index_order(b, n),
    decreases n,
{
    if n > 0 {
        lemma_alike_order(a, b, n - 1);
        lemma_index_order(a, n - 1);
        assert(a[n - 1].index == b[n - 1].index);
        lemma_alike_place(a, b, index_order(a, n - 1), a[n - 1].index, n - 1);
    }
}

/// The sprites written for the same images are alike.
pub proof fn lemma_tiles_alike(
    data: Seq<u8>,
    a: Seq<Sprite>,
    colors: Seq<Color>,
    other: Seq<u8>,
    b: Seq<Sprite>,
    others: Seq<Color>,
    sets: Seq<ImageSet>,
)
    requires
        images_saved(data, a, colors, sets),
        images_saved(other, b, others, sets),
    ensures
        sprites_alike(a, b),
{
    assert forall|m: int| 0 <= m < a.len() implies (#[trigger] a[m]).index == b[m].index
        && a[m].width == b[m].width && a[m].height == b[m].height && a[m].bpp == b[m].bpp
        && a[m].offset_x == b[m].offset_x && a[m].offset_y == b[m].offset_y
        && a[m].is_quadrupled == b[m].is_quadrupled && a[m].pixels@ == b[m].pixels@ by {
        let (i, k) = lemma_sprite_place(sets, sets.len() as int, m);
        assert(image_tile_is(sets, a, i, k));
        assert(image_tile_is(sets, b, i, k));
    }
}

/// Two bytes are told by the word that they make.
pub proof fn lemma_word_tells_bytes(a: u8, b: u8, c: u8, d: u8)
    requires
        word_of(a, b) == word_of(c, d),
    ensures
        a == c,
        b == d,
{
}

/// The tables of the images written for the same images, with the colours
/// of each at the same place, are the same.
pub proof fn lemma_same_image_table(
    data: Seq<u8>,
    a: Seq<Sprite>,
    colors: Seq<Color>,
    other: Seq<u8>,
    b: Seq<Sprite>,
    others: Seq<Color>,
    sets: Seq<ImageSet>,
)
    requires
        images_saved(data, a, colors, sets),
        images_saved(other, b, others, sets),
        forall|i: int|
            0 <= i < sets.len() ==> #[trigger] image_first_palette(data, i) == palette_place(sets, i),
        forall|i: int|
            0 <= i < sets.len() ==> #[trigger] image_first_palette(other, i) == palette_place(
                sets,
                i,
            ),
    ensures
        data == other,
{
    assert forall|p: int| 0 <= p < data.len() implies data[p] == other[p] by {
        let i = p / (IMAGE_SIZE as int);
        let r = p % (IMAGE_SIZE as int);
        assert(0 <= i < sets.len() && 0 <= r < 6 && p == 6 * i + r);
        assert(record_is(data, colors, sets, i));
        assert(record_is(other, others, sets, i));
        assert(image_first_palette(data, i) == image_first_palette(other, i));
        lemma_word_tells_bytes(data[6 * i], data[6 * i + 1], other[6 * i], other[6 * i + 1]);
        lemma_word_tells_bytes(
            data[6 * i + 4],
            data[6 * i + 5],
            other[6 * i + 4],
            other[6 * i + 5],
        );
        assert(image_columns(data, i) == image_columns(other, i));
        assert(image_rows(data, i) == image_rows(other, i));
    }
    assert(data =~= other);
}

/// The sprite pack of images is one: what is written for the same images is
/// the same, byte for byte.
pub proof fn lemma_sprite_pack_unique(first: Seq<u8>, second: Seq<u8>, sets: Seq<ImageSet>)
    requires
        sprite_pack_saved(first, sets),
        sprite_pack_saved(second, sets),
    ensures
        first == second,
{
    let (images, sprites, colors, pool, defs) = choose|
        images: Seq<u8>,
        sprites: Seq<Sprite>,
        colors: Seq<Color>,
        pool: Seq<u8>,
        defs: Seq<SpriteDef>,
    | #[trigger] sprite_pack_made(first, sets, images, sprites, colors, pool, defs);
    let (images2, sprites2, colors2, pool2, defs2) = choose|
        images: Seq<u8>,
        sprites: Seq<Sprite>,
        colors: Seq<Color>,
        pool: Seq<u8>,
        defs: Seq<SpriteDef>,
    | #[trigger] sprite_pack_made(second, sets, images, sprites, colors, pool, defs);
    lemma_same_image_table(images, sprites, colors, images2, sprites2, colors2, sets);
    lemma_tiles_alike(images, sprites, colors, images2, sprites2, colors2, sets);
    lemma_alike_pool(sprites, sprites2, 0);
    lemma_alike_order(sprites, sprites2, sprites.len() as int);
    lemma_index_order(sprites, sprites.len() as int);
    let order = index_order(sprites, sprites.len() as int);
    assert forall|k: int| 0 <= k < defs.len() implies defs[k] == defs2[k] by {
        let m = order[k];
        lemma_alike_chunk(sprites, sprites2, m);
        assert(sprites[m].index == sprites2[m].index);
        assert(defs[k] == def_of(sprites[m], chunk_index(sprites, m)));
        assert(defs2[k] == def_of(sprites2[m], chunk_index(sprites2, m)));
    }
    assert(defs =~= defs2);
}

} // verus!
