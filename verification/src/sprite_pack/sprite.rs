//! Sprites: tiles of colour indices, their records of eight bytes, and the
//! pool in which equal tiles share their bytes.

use vstd::prelude::*;
use crate::data_view::{
    DataView, bytes_of_words, le_i16, le_u16, push_all, push_fill, to_unsigned,
    unsigned_of,
};
use crate::data_pack::item::push_words;
use crate::sprite_pack::pixels::{pack_pixels, packed, unpack_pixels, unpacked};
use crate::error::Error;

verus! {

/// The record of a sprite as it is written.
pub struct SpriteDef {
    pub index: usize,
    pub pixel_data_index: u16,
    pub offset_x: i16,
    pub offset_y: i16,
    pub bpp: u8,
    pub width: u8,
    pub height: u8,
    pub is_quadrupled: bool,
}

/// A sprite with its pixels, one colour index each, row by row.
#[derive(Clone)]
pub struct Sprite {
    pub index: usize,
    pub width: u32,
    pub height: u32,
    pub bpp: u32,
    pub offset_x: i32,
    pub offset_y: i32,
    pub is_quadrupled: bool,
    pub pixels: Vec<u32>,
}

/// The number of bytes in the record of a sprite.
pub const SPRITE_SIZE: usize = 8;

/// The bits per pixel that a code of two bits stands for: 2, 4, 6 or 8.
pub open spec fn depth_of(code: int) -> int {
    2 + 2 * code
}

/// The width or height that a code of two bits stands for: 8, 16, 32 or 64.
pub open spec fn side_of(code: int) -> int {
    if code == 0 {
        8
    } else if code == 1 {
        16
    } else if code == 2 {
        32
    } else {
        64
    }
}

/// The properties word of the sprite record `i`.
pub open spec fn sprite_props(s: Seq<u8>, i: int) -> int {
    le_u16(s, SPRITE_SIZE * i + 6) as int
}

/// Whether the sprite record `i` is marked as quadrupled.
pub open spec fn sprite_quadrupled(s: Seq<u8>, i: int) -> bool {
    sprite_props(s, i) / 0x8000 == 1
}

/// By how much the sides of sprite `i` are scaled.
pub open spec fn sprite_scale(s: Seq<u8>, i: int) -> int {
    if sprite_quadrupled(s, i) {
        4
    } else {
        1
    }
}

/// The bits per pixel of the sprite record `i`.
pub open spec fn sprite_depth(s: Seq<u8>, i: int) -> int {
    depth_of(sprite_props(s, i) % 4)
}

/// The width in pixels of the sprite record `i`.
pub open spec fn sprite_width(s: Seq<u8>, i: int) -> int {
    side_of((sprite_props(s, i) / 16) % 4) * sprite_scale(s, i)
}

/// The height in pixels of the sprite record `i`.
pub open spec fn sprite_height(s: Seq<u8>, i: int) -> int {
    side_of((sprite_props(s, i) / 64) % 4) * sprite_scale(s, i)
}

/// The number of bytes that hold the pixels of the sprite record `i`.
pub open spec fn sprite_byte_count(s: Seq<u8>, i: int) -> int {
    sprite_width(s, i) * sprite_height(s, i) * sprite_depth(s, i) / 8
}

/// The byte of the pool at which the pixels of the sprite record `i` start:
/// its pixel data index times the number of its bytes.
pub open spec fn sprite_pixels_start(s: Seq<u8>, i: int) -> int {
    le_u16(s, SPRITE_SIZE * i) * sprite_byte_count(s, i)
}

/// Whether the pixels of the sprite record `i` lie inside the pool.
pub open spec fn sprite_in_pool(s: Seq<u8>, pool: Seq<u8>, i: int) -> bool {
    sprite_pixels_start(s, i) + sprite_byte_count(s, i) <= pool.len()
}

/// Whether `sprite` is what the sprite record `i` and the pool hold.
pub open spec fn sprite_is(sprite: Sprite, s: Seq<u8>, pool: Seq<u8>, i: int) -> bool {
    &&& sprite.index == i
    &&& sprite.width == sprite_width(s, i)
    &&& sprite.height == sprite_height(s, i)
    &&& sprite.bpp == sprite_depth(s, i)
    &&& sprite.offset_x == le_i16(s, SPRITE_SIZE * i + 2)
    &&& sprite.offset_y == le_i16(s, SPRITE_SIZE * i + 4)
    &&& sprite.is_quadrupled == sprite_quadrupled(s, i)
    &&& sprite.pixels@ == unpacked(
        pool.subrange(
            sprite_pixels_start(s, i),
            sprite_pixels_start(s, i) + sprite_byte_count(s, i),
        ),
        sprite_depth(s, i) as nat,
        (sprite_width(s, i) * sprite_height(s, i)) as nat,
    )
}

fn side(code: u16) -> (pixels: u64)
    requires
        code < 4,
    ensures
        pixels == side_of(code as int),
        pixels == 8 || pixels == 16 || pixels == 32 || pixels == 64,
{
    if code == 0 {
        8
    } else if code == 1 {
        16
    } else if code == 2 {
        32
    } else {
        64
    }
}

/// The sides, the depth and the number of bytes of the pixels of the sprite
/// record `i`, and whether it is quadrupled.
fn record_size(data: &DataView, i: usize) -> (found: (u64, u64, u64, u64, bool))
    requires
        SPRITE_SIZE * i + SPRITE_SIZE <= data.data.len(),
    ensures
        found.0 == sprite_width(data@, i as int),
        found.1 == sprite_height(data@, i as int),
        found.2 == sprite_depth(data@, i as int),
        found.3 == sprite_byte_count(data@, i as int),
        found.4 == sprite_quadrupled(data@, i as int),
        found.0 * found.1 <= 65536,
        found.3 <= 65536,
        found.2 <= 8,
        (found.0 * found.1) * found.2 == 8 * found.3,
{
    let props = data.get_u16(SPRITE_SIZE * i + 6);
    let bpp: u64 = 2 + 2 * ((props % 4) as u64);
    let is_quadrupled = props / 0x8000 == 1;
    let scale: u64 = if is_quadrupled {
        4
    } else {
        1
    };
    let wide = side((props / 16) % 4);
    let high = side((props / 64) % 4);
    assert(wide <= 64 && high <= 64);
    let width: u64 = wide * scale;
    let height: u64 = high * scale;
    assert(width <= 256 && height <= 256);
    assert(width * height <= 65536) by (nonlinear_arith)
        requires
            width <= 256,
            height <= 256,
    ;
    let area: u64 = width * height;
    assert(area * bpp <= 524288) by (nonlinear_arith)
        requires
            area <= 65536,
            bpp <= 8,
    ;
    let byte_count: u64 = area * bpp / 8;
    proof {
        let eighth = width as int / 8;
        assert(wide == 8 || wide == 16 || wide == 32 || wide == 64);
        assert(width == 8 * eighth);
        let whole = eighth * height * bpp;
        assert(area * bpp == 8 * whole) by (nonlinear_arith)
            requires
                area == width * height,
                width == 8 * eighth,
                whole == eighth * height * bpp,
        ;
        assert(byte_count * 8 == area * bpp);
    }
    (width, height, bpp, byte_count, is_quadrupled)
}

/// The sprites of a table of records of eight bytes, with their pixels from
/// the pool. Bytes behind the last whole record are left out.
pub fn get_sprites(data: &DataView, all_pixel_data: &DataView) -> (result: Result<
    Vec<Sprite>,
    Error,
>)
    ensures
        match result {
            Ok(sprites) => {
                &&& sprites@.len() == data@.len() / SPRITE_SIZE as nat
                &&& forall|i: int|
                    0 <= i < sprites@.len() ==> sprite_in_pool(data@, all_pixel_data@, i)
                &&& forall|i: int|
                    0 <= i < sprites@.len() ==> sprite_is(
                        #[trigger] sprites@[i],
                        data@,
                        all_pixel_data@,
                        i,
                    )
            },
            Err(Error::PixelDataNotFound { sprite }) => {
                &&& sprite < data@.len() / SPRITE_SIZE as nat
                &&& !sprite_in_pool(data@, all_pixel_data@, sprite as int)
                &&& forall|i: int| 0 <= i < sprite ==> sprite_in_pool(data@, all_pixel_data@, i)
            },
            Err(_) => false,
        },
{
    let mut sprites: Vec<Sprite> = Vec::new();
    let count = data.len() / SPRITE_SIZE;
    let pool_len = all_pixel_data.len();
    let mut i: usize = 0;
    while i < count
        invariant
            i <= count,
            count == data.data.len() / SPRITE_SIZE,
            pool_len == all_pixel_data.data.len(),
            sprites@.len() == i,
            forall|k: int| 0 <= k < i ==> sprite_in_pool(data@, all_pixel_data@, k),
            forall|k: int|
                0 <= k < i ==> sprite_is(#[trigger] sprites@[k], data@, all_pixel_data@, k),
        decreases count - i,
    {
        let at = SPRITE_SIZE * i;
        let pixel_data_index = data.get_u16(at) as u64;
        let offset_x = data.get_i16(at + 2) as i32;
        let offset_y = data.get_i16(at + 4) as i32;
        let (width, height, bpp, byte_count, is_quadrupled) = record_size(data, i);
        let area: u64 = width * height;
        assert(pixel_data_index * byte_count <= 65535 * 65536) by (nonlinear_arith)
            requires
                pixel_data_index <= 65535,
                byte_count <= 65536,
        ;
        let start: u64 = pixel_data_index * byte_count;
        proof {
            assert(byte_count == sprite_byte_count(data@, i as int));
            assert(start == sprite_pixels_start(data@, i as int));
        }
        if start + byte_count > pool_len as u64 {
            return Err(Error::PixelDataNotFound { sprite: i });
        }
        let pixels = unpack_pixels(
            all_pixel_data,
            start as usize,
            byte_count as usize,
            area as usize,
            bpp as usize,
        );
        sprites.push(
            Sprite {
                index: i,
                width: width as u32,
                height: height as u32,
                bpp: bpp as u32,
                offset_x,
                offset_y,
                is_quadrupled,
                pixels,
            },
        );
        i += 1;
    }
    Ok(sprites)
}

/// The bytes that hold the pixels of a sprite.
pub open spec fn sprite_bytes(sprite: Sprite) -> Seq<u8> {
    packed(sprite.pixels@, sprite.bpp as nat)
}

/// Whether the record of a sprite can hold it: its sides and depth fit a
/// byte, and its offsets 16 bits.
pub open spec fn sprite_writable(sprite: Sprite) -> bool {
    &&& sprite.width <= 0xff
    &&& sprite.height <= 0xff
    &&& sprite.bpp <= 32
    &&& -0x8000 <= sprite.offset_x < 0x8000
    &&& -0x8000 <= sprite.offset_y < 0x8000
}

/// Whether `def` is the record of `sprite`, but for the place of its pixels.
pub open spec fn def_matches(def: SpriteDef, sprite: Sprite) -> bool {
    &&& def.index == sprite.index
    &&& def.offset_x == sprite.offset_x
    &&& def.offset_y == sprite.offset_y
    &&& def.bpp == sprite.bpp
    &&& def.width == sprite.width
    &&& def.height == sprite.height
    &&& def.is_quadrupled == sprite.is_quadrupled
}

/// Whether `bytes` stand in the pool as the chunk of number `index` among
/// chunks of their own length.
pub open spec fn stored_at(pool: Seq<u8>, index: int, bytes: Seq<u8>) -> bool {
    &&& 0 <= index
    &&& index * bytes.len() + bytes.len() <= pool.len()
    &&& pool.subrange(index * bytes.len(), index * bytes.len() + bytes.len()) == bytes
}

/// What stands in a pool stands in every pool that begins with it.
pub proof fn lemma_stored_stays(pool: Seq<u8>, grown: Seq<u8>, index: int, bytes: Seq<u8>)
    requires
        stored_at(pool, index, bytes),
        pool.len() <= grown.len(),
        grown.subrange(0, pool.len() as int) == pool,
    ensures
        stored_at(grown, index, bytes),
{
    let from = index * bytes.len();
    let to = from + bytes.len();
    assert(0 <= from) by (nonlinear_arith)
        requires
            0 <= index,
            from == index * bytes.len(),
    ;
    assert(grown.subrange(from, to) =~= grown.subrange(0, pool.len() as int).subrange(from, to));
}

/// The order in which sprites are put into the pool: larger first.
pub open spec fn sprite_key(sprite: Sprite) -> int {
    sprite.width * sprite.height * sprite.bpp
}

/// The byte at which the first whole chunk of the pool from byte `start` on
/// stands that holds `bytes`, among chunks of their length; none where no
/// such chunk holds them.
pub open spec fn found_from(pool: Seq<u8>, bytes: Seq<u8>, start: int) -> Option<int>
    decreases pool.len() - start,
{
    if bytes.len() == 0 || start < 0 || start + bytes.len() > pool.len() {
        None
    } else if pool.subrange(start, start + bytes.len()) == bytes {
        Some(start)
    } else {
        found_from(pool, bytes, start + bytes.len())
    }
}

/// The number of zero bytes that bring the pool to a multiple of `len`.
pub open spec fn pool_gap(pool: Seq<u8>, len: int) -> int {
    (len - (pool.len() as int) % len) % len
}

/// The byte at which `bytes` stand once they are put into the pool: where
/// the first whole chunk holds them, or else behind the pool, at the next
/// multiple of their length.
pub open spec fn chunk_start(pool: Seq<u8>, bytes: Seq<u8>) -> int {
    if bytes.len() == 0 {
        0
    } else {
        match found_from(pool, bytes, 0) {
            Some(start) => start,
            None => pool.len() + pool_gap(pool, bytes.len() as int),
        }
    }
}

/// The number of the chunk in which `bytes` stand once they are put into
/// the pool.
pub open spec fn chunk_place(pool: Seq<u8>, bytes: Seq<u8>) -> int {
    if bytes.len() == 0 {
        0
    } else {
        chunk_start(pool, bytes) / (bytes.len() as int)
    }
}

/// The pool with `bytes` put into it: as it is where a whole chunk holds
/// them already, and else with zero bytes up to the next multiple of their
/// length and the bytes behind that.
pub open spec fn pool_with(pool: Seq<u8>, bytes: Seq<u8>) -> Seq<u8> {
    if bytes.len() == 0 || found_from(pool, bytes, 0) is Some {
        pool
    } else {
        pool + Seq::new(pool_gap(pool, bytes.len() as int) as nat, |k: int| 0u8) + bytes
    }
}

/// Puts `bytes` into the pool, or finds them there, as a chunk among chunks
/// of their own length, and gives the number of that chunk.
pub fn store_chunk(pool: &mut Vec<u8>, bytes: &Vec<u8>) -> (result: Result<u16, Error>)
    ensures
        old(pool)@.len() <= final(pool)@.len(),
        final(pool)@.subrange(0, old(pool)@.len() as int) == old(pool)@,
        match result {
            Ok(index) => {
                &&& index == chunk_place(old(pool)@, bytes@)
                &&& final(pool)@ == pool_with(old(pool)@, bytes@)
                &&& stored_at(final(pool)@, index as int, bytes@)
            },
            Err(Error::SizeExceeded { size, limit }) => {
                &&& limit == 0xffff
                &&& size == chunk_place(old(pool)@, bytes@)
                &&& size > limit
                &&& final(pool)@ == old(pool)@
            },
            Err(_) => false,
        },
{
    let len = bytes.len();
    assert(pool@.subrange(0, pool@.len() as int) =~= pool@);
    if len == 0 {
        assert(pool@.subrange(0, 0) =~= bytes@);
        return Ok(0);
    }
    let mut index: usize = 0;
    let mut start: usize = 0;
    while pool.len() - start >= len
        invariant
            len == bytes.len(),
            len > 0,
            start == index * len,
            start <= pool.len(),
            index <= start,
            pool@ == old(pool)@,
            found_from(pool@, bytes@, 0) == found_from(pool@, bytes@, start as int),
        decreases pool.len() - start,
    {
        let mut k: usize = 0;
        while k < len && pool[start + k] == bytes[k]
            invariant
                k <= len,
                len == bytes.len(),
                start + len <= pool.len(),
                forall|j: int| 0 <= j < k ==> pool@[start + j] == bytes@[j],
            decreases len - k,
        {
            k += 1;
        }
        if k == len {
            proof {
                assert(pool@.subrange(start as int, start + len) =~= bytes@);
                vstd::arithmetic::div_mod::lemma_fundamental_div_mod_converse(
                    start as int,
                    len as int,
                    index as int,
                    0,
                );
            }
            if index > 0xffff {
                return Err(Error::SizeExceeded { size: index, limit: 0xffff });
            }
            return Ok(index as u16);
        }
        proof {
            assert((index + 1) * len == index * len + len) by (nonlinear_arith);
            assert(pool@.subrange(start as int, start + len)[k as int] != bytes@[k as int]);
        }
        index += 1;
        start += len;
    }
    // No whole chunk is equal: the bytes go behind what is there, at the next
    // place that is a multiple of their length.
    let ghost rest = pool.len() - start;
    proof {
        assert(found_from(pool@, bytes@, 0) is None);
        vstd::arithmetic::div_mod::lemma_fundamental_div_mod_converse(
            pool.len() as int,
            len as int,
            index as int,
            rest as int,
        );
        assert(pool.len() % len == rest);
    }
    let gap = if start < pool.len() {
        proof {
            assert((index + 1) * len == index * len + len) by (nonlinear_arith);
            vstd::arithmetic::div_mod::lemma_small_mod((len - rest) as nat, len as nat);
        }
        index += 1;
        len - (pool.len() - start)
    } else {
        proof {
            vstd::arithmetic::div_mod::lemma_mod_self_0(len as int);
        }
        0
    };
    proof {
        assert(gap == pool_gap(pool@, len as int));
        assert(pool.len() + gap == index * len);
        vstd::arithmetic::div_mod::lemma_fundamental_div_mod_converse(
            pool.len() + gap,
            len as int,
            index as int,
            0,
        );
    }
    if index > 0xffff {
        return Err(Error::SizeExceeded { size: index, limit: 0xffff });
    }
    push_fill(pool, 0, gap);
    let ghost filled = pool@;
    push_all(pool, bytes.as_slice());
    proof {
        assert(filled.len() == index * len);
        assert(pool@.subrange(index * len, index * len + len) =~= bytes@);
        assert(pool@.subrange(0, old(pool)@.len() as int) =~= old(pool)@);
    }
    Ok(index as u16)
}

/// Whether the pool holds the pixels of every sprite where its record says:
/// each sprite has a record, in the same order, and its bytes stand in the
/// pool as the chunk that the record names.
pub open spec fn pool_holds(pool: Seq<u8>, defs: Seq<SpriteDef>, sprites: Seq<Sprite>) -> bool {
    &&& defs.len() == sprites.len()
    &&& forall|i: int| 0 <= i < sprites.len() ==> sprite_writable(sprites[i])
    &&& forall|i: int| 0 <= i < defs.len() ==> def_matches(#[trigger] defs[i], sprites[i])
    &&& forall|i: int|
        0 <= i < defs.len() ==> stored_at(
            pool,
            (#[trigger] defs[i]).pixel_data_index as int,
            sprite_bytes(sprites[i]),
        )
}

/// The pool after the first `i` sprites are gone through, of which those
/// with the key `key` are put into it.
pub open spec fn pool_round(pool: Seq<u8>, sprites: Seq<Sprite>, key: int, i: int) -> Seq<u8>
    decreases i,
{
    if i <= 0 {
        pool
    } else {
        let before = pool_round(pool, sprites, key, i - 1);
        if sprite_key(sprites[i - 1]) == key {
            pool_with(before, sprite_bytes(sprites[i - 1]))
        } else {
            before
        }
    }
}

/// The pool that holds the sprites with a key of `bound` or more: larger
/// sprites go into the pool first, and sprites of one key in the order
/// given.
pub open spec fn pool_above(sprites: Seq<Sprite>, bound: int) -> Seq<u8>
    decreases 0x100_0000 - bound,
{
    if bound >= 0x100_0000 {
        Seq::empty()
    } else {
        pool_round(pool_above(sprites, bound + 1), sprites, bound, sprites.len() as int)
    }
}

/// The pool of the pixels of all sprites.
pub open spec fn pixel_pool(sprites: Seq<Sprite>) -> Seq<u8> {
    pool_above(sprites, 0)
}

/// The pool as it is when sprite `i` is put into it.
pub open spec fn pool_before(sprites: Seq<Sprite>, i: int) -> Seq<u8> {
    pool_round(
        pool_above(sprites, sprite_key(sprites[i]) + 1),
        sprites,
        sprite_key(sprites[i]),
        i,
    )
}

/// The number of the chunk of the pool in which the pixels of sprite `i`
/// stand.
pub open spec fn chunk_index(sprites: Seq<Sprite>, i: int) -> int {
    chunk_place(pool_before(sprites, i), sprite_bytes(sprites[i]))
}

/// Whether the number of the chunk of every sprite fits 16 bits.
pub open spec fn pool_fits(sprites: Seq<Sprite>) -> bool {
    forall|i: int| 0 <= i < sprites.len() ==> #[trigger] chunk_index(sprites, i) <= 0xffff
}

/// A round puts nothing into the pool where no sprite has its key.
pub proof fn lemma_round_skips(pool: Seq<u8>, sprites: Seq<Sprite>, key: int, i: int)
    requires
        0 <= i <= sprites.len(),
        forall|k: int| 0 <= k < i ==> sprite_key(#[trigger] sprites[k]) != key,
    ensures
        pool_round(pool, sprites, key, i) == pool,
    decreases i,
{
    if i > 0 {
        lemma_round_skips(pool, sprites, key, i - 1);
    }
}

/// The pool does not change over keys that no sprite has.
pub proof fn lemma_above_skips(sprites: Seq<Sprite>, low: int, high: int)
    requires
        0 <= low <= high <= 0x100_0000,
        forall|k: int|
            0 <= k < sprites.len() ==> !(low <= sprite_key(#[trigger] sprites[k]) < high),
    ensures
        pool_above(sprites, low) == pool_above(sprites, high),
    decreases high - low,
{
    if low < high {
        lemma_above_skips(sprites, low + 1, high);
        lemma_round_skips(pool_above(sprites, low + 1), sprites, low, sprites.len() as int);
    }
}

/// Sprites that all have the key `key` go into the pool in the order given:
/// the pool is what a single round over them leaves, and each sprite is put
/// into what the round leaves of the sprites before it.
pub proof fn lemma_pool_of_one_key(sprites: Seq<Sprite>, key: int)
    requires
        0 <= key < 0x100_0000,
        forall|k: int| 0 <= k < sprites.len() ==> sprite_key(#[trigger] sprites[k]) == key,
    ensures
        pixel_pool(sprites) == pool_round(Seq::empty(), sprites, key, sprites.len() as int),
        forall|i: int|
            0 <= i < sprites.len() ==> #[trigger] pool_before(sprites, i) == pool_round(
                Seq::empty(),
                sprites,
                key,
                i,
            ),
{
    lemma_above_skips(sprites, key + 1, 0x100_0000);
    lemma_above_skips(sprites, 0, key);
    assert(pool_above(sprites, 0x100_0000) =~= Seq::<u8>::empty());
    assert(pool_above(sprites, key) == pool_round(
        pool_above(sprites, key + 1),
        sprites,
        key,
        sprites.len() as int,
    ));
}

/// The first sprite of those with the largest key goes into the empty pool:
/// its bytes are the first of the pool, in chunk zero.
pub proof fn lemma_first_chunk(sprites: Seq<Sprite>, i: int)
    requires
        0 <= i < sprites.len(),
        0 <= sprite_key(sprites[i]) < 0x100_0000,
        forall|k: int|
            0 <= k < sprites.len() ==> sprite_key(#[trigger] sprites[k]) <= sprite_key(sprites[i]),
        forall|k: int| 0 <= k < i ==> sprite_key(#[trigger] sprites[k]) < sprite_key(sprites[i]),
    ensures
        pool_before(sprites, i) == Seq::<u8>::empty(),
        chunk_index(sprites, i) == 0,
        pool_with(pool_before(sprites, i), sprite_bytes(sprites[i])) == sprite_bytes(sprites[i]),
{
    let key = sprite_key(sprites[i]);
    lemma_above_skips(sprites, key + 1, 0x100_0000);
    assert(pool_above(sprites, 0x100_0000) =~= Seq::<u8>::empty());
    lemma_round_skips(Seq::empty(), sprites, key, i);
    let bytes = sprite_bytes(sprites[i]);
    let empty = Seq::<u8>::empty();
    if bytes.len() > 0 {
        assert(found_from(empty, bytes, 0) is None);
        assert(pool_gap(empty, bytes.len() as int) == 0) by {
            vstd::arithmetic::div_mod::lemma_mod_self_0(bytes.len() as int);
            vstd::arithmetic::div_mod::lemma_small_mod(0, bytes.len());
        }
        assert(pool_with(empty, bytes) =~= bytes);
        assert(0int / (bytes.len() as int) == 0) by {
            vstd::arithmetic::div_mod::lemma_div_basics(bytes.len() as int);
        }
    } else {
        assert(pool_with(empty, bytes) =~= bytes);
    }
}

/// Whether `pool` begins with `front`.
pub open spec fn pool_starts(pool: Seq<u8>, front: Seq<u8>) -> bool {
    front.len() <= pool.len() && pool.subrange(0, front.len() as int) == front
}

/// A pool that begins with a pool that begins with `front` begins with
/// `front`.
pub proof fn lemma_pool_starts_carries(front: Seq<u8>, middle: Seq<u8>, pool: Seq<u8>)
    requires
        pool_starts(middle, front),
        pool_starts(pool, middle),
    ensures
        pool_starts(pool, front),
{
    assert(pool.subrange(0, front.len() as int) =~= pool.subrange(
        0,
        middle.len() as int,
    ).subrange(0, front.len() as int));
}

/// Putting bytes into a pool leaves what was there in front.
pub proof fn lemma_pool_with_grows(pool: Seq<u8>, bytes: Seq<u8>)
    ensures
        pool_starts(pool_with(pool, bytes), pool),
{
    if bytes.len() > 0 {
        vstd::arithmetic::div_mod::lemma_mod_bound(
            (bytes.len() as int) - (pool.len() as int) % (bytes.len() as int),
            bytes.len() as int,
        );
    }
    assert(pool_with(pool, bytes).subrange(0, pool.len() as int) =~= pool);
}

/// A round leaves in front what the sprites before left.
pub proof fn lemma_round_grows(pool: Seq<u8>, sprites: Seq<Sprite>, key: int, a: int, b: int)
    requires
        0 <= a <= b,
    ensures
        pool_starts(pool_round(pool, sprites, key, b), pool_round(pool, sprites, key, a)),
    decreases b - a,
{
    let front = pool_round(pool, sprites, key, a);
    if a < b {
        lemma_round_grows(pool, sprites, key, a, b - 1);
        let before = pool_round(pool, sprites, key, b - 1);
        lemma_pool_with_grows(before, sprite_bytes(sprites[b - 1]));
        assert(pool_starts(before, before)) by {
            assert(before.subrange(0, before.len() as int) =~= before);
        }
        lemma_pool_starts_carries(front, before, pool_round(pool, sprites, key, b));
    } else {
        assert(front.subrange(0, front.len() as int) =~= front);
    }
}

/// The pool of the sprites with smaller keys has in front the pool of those
/// with larger keys.
pub proof fn lemma_above_grows(sprites: Seq<Sprite>, low: int, high: int)
    requires
        0 <= low <= high,
    ensures
        pool_starts(pool_above(sprites, low), pool_above(sprites, high)),
    decreases high - low,
{
    let front = pool_above(sprites, high);
    if low < high {
        lemma_above_grows(sprites, low + 1, high);
        if low < 0x100_0000 {
            lemma_round_grows(
                pool_above(sprites, low + 1),
                sprites,
                low,
                0,
                sprites.len() as int,
            );
            lemma_pool_starts_carries(front, pool_above(sprites, low + 1), pool_above(sprites, low));
        } else {
            assert(front.subrange(0, front.len() as int) =~= front);
        }
    } else {
        assert(front.subrange(0, front.len() as int) =~= front);
    }
}

/// The first whole chunk that holds `bytes` stays the first in every pool
/// that begins with the pool.
pub proof fn lemma_found_stays(pool: Seq<u8>, grown: Seq<u8>, bytes: Seq<u8>, from: int, start: int)
    requires
        pool_starts(grown, pool),
        0 <= from,
        found_from(pool, bytes, from) == Some(start),
    ensures
        found_from(grown, bytes, from) == Some(start),
    decreases pool.len() - from,
{
    let len = bytes.len() as int;
    let wide = grown.subrange(from, from + len);
    let part = pool.subrange(from, from + len);
    assert forall|k: int| 0 <= k < len implies #[trigger] wide[k] == part[k] by {
        assert(grown.subrange(0, pool.len() as int)[from + k] == pool[from + k]);
    }
    assert(wide =~= part);
    if pool.subrange(from, from + len) != bytes {
        lemma_found_stays(pool, grown, bytes, from + len, start);
    }
}

/// In a pool to which `bytes` were put at a multiple of their length, where
/// no whole chunk held them, they are first found where they were put.
pub proof fn lemma_found_behind(pool: Seq<u8>, bytes: Seq<u8>, from: int)
    requires
        bytes.len() > 0,
        0 <= from <= pool.len(),
        (pool.len() - from) % (bytes.len() as int) == 0,
        found_from(pool, bytes, from) is None,
    ensures
        found_from(pool + bytes, bytes, from) == Some(pool.len() as int),
    decreases pool.len() - from,
{
    let len = bytes.len() as int;
    let grown = pool + bytes;
    if from == pool.len() {
        assert(grown.subrange(from, from + len) =~= bytes);
    } else {
        assert(from + len <= pool.len()) by {
            if from + len > pool.len() {
                vstd::arithmetic::div_mod::lemma_small_mod((pool.len() - from) as nat, len as nat);
            }
        }
        assert(grown.subrange(from, from + len) =~= pool.subrange(from, from + len));
        assert((pool.len() - (from + len)) % len == 0) by {
            vstd::arithmetic::div_mod::lemma_mod_sub_multiples_vanish(pool.len() - from, len);
        }
        lemma_found_behind(pool, bytes, from + len);
    }
}

/// Whether sprite `i` is put into the pool before sprite `j`: it has the
/// larger key, or the same key and stands in front.
pub open spec fn stored_before(sprites: Seq<Sprite>, i: int, j: int) -> bool {
    sprite_key(sprites[i]) > sprite_key(sprites[j]) || (sprite_key(sprites[i]) == sprite_key(
        sprites[j],
    ) && i < j)
}

/// When a later sprite is put into the pool, the pool has in front what the
/// earlier sprite left.
pub proof fn lemma_pool_before_grows(sprites: Seq<Sprite>, i: int, j: int)
    requires
        0 <= i < sprites.len(),
        0 <= j < sprites.len(),
        0 <= sprite_key(sprites[j]),
        sprite_key(sprites[i]) < 0x100_0000,
        stored_before(sprites, i, j),
    ensures
        pool_starts(
            pool_before(sprites, j),
            pool_with(pool_before(sprites, i), sprite_bytes(sprites[i])),
        ),
{
    let key_i = sprite_key(sprites[i]);
    let key_j = sprite_key(sprites[j]);
    let after = pool_with(pool_before(sprites, i), sprite_bytes(sprites[i]));
    let base = pool_above(sprites, key_i + 1);
    assert(after == pool_round(base, sprites, key_i, i + 1));
    if key_i == key_j {
        lemma_round_grows(base, sprites, key_i, i + 1, j);
    } else {
        lemma_round_grows(base, sprites, key_i, i + 1, sprites.len() as int);
        assert(pool_above(sprites, key_i) == pool_round(base, sprites, key_i, sprites.len() as int));
        lemma_above_grows(sprites, key_j + 1, key_i);
        lemma_round_grows(pool_above(sprites, key_j + 1), sprites, key_j, 0, j);
        lemma_pool_starts_carries(after, pool_above(sprites, key_i), pool_above(sprites, key_j + 1));
        lemma_pool_starts_carries(after, pool_above(sprites, key_j + 1), pool_before(sprites, j));
    }
}

/// Sprites with the same bytes share a chunk: a sprite that is put into the
/// pool behind one with the same bytes gets the chunk of that one, where
/// that one found its bytes in the pool or was put at the end of a pool that
/// was a multiple of its length long.
pub proof fn lemma_equal_sprites_share(sprites: Seq<Sprite>, i: int, j: int)
    requires
        0 <= i < sprites.len(),
        0 <= j < sprites.len(),
        0 <= sprite_key(sprites[j]),
        sprite_key(sprites[i]) < 0x100_0000,
        stored_before(sprites, i, j),
        sprite_bytes(sprites[i]) == sprite_bytes(sprites[j]),
        found_from(pool_before(sprites, i), sprite_bytes(sprites[i]), 0) is Some || pool_gap(
            pool_before(sprites, i),
            sprite_bytes(sprites[i]).len() as int,
        ) == 0,
    ensures
        chunk_index(sprites, j) == chunk_index(sprites, i),
        pool_with(pool_before(sprites, j), sprite_bytes(sprites[j])) == pool_before(sprites, j),
{
    let bytes = sprite_bytes(sprites[i]);
    let pool = pool_before(sprites, i);
    let after = pool_with(pool, bytes);
    lemma_pool_before_grows(sprites, i, j);
    if bytes.len() > 0 {
        let len = bytes.len() as int;
        if found_from(pool, bytes, 0) is Some {
            let start = found_from(pool, bytes, 0)->Some_0;
            lemma_found_stays(pool, pool_before(sprites, j), bytes, 0, start);
        } else {
            assert(after =~= pool + bytes);
            let size = pool.len() as int;
            assert(size % len == 0) by {
                vstd::arithmetic::div_mod::lemma_mod_bound(size, len);
                if size % len != 0 {
                    vstd::arithmetic::div_mod::lemma_small_mod(
                        (len - size % len) as nat,
                        len as nat,
                    );
                }
            }
            lemma_found_behind(pool, bytes, 0);
            lemma_found_stays(after, pool_before(sprites, j), bytes, 0, pool.len() as int);
        }
    }
}

/// The place among the first `k` of `order` behind which a sprite of the
/// number `index` goes: behind the last whose number is not larger.
pub open spec fn place_for(sprites: Seq<Sprite>, order: Seq<int>, index: usize, k: int) -> int
    decreases k,
{
    if k <= 0 {
        0
    } else if sprites[order[k - 1]].index > index {
        place_for(sprites, order, index, k - 1)
    } else {
        k
    }
}

/// The first `n` sprites in the order of their numbers: the smallest number
/// first, and sprites of one number in the order given. Each place of the
/// result names a sprite.
pub open spec fn index_order(sprites: Seq<Sprite>, n: int) -> Seq<int>
    decreases n,
{
    if n <= 0 {
        Seq::empty()
    } else {
        let before = index_order(sprites, n - 1);
        before.insert(
            place_for(sprites, before, sprites[n - 1].index, before.len() as int),
            n - 1,
        )
    }
}

/// Where a sprite goes: behind sprites whose numbers are not larger, in
/// front of sprites whose numbers are larger.
pub proof fn lemma_place_for(sprites: Seq<Sprite>, order: Seq<int>, index: usize, k: int)
    requires
        0 <= k <= order.len(),
    ensures
        0 <= place_for(sprites, order, index, k) <= k,
        forall|j: int|
            place_for(sprites, order, index, k) <= j < k ==> sprites[#[trigger] order[j]].index
                > index,
        place_for(sprites, order, index, k) > 0 ==> sprites[order[place_for(
            sprites,
            order,
            index,
            k,
        ) - 1]].index <= index,
    decreases k,
{
    if k > 0 && sprites[order[k - 1]].index > index {
        lemma_place_for(sprites, order, index, k - 1);
    }
}

/// The order of the first `n` sprites names each of them once, and the
/// numbers of the sprites grow along it.
pub proof fn lemma_index_order(sprites: Seq<Sprite>, n: int)
    requires
        0 <= n <= sprites.len(),
    ensures
        index_order(sprites, n).len() == n,
        forall|k: int| 0 <= k < n ==> 0 <= #[trigger] index_order(sprites, n)[k] < n,
        forall|a: int, b: int|
            0 <= a < b < n ==> #[trigger] index_order(sprites, n)[a] != #[trigger] index_order(
                sprites,
                n,
            )[b],
        forall|i: int| 0 <= i < n ==> index_order(sprites, n).contains(i),
        forall|a: int, b: int|
            0 <= a < b < n ==> sprites[#[trigger] index_order(sprites, n)[a]].index
                <= sprites[#[trigger] index_order(sprites, n)[b]].index,
    decreases n,
{
    if n > 0 {
        lemma_index_order(sprites, n - 1);
        let before = index_order(sprites, n - 1);
        let index = sprites[n - 1].index;
        let at = place_for(sprites, before, index, before.len() as int);
        lemma_place_for(sprites, before, index, before.len() as int);
        let order = index_order(sprites, n);
        assert(order == before.insert(at, n - 1));
        assert forall|k: int| 0 <= k < n implies 0 <= #[trigger] order[k] < n by {
            if k < at {
                assert(order[k] == before[k]);
            } else if k > at {
                assert(order[k] == before[k - 1]);
            }
        }
        assert forall|a: int, b: int| 0 <= a < b < n implies #[trigger] order[a]
            != #[trigger] order[b] && sprites[order[a]].index <= sprites[order[b]].index by {
            let x = if a < at {
                before[a]
            } else if a == at {
                n - 1
            } else {
                before[a - 1]
            };
            let y = if b < at {
                before[b]
            } else if b == at {
                n - 1
            } else {
                before[b - 1]
            };
            assert(order[a] == x && order[b] == y);
            if b == at {
                assert(sprites[before[at - 1]].index <= index);
                if a < at - 1 {
                    assert(sprites[before[a]].index <= sprites[before[at - 1]].index);
                }
            } else if a == at {
                assert(sprites[before[b - 1]].index > index);
            } else if a < at && b > at {
                assert(sprites[before[a]].index <= sprites[before[b - 1]].index);
            }
        }
        assert forall|i: int| 0 <= i < n implies order.contains(i) by {
            if i == n - 1 {
                assert(order[at] == i);
            } else {
                assert(before.contains(i));
                let k = choose|k: int| 0 <= k < before.len() && before[k] == i;
                if k < at {
                    assert(order[k] == i);
                } else {
                    assert(order[k + 1] == i);
                }
            }
        }
    }
}

/// Sprites whose numbers grow along the order given stay in that order.
pub proof fn lemma_index_order_kept(sprites: Seq<Sprite>, n: int)
    requires
        0 <= n <= sprites.len(),
        forall|a: int, b: int|
            0 <= a < b < n ==> (#[trigger] sprites[a]).index <= (#[trigger] sprites[b]).index,
    ensures
        index_order(sprites, n) == Seq::new(n as nat, |k: int| k),
    decreases n,
{
    if n > 0 {
        lemma_index_order_kept(sprites, n - 1);
        let before = index_order(sprites, n - 1);
        let index = sprites[n - 1].index;
        if n - 1 > 0 {
            assert(before[n - 2] == n - 2);
            assert(sprites[n - 2].index <= sprites[n - 1].index);
        }
        assert(place_for(sprites, before, index, n - 1) == n - 1);
        assert(index_order(sprites, n) =~= Seq::new(n as nat, |k: int| k));
    }
}

/// The record of a sprite whose pixels stand in chunk `place` of the pool.
pub open spec fn def_of(sprite: Sprite, place: int) -> SpriteDef {
    SpriteDef {
        index: sprite.index,
        pixel_data_index: place as u16,
        offset_x: sprite.offset_x as i16,
        offset_y: sprite.offset_y as i16,
        bpp: sprite.bpp as u8,
        width: sprite.width as u8,
        height: sprite.height as u8,
        is_quadrupled: sprite.is_quadrupled,
    }
}

/// Whether no two sprites have the same number.
pub open spec fn numbers_differ(sprites: Seq<Sprite>) -> bool {
    forall|i: int, j: int|
        0 <= i < j < sprites.len() ==> (#[trigger] sprites[i]).index != (
        #[trigger] sprites[j]).index
}

/// Whether `def` is one of the records.
pub open spec fn has_record(defs: Seq<SpriteDef>, def: SpriteDef) -> bool {
    exists|k: int| 0 <= k < defs.len() && #[trigger] defs[k] == def
}

/// Whether `pool` and `defs` are what is written for the sprites: the pool
/// is the pool of their pixels, each chunk number fits 16 bits, the records
/// are those of the sprites in the order of their numbers, and the bytes of
/// each sprite stand in the pool in the chunk of its number.
pub open spec fn pixels_saved(pool: Seq<u8>, defs: Seq<SpriteDef>, sprites: Seq<Sprite>) -> bool {
    let order = index_order(sprites, sprites.len() as int);
    &&& forall|i: int| 0 <= i < sprites.len() ==> sprite_writable(sprites[i])
    &&& pool_fits(sprites)
    &&& pool == pixel_pool(sprites)
    &&& defs.len() == sprites.len()
    &&& forall|k: int|
        0 <= k < defs.len() ==> #[trigger] defs[k] == def_of(
            sprites[order[k]],
            chunk_index(sprites, order[k]),
        )
    &&& forall|i: int|
        0 <= i < sprites.len() ==> stored_at(
            pool,
            #[trigger] chunk_index(sprites, i),
            sprite_bytes(sprites[i]),
        )
}

/// What is written for sprites whose numbers grow along the order given
/// holds the pixels of each sprite where the record at its place says.
pub proof fn lemma_saved_in_order(pool: Seq<u8>, defs: Seq<SpriteDef>, sprites: Seq<Sprite>)
    requires
        pixels_saved(pool, defs, sprites),
        forall|a: int, b: int|
            0 <= a < b < sprites.len() ==> (#[trigger] sprites[a]).index <= (
            #[trigger] sprites[b]).index,
    ensures
        pool_holds(pool, defs, sprites),
        forall|i: int|
            0 <= i < defs.len() ==> (#[trigger] defs[i]).pixel_data_index == chunk_index(
                sprites,
                i,
            ),
{
    lemma_index_order_kept(sprites, sprites.len() as int);
    assert forall|i: int| 0 <= i < defs.len() implies def_matches(#[trigger] defs[i], sprites[i])
        && stored_at(pool, defs[i].pixel_data_index as int, sprite_bytes(sprites[i]))
        && defs[i].pixel_data_index == chunk_index(sprites, i) by {
        assert(sprite_writable(sprites[i]));
        assert(chunk_index(sprites, i) <= 0xffff);
        assert(stored_at(pool, chunk_index(sprites, i), sprite_bytes(sprites[i])));
    }
}

/// The pool of the pixels of all sprites, and the records of the sprites in
/// the order of their numbers. Larger sprites go into the pool first; a
/// sprite whose bytes stand in the pool already, as a chunk among chunks of
/// its own length, shares them.
pub fn save_pixel_data(sprites: &[Sprite]) -> (result: Result<(Vec<u8>, Vec<SpriteDef>), Error>)
    ensures
        match result {
            Ok((pool, defs)) => {
                &&& pixels_saved(pool@, defs@, sprites@)
                &&& forall|a: int, b: int|
                    0 <= a < b < defs@.len() ==> (#[trigger] defs@[a]).index <= (
                    #[trigger] defs@[b]).index
                &&& forall|i: int|
                    0 <= i < sprites@.len() ==> has_record(
                        defs@,
                        #[trigger] def_of(sprites@[i], chunk_index(sprites@, i)),
                    )
                &&& numbers_differ(sprites@) ==> forall|a: int, b: int|
                    0 <= a < b < defs@.len() ==> (#[trigger] defs@[a]).index < (
                    #[trigger] defs@[b]).index
            },
            Err(Error::InvalidSprite { sprite }) => {
                &&& sprite < sprites@.len()
                &&& !sprite_writable(sprites@[sprite as int])
                &&& forall|i: int| 0 <= i < sprite ==> sprite_writable(sprites@[i])
            },
            Err(Error::SizeExceeded { size, limit }) => {
                &&& forall|i: int| 0 <= i < sprites@.len() ==> sprite_writable(sprites@[i])
                &&& limit == 0xffff
                &&& size > limit
                &&& exists|i: int|
                    0 <= i < sprites@.len() && size == #[trigger] chunk_index(sprites@, i)
            },
            Err(_) => false,
        },
{
    let n = sprites.len();
    let mut keys: Vec<u64> = Vec::new();
    let mut places: Vec<Option<u16>> = Vec::new();
    let mut i: usize = 0;
    while i < n
        invariant
            i <= n,
            n == sprites@.len(),
            keys@.len() == i,
            places@.len() == i,
            forall|k: int| 0 <= k < i ==> sprite_writable(sprites@[k]),
            forall|k: int| 0 <= k < i ==> #[trigger] keys@[k] == sprite_key(sprites@[k]),
            forall|k: int| 0 <= k < i ==> #[trigger] keys@[k] < 0x100_0000,
            forall|k: int| 0 <= k < i ==> (#[trigger] places@[k]) is None,
        decreases n - i,
    {
        let sprite = &sprites[i];
        if sprite.width > 0xff || sprite.height > 0xff || sprite.bpp > 32 || sprite.offset_x
            < -0x8000 || sprite.offset_x >= 0x8000 || sprite.offset_y < -0x8000 || sprite.offset_y
            >= 0x8000 {
            return Err(Error::InvalidSprite { sprite: i });
        }
        let w = sprite.width as u64;
        let h = sprite.height as u64;
        let d = sprite.bpp as u64;
        assert(w * h * d < 0x100_0000) by (nonlinear_arith)
            requires
                w <= 0xff,
                h <= 0xff,
                d <= 32,
        ;
        assert(w * h <= 0xff * 0xff) by (nonlinear_arith)
            requires
                w <= 0xff,
                h <= 0xff,
        ;
        keys.push(w * h * d);
        places.push(None);
        i += 1;
    }
    let mut pool: Vec<u8> = Vec::new();
    let mut bound: u64 = 0x100_0000;
    loop
        invariant
            n == sprites@.len(),
            keys@.len() == n,
            places@.len() == n,
            bound <= 0x100_0000,
            pool@ == pool_above(sprites@, bound as int),
            forall|k: int| 0 <= k < n ==> sprite_writable(sprites@[k]),
            forall|k: int| 0 <= k < n ==> #[trigger] keys@[k] == sprite_key(sprites@[k]),
            forall|k: int| 0 <= k < n ==> #[trigger] keys@[k] < 0x100_0000,
            forall|k: int| 0 <= k < n && keys@[k] < bound ==> (#[trigger] places@[k]) is None,
            forall|k: int|
                0 <= k < n && keys@[k] >= bound ==> (#[trigger] places@[k]) is Some
                    && places@[k]->Some_0 == chunk_index(sprites@, k),
            forall|k: int|
                0 <= k < n && (#[trigger] places@[k]) is Some ==> stored_at(
                    pool@,
                    places@[k]->Some_0 as int,
                    sprite_bytes(sprites@[k]),
                ),
        ensures
            pool@ == pixel_pool(sprites@),
            forall|k: int|
                0 <= k < n ==> (#[trigger] places@[k]) is Some && places@[k]->Some_0
                    == chunk_index(sprites@, k),
            forall|k: int|
                0 <= k < n && (#[trigger] places@[k]) is Some ==> stored_at(
                    pool@,
                    places@[k]->Some_0 as int,
                    sprite_bytes(sprites@[k]),
                ),
        decreases bound,
    {
        // The largest of the sprites not yet in the pool.
        let mut largest: Option<u64> = None;
        let mut i: usize = 0;
        while i < n
            invariant
                i <= n,
                keys@.len() == n,
                largest is Some ==> largest->Some_0 < bound && exists|k: int|
                    0 <= k < i && #[trigger] keys@[k] == largest->Some_0,
                forall|k: int|
                    0 <= k < i && #[trigger] keys@[k] < bound ==> largest is Some && keys@[k]
                        <= largest->Some_0,
            decreases n - i,
        {
            if keys[i] < bound {
                largest = match largest {
                    Some(m) => if keys[i] > m {
                        Some(keys[i])
                    } else {
                        Some(m)
                    },
                    None => Some(keys[i]),
                };
            }
            i += 1;
        }
        let next = match largest {
            Some(m) => m,
            None => {
                proof {
                    assert forall|k: int| 0 <= k < n implies !(0 <= sprite_key(
                        #[trigger] sprites@[k],
                    ) < bound) by {
                        assert(keys@[k] == sprite_key(sprites@[k]));
                    }
                    lemma_above_skips(sprites@, 0, bound as int);
                }
                break ;
            },
        };
        proof {
            assert forall|k: int| 0 <= k < n implies !(next + 1 <= sprite_key(
                #[trigger] sprites@[k],
            ) < bound) by {
                assert(keys@[k] == sprite_key(sprites@[k]));
            }
            lemma_above_skips(sprites@, next + 1, bound as int);
        }
        let mut i: usize = 0;
        while i < n
            invariant
                i <= n,
                n == sprites@.len(),
                keys@.len() == n,
                places@.len() == n,
                next < bound,
                bound <= 0x100_0000,
                pool@ == pool_round(
                    pool_above(sprites@, next + 1),
                    sprites@,
                    next as int,
                    i as int,
                ),
                forall|k: int| 0 <= k < n ==> sprite_writable(sprites@[k]),
                forall|k: int| 0 <= k < n ==> #[trigger] keys@[k] == sprite_key(sprites@[k]),
                forall|k: int| 0 <= k < n && keys@[k] < bound ==> keys@[k] <= next,
                forall|k: int|
                    0 <= k < n && keys@[k] < bound && !(k < i && keys@[k] == next) ==> (
                    #[trigger] places@[k]) is None,
                forall|k: int|
                    0 <= k < n && (keys@[k] >= bound || (k < i && keys@[k] == next)) ==> (
                    #[trigger] places@[k]) is Some && places@[k]->Some_0 == chunk_index(
                        sprites@,
                        k,
                    ),
                forall|k: int|
                    0 <= k < n && (#[trigger] places@[k]) is Some ==> stored_at(
                        pool@,
                        places@[k]->Some_0 as int,
                        sprite_bytes(sprites@[k]),
                    ),
            decreases n - i,
        {
            if keys[i] == next {
                let bytes = pack_pixels(sprites[i].pixels.as_slice(), sprites[i].bpp as usize);
                let ghost before = pool@;
                let ghost held = places@;
                proof {
                    assert(before == pool_before(sprites@, i as int));
                }
                let index = match store_chunk(&mut pool, &bytes) {
                    Ok(index) => index,
                    Err(e) => {
                        proof {
                            if let Error::SizeExceeded { size, limit } = e {
                                assert(size == chunk_index(sprites@, i as int));
                            }
                        }
                        return Err(e);
                    },
                };
                places.set(i, Some(index));
                proof {
                    assert(index == chunk_index(sprites@, i as int));
                    assert forall|k: int|
                        0 <= k < n && (#[trigger] places@[k]) is Some implies stored_at(
                        pool@,
                        places@[k]->Some_0 as int,
                        sprite_bytes(sprites@[k]),
                    ) by {
                        if k != i {
                            assert(places@[k] == held[k]);
                            lemma_stored_stays(
                                before,
                                pool@,
                                held[k]->Some_0 as int,
                                sprite_bytes(sprites@[k]),
                            );
                        }
                    }
                }
            }
            i += 1;
        }
        bound = next;
    }
    let mut order: Vec<usize> = Vec::new();
    let mut i: usize = 0;
    while i < n
        invariant
            i <= n,
            n == sprites@.len(),
            order@.len() == i,
            forall|k: int| 0 <= k < i ==> #[trigger] order@[k] as int == index_order(
                sprites@,
                i as int,
            )[k],
            forall|k: int| 0 <= k < i ==> #[trigger] order@[k] < i,
        decreases n - i,
    {
        let ghost before = index_order(sprites@, i as int);
        proof {
            lemma_index_order(sprites@, i as int);
        }
        let index = sprites[i].index;
        let mut at: usize = order.len();
        while at > 0 && sprites[order[at - 1]].index > index
            invariant
                at <= order@.len(),
                order@.len() == i,
                i < n,
                n == sprites@.len(),
                before.len() == i,
                forall|k: int| 0 <= k < i ==> #[trigger] order@[k] as int == before[k],
                forall|k: int| 0 <= k < i ==> #[trigger] order@[k] < i,
                place_for(sprites@, before, index, i as int) == place_for(
                    sprites@,
                    before,
                    index,
                    at as int,
                ),
            decreases at,
        {
            at -= 1;
        }
        let ghost held = order@;
        order.insert(at, i);
        proof {
            lemma_place_for(sprites@, before, index, i as int);
            let after = index_order(sprites@, i + 1);
            assert(after == before.insert(at as int, i as int));
            assert forall|k: int| 0 <= k < i + 1 implies #[trigger] order@[k] as int == after[k]
                && order@[k] < i + 1 by {
                if k < at {
                    assert(order@[k] == held[k]);
                } else if k > at {
                    assert(order@[k] == held[k - 1]);
                }
            }
        }
        i += 1;
    }
    proof {
        lemma_index_order(sprites@, n as int);
    }
    let mut defs: Vec<SpriteDef> = Vec::new();
    let mut k: usize = 0;
    while k < n
        invariant
            k <= n,
            n == sprites@.len(),
            places@.len() == n,
            order@.len() == n,
            defs@.len() == k,
            forall|j: int| 0 <= j < n ==> #[trigger] order@[j] as int == index_order(
                sprites@,
                n as int,
            )[j],
            forall|j: int| 0 <= j < n ==> #[trigger] order@[j] < n,
            forall|j: int| 0 <= j < n ==> sprite_writable(sprites@[j]),
            forall|j: int|
                0 <= j < n ==> (#[trigger] places@[j]) is Some && places@[j]->Some_0
                    == chunk_index(sprites@, j),
            forall|j: int|
                0 <= j < k ==> #[trigger] defs@[j] == def_of(
                    sprites@[order@[j] as int],
                    chunk_index(sprites@, order@[j] as int),
                ),
        decreases n - k,
    {
        let at = order[k];
        let sprite = &sprites[at];
        let pixel_data_index = match places[at] {
            Some(index) => index,
            None => 0,
        };
        proof {
            assert(sprite_writable(sprites@[at as int]));
            assert(places@[at as int] is Some);
        }
        defs.push(
            SpriteDef {
                index: sprite.index,
                pixel_data_index,
                offset_x: sprite.offset_x as i16,
                offset_y: sprite.offset_y as i16,
                bpp: sprite.bpp as u8,
                width: sprite.width as u8,
                height: sprite.height as u8,
                is_quadrupled: sprite.is_quadrupled,
            },
        );
        k += 1;
    }
    proof {
        let order_of = index_order(sprites@, n as int);
        assert forall|i: int| 0 <= i < n implies #[trigger] chunk_index(sprites@, i) <= 0xffff
            && stored_at(pool@, chunk_index(sprites@, i), sprite_bytes(sprites@[i])) by {
            assert(places@[i] is Some);
        }
        assert forall|j: int| 0 <= j < defs@.len() implies #[trigger] defs@[j] == def_of(
            sprites@[order_of[j]],
            chunk_index(sprites@, order_of[j]),
        ) by {
            assert(order@[j] as int == order_of[j]);
        }
        assert forall|i: int| 0 <= i < n implies has_record(
            defs@,
            #[trigger] def_of(sprites@[i], chunk_index(sprites@, i)),
        ) by {
            assert(order_of.contains(i));
            let k = choose|k: int| 0 <= k < order_of.len() && order_of[k] == i;
            assert(order@[k] as int == order_of[k]);
            assert(defs@[k] == def_of(sprites@[i], chunk_index(sprites@, i)));
        }
        assert forall|a: int, b: int| 0 <= a < b < defs@.len() implies (#[trigger] defs@[a]).index
            <= (#[trigger] defs@[b]).index by {
            assert(order@[a] as int == order_of[a]);
            assert(order@[b] as int == order_of[b]);
            assert(sprites@[order_of[a]].index <= sprites@[order_of[b]].index);
        }
        if numbers_differ(sprites@) {
            assert forall|a: int, b: int| 0 <= a < b < defs@.len() implies (
            #[trigger] defs@[a]).index < (#[trigger] defs@[b]).index by {
                assert(order@[a] as int == order_of[a]);
                assert(order@[b] as int == order_of[b]);
                assert(order_of[a] != order_of[b]);
                assert(sprites@[order_of[a]].index <= sprites@[order_of[b]].index);
                let x = order_of[a];
                let y = order_of[b];
                if x < y {
                    assert(sprites@[x].index != sprites@[y].index);
                } else {
                    assert(sprites@[y].index != sprites@[x].index);
                }
            }
        }
    }
    Ok((pool, defs))
}

/// Whether the record of a sprite can hold its depth and its sides.
pub open spec fn def_valid(def: SpriteDef) -> bool {
    &&& def.bpp == 2 || def.bpp == 4 || def.bpp == 6 || def.bpp == 8
    &&& def.width == 8 || def.width == 16 || def.width == 32 || def.width == 64
    &&& def.height == 8 || def.height == 16 || def.height == 32 || def.height == 64
}

/// The code of two bits for a width or height of 8, 16, 32 or 64.
pub open spec fn side_code(side: int) -> int {
    if side == 8 {
        0
    } else if side == 16 {
        1
    } else if side == 32 {
        2
    } else {
        3
    }
}

/// The properties word of a record: the depth in bits 0 and 1, the width in
/// bits 4 and 5, the height in bits 6 and 7, and bit 15 for a sprite that is
/// quadrupled.
pub open spec fn def_props(def: SpriteDef) -> u16 {
    ((def.bpp as int - 2) / 2 + 16 * side_code(def.width as int) + 64 * side_code(
        def.height as int,
    ) + if def.is_quadrupled {
        0x8000int
    } else {
        0int
    }) as u16
}

/// The four words of a record.
pub open spec fn def_words(def: SpriteDef) -> Seq<u16> {
    seq![
        def.pixel_data_index,
        unsigned_of(def.offset_x),
        unsigned_of(def.offset_y),
        def_props(def),
    ]
}

/// The words of all records, in order.
pub open spec fn defs_words(defs: Seq<SpriteDef>) -> Seq<u16>
    decreases defs.len(),
{
    if defs.len() == 0 {
        Seq::empty()
    } else {
        defs_words(defs.drop_last()) + def_words(defs.last())
    }
}

fn code_of(side: u8) -> (code: u16)
    requires
        side == 8 || side == 16 || side == 32 || side == 64,
    ensures
        code == side_code(side as int),
{
    if side == 8 {
        0
    } else if side == 16 {
        1
    } else if side == 32 {
        2
    } else {
        3
    }
}

/// The four words of a record, if it can hold its sprite.
fn save_sprite(def: &SpriteDef) -> (record: Option<Vec<u16>>)
    ensures
        match record {
            Some(words) => def_valid(*def) && words@ == def_words(*def),
            None => !def_valid(*def),
        },
{
    let depth_ok = def.bpp == 2 || def.bpp == 4 || def.bpp == 6 || def.bpp == 8;
    let width_ok = def.width == 8 || def.width == 16 || def.width == 32 || def.width == 64;
    let height_ok = def.height == 8 || def.height == 16 || def.height == 32 || def.height == 64;
    if !depth_ok || !width_ok || !height_ok {
        return None;
    }
    let quadrupled: u16 = if def.is_quadrupled {
        0x8000
    } else {
        0
    };
    let props: u16 = (def.bpp as u16 - 2) / 2 + 16 * code_of(def.width) + 64 * code_of(
        def.height,
    ) + quadrupled;
    let mut words: Vec<u16> = Vec::new();
    words.push(def.pixel_data_index);
    words.push(to_unsigned(def.offset_x));
    words.push(to_unsigned(def.offset_y));
    words.push(props);
    assert(words@ =~= def_words(*def));
    Some(words)
}

/// The table of the records of sprites, eight bytes each.
pub fn save_sprites(sprite_defs: &[SpriteDef]) -> (result: Result<Vec<u8>, Error>)
    ensures
        match result {
            Ok(data) => {
                &&& forall|i: int| 0 <= i < sprite_defs@.len() ==> def_valid(sprite_defs@[i])
                &&& data@ == bytes_of_words(defs_words(sprite_defs@))
            },
            Err(Error::InvalidSprite { sprite }) => {
                &&& sprite < sprite_defs@.len()
                &&& !def_valid(sprite_defs@[sprite as int])
                &&& forall|i: int| 0 <= i < sprite ==> def_valid(sprite_defs@[i])
            },
            Err(_) => false,
        },
{
    let mut words: Vec<u16> = Vec::new();
    let n = sprite_defs.len();
    let mut i: usize = 0;
    assert(sprite_defs@.subrange(0, 0) =~= Seq::<SpriteDef>::empty());
    while i < n
        invariant
            i <= n,
            n == sprite_defs@.len(),
            forall|k: int| 0 <= k < i ==> def_valid(sprite_defs@[k]),
            words@ == defs_words(sprite_defs@.subrange(0, i as int)),
        decreases n - i,
    {
        let record = match save_sprite(&sprite_defs[i]) {
            Some(record) => record,
            None => {
                return Err(Error::InvalidSprite { sprite: i });
            },
        };
        let ghost before = words@;
        let mut k: usize = 0;
        while k < 4
            invariant
                k <= 4,
                record@.len() == 4,
                words@ == before + record@.subrange(0, k as int),
            decreases 4 - k,
        {
            words.push(record[k]);
            k += 1;
            assert(words@ =~= before + record@.subrange(0, k as int));
        }
        proof {
            assert(record@.subrange(0, 4) =~= record@);
            let next = sprite_defs@.subrange(0, i + 1);
            assert(next.drop_last() =~= sprite_defs@.subrange(0, i as int));
            assert(next.last() == sprite_defs@[i as int]);
        }
        i += 1;
    }
    assert(sprite_defs@.subrange(0, n as int) =~= sprite_defs@);
    let mut data: Vec<u8> = Vec::new();
    push_words(&mut data, words.as_slice());
    Ok(data)
}

} // verus!
