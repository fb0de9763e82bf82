//! What is written into a firmware image is read back from it.

use vstd::prelude::*;
use crate::data_pack::round_trip::{lemma_data_pack_read_back, pack_wf};
use crate::data_pack::{
    DataPack, assembled, data_pack_is, pack_tables, zeros, };
use crate::data_pack::blocks::{joined, part_start, lemma_joined_part};
use crate::data_pack::entry_at;
use crate::data_pack::round_trip::lemma_word_of_bytes;
use crate::data_view::{bytes_of_words, le_u16, occurs_at, spliced};
use crate::firmware::{
    Firmware, data_pack_window, firmware_is, firmware_saved, firmware_written, has_patch_header,
    menu_bytes,
    menu_count, menu_length, menu_marker, menu_offset, menu_parts, menu_starts_at,
    menu_strings_are, menu_table, menu_words,
    pack_shift, patch_header_start, sprite_pack_window, with_packs, with_patch_header,
    DATA_PACK_START, FIRMWARE_DATA_PACK_SIZE, MENU_STRINGS_SIZE, PATCH_HEADER_SIZE,
    SPRITE_PACK_START,
};
use crate::sprite_pack::{SpritePack, sprite_pack_is};
use crate::sprite_pack::round_trip::{
    images_in_depth, images_wf, lemma_sprite_pack_round_trip, lemma_sprite_pack_unique,
    same_pictures,
};
use crate::text::{
    CharEncoding, Text, encoded, is_text_of, lemma_nonzero_of_zero_free, nonzero, zero_free,
};

verus! {

/// Bytes written over others from byte 8 on leave it as it is whether an
/// image begins with a patch header.
pub proof fn lemma_splice_keeps_header(s: Seq<u8>, at: int, part: Seq<u8>)
    requires
        8 <= at,
        at + part.len() <= s.len(),
    ensures
        spliced(s, at, part).len() == s.len(),
        has_patch_header(spliced(s, at, part)) == has_patch_header(s),
{
    let t = spliced(s, at, part);
    assert(patch_header_start().len() == 8);
    assert(t.subrange(0, 8) =~= s.subrange(0, 8));
}

/// The packs stand in an image where they are written into it: the data
/// pack, with zero bytes behind it, in its window, and the sprite pack behind
/// the window.
pub proof fn lemma_packs_written(
    original: Seq<u8>,
    at: int,
    menu: Seq<u8>,
    pack: Seq<u8>,
    sprites: Seq<u8>,
)
    requires
        0 <= at,
        at + menu.len() <= original.len(),
        pack.len() <= FIRMWARE_DATA_PACK_SIZE,
        SPRITE_PACK_START + pack_shift(spliced(original, at, menu)) + sprites.len()
            <= original.len(),
    ensures
        ({
            let whole = with_packs(original, at, menu, pack, sprites);
            let shift = pack_shift(spliced(original, at, menu));
            &&& whole.len() == original.len()
            &&& pack_shift(whole) == shift
            &&& whole.subrange(
                DATA_PACK_START + shift,
                DATA_PACK_START + shift + FIRMWARE_DATA_PACK_SIZE,
            ) == pack + zeros((FIRMWARE_DATA_PACK_SIZE - pack.len()) as nat)
            &&& whole.subrange(
                SPRITE_PACK_START + shift,
                SPRITE_PACK_START + shift + sprites.len(),
            ) == sprites
        }),
{
    let first = spliced(original, at, menu);
    let shift = pack_shift(first);
    let window = pack + zeros((FIRMWARE_DATA_PACK_SIZE - pack.len()) as nat);
    let second = spliced(first, DATA_PACK_START + shift, window);
    let whole = spliced(second, SPRITE_PACK_START + shift, sprites);
    assert(first.len() == original.len());
    lemma_splice_keeps_header(first, DATA_PACK_START + shift, window);
    lemma_splice_keeps_header(second, SPRITE_PACK_START + shift, sprites);
    assert(whole.subrange(
        DATA_PACK_START + shift,
        DATA_PACK_START + shift + FIRMWARE_DATA_PACK_SIZE,
    ) =~= window);
    assert(whole.subrange(SPRITE_PACK_START + shift, SPRITE_PACK_START + shift + sprites.len())
        =~= sprites);
}

/// Where the packs stand in an image when a patch header is put in front of
/// it or taken away: in their places as the image then has them, where what
/// is left of the image still holds them.
pub proof fn lemma_packs_moved(whole: Seq<u8>, header: Seq<u8>, wanted: bool, count: int)
    requires
        0 <= count,
        SPRITE_PACK_START + pack_shift(whole) + count <= whole.len(),
        wanted && !has_patch_header(whole) ==> header.len() == PATCH_HEADER_SIZE,
        has_patch_header(with_patch_header(whole, header, wanted)) == wanted,
        SPRITE_PACK_START + pack_shift(with_patch_header(whole, header, wanted)) + count
            <= whole.len(),
    ensures
        ({
            let out = with_patch_header(whole, header, wanted);
            let shift = pack_shift(whole);
            &&& out.len() == whole.len()
            &&& data_pack_window(out) == whole.subrange(
                DATA_PACK_START + shift,
                DATA_PACK_START + shift + FIRMWARE_DATA_PACK_SIZE,
            )
            &&& sprite_pack_window(out).len() >= count
            &&& sprite_pack_window(out).subrange(0, count) == whole.subrange(
                SPRITE_PACK_START + shift,
                SPRITE_PACK_START + shift + count,
            )
        }),
{
    let out = with_patch_header(whole, header, wanted);
    let shift = pack_shift(whole);
    assert(patch_header_start().len() == 8);
    assert(data_pack_window(out) =~= whole.subrange(
        DATA_PACK_START + shift,
        DATA_PACK_START + shift + FIRMWARE_DATA_PACK_SIZE,
    ));
    assert(sprite_pack_window(out).subrange(0, count) =~= whole.subrange(
        SPRITE_PACK_START + shift,
        SPRITE_PACK_START + shift + count,
    ));
}

/// The bytes of the data pack as it is written into the image `original`
/// whose menu strings stand at `at`.
pub open spec fn written_pack(original: Seq<u8>, firmware: Firmware, at: int) -> Seq<u8> {
    assembled(
        pack_tables(firmware.data_pack),
        DATA_PACK_START + pack_shift(spliced(original, at, menu_bytes(firmware.menu_strings@))),
    )
}

/// The image `original` with the menu strings and the packs of `firmware`
/// written into it, before a patch header is put in front or taken away.
pub open spec fn written_image(
    original: Seq<u8>,
    firmware: Firmware,
    at: int,
    sprites: Seq<u8>,
) -> Seq<u8> {
    with_packs(
        original,
        at,
        menu_bytes(firmware.menu_strings@),
        written_pack(original, firmware, at),
        sprites,
    )
}

/// Whether what is written can be read again: a patch header that is put in
/// front has the length of one, the image begins with a patch header just
/// where one was asked for, and the sprite pack still stands whole in the
/// image as it then is.
pub open spec fn written_readable(
    out: Seq<u8>,
    original: Seq<u8>,
    firmware: Firmware,
    header: Seq<u8>,
    at: int,
    sprites: Seq<u8>,
) -> bool {
    &&& firmware.use_patch_header && !has_patch_header(
        written_image(original, firmware, at, sprites),
    ) ==> header.len() == PATCH_HEADER_SIZE
    &&& has_patch_header(out) == firmware.use_patch_header
    &&& SPRITE_PACK_START + pack_shift(out) + sprites.len() <= out.len()
}

/// Where the packs stand in a firmware image that was written and can be
/// read again: the data pack with zero bytes behind it in its window, and
/// the sprite pack at the start of what stands behind the window.
pub proof fn lemma_firmware_windows(
    out: Seq<u8>,
    original: Seq<u8>,
    firmware: Firmware,
    header: Seq<u8>,
    at: int,
    sprites: Seq<u8>,
)
    requires
        firmware_written(out, original, firmware, header, at, sprites),
        written_readable(out, original, firmware, header, at, sprites),
    ensures
        written_pack(original, firmware, at).len() <= FIRMWARE_DATA_PACK_SIZE,
        data_pack_window(out) == written_pack(original, firmware, at) + zeros(
            (FIRMWARE_DATA_PACK_SIZE - written_pack(original, firmware, at).len()) as nat,
        ),
        sprite_pack_window(out).len() >= sprites.len(),
        sprite_pack_window(out).subrange(0, sprites.len() as int) == sprites,
{
    let menu = menu_bytes(firmware.menu_strings@);
    let pack = written_pack(original, firmware, at);
    let whole = written_image(original, firmware, at, sprites);
    lemma_menu_bytes_len(firmware);
    lemma_packs_written(original, at, menu, pack, sprites);
    lemma_packs_moved(whole, header, firmware.use_patch_header, sprites.len() as int);
}

/// The data pack written into a firmware image for a well-formed data pack
/// is read back from it: it would be written in the same tables.
pub proof fn lemma_firmware_data_pack(
    out: Seq<u8>,
    original: Seq<u8>,
    firmware: Firmware,
    header: Seq<u8>,
    at: int,
    sprites: Seq<u8>,
    codes: Seq<CharEncoding>,
    read: DataPack,
)
    requires
        firmware_written(out, original, firmware, header, at, sprites),
        written_readable(out, original, firmware, header, at, sprites),
        pack_wf(firmware.data_pack, codes),
        data_pack_is(read, data_pack_window(out), codes),
    ensures
        pack_tables(read) == pack_tables(firmware.data_pack),
{
    let pack = written_pack(original, firmware, at);
    let shift = pack_shift(spliced(original, at, menu_bytes(firmware.menu_strings@)));
    lemma_firmware_windows(out, original, firmware, header, at, sprites);
    assert(shift == 0 || shift == PATCH_HEADER_SIZE);
    lemma_data_pack_read_back(
        firmware.data_pack,
        read,
        codes,
        DATA_PACK_START + shift,
        zeros((FIRMWARE_DATA_PACK_SIZE - pack.len()) as nat),
    );
}

/// The images written into a firmware image for whole images, whose pixels
/// fit their depth, are read back from it: as many, each of the same size
/// and grid, with the same pixels at the same offsets.
pub proof fn lemma_firmware_sprite_pack(
    out: Seq<u8>,
    original: Seq<u8>,
    firmware: Firmware,
    header: Seq<u8>,
    at: int,
    sprites: Seq<u8>,
    read: SpritePack,
)
    requires
        firmware_written(out, original, firmware, header, at, sprites),
        written_readable(out, original, firmware, header, at, sprites),
        images_wf(firmware.sprite_pack.image_sets@),
        images_in_depth(firmware.sprite_pack.image_sets@),
        sprite_pack_is(read, sprite_pack_window(out)),
    ensures
        read.image_sets@.len() == firmware.sprite_pack.image_sets@.len(),
        forall|i: int|
            0 <= i < firmware.sprite_pack.image_sets@.len() ==> same_pictures(
                #[trigger] read.image_sets@[i],
                firmware.sprite_pack.image_sets@[i],
            ),
{
    lemma_firmware_windows(out, original, firmware, header, at, sprites);
    let window = sprite_pack_window(out);
    let tail = window.subrange(sprites.len() as int, window.len() as int);
    assert(window =~= sprites + tail);
    lemma_sprite_pack_round_trip(sprites, tail, firmware.sprite_pack.image_sets@, read);
}

/// The packs written into a firmware image for a well-formed data pack and
/// whole images, whose pixels fit their depth, are read back from it: the
/// data pack would be written in the same tables, and the images are as
/// many, each of the same size and grid, with the same pixels at the same
/// offsets. This is so where what is written can be read again.
pub proof fn lemma_firmware_round_trip(
    out: Seq<u8>,
    original: Seq<u8>,
    firmware: Firmware,
    header: Seq<u8>,
    at: int,
    sprites: Seq<u8>,
    codes: Seq<CharEncoding>,
    read: Firmware,
)
    requires
        firmware_written(out, original, firmware, header, at, sprites),
        written_readable(out, original, firmware, header, at, sprites),
        pack_wf(firmware.data_pack, codes),
        images_wf(firmware.sprite_pack.image_sets@),
        images_in_depth(firmware.sprite_pack.image_sets@),
        firmware_is(read, out, codes),
    ensures
        read.use_patch_header == firmware.use_patch_header,
        pack_tables(read.data_pack) == pack_tables(firmware.data_pack),
        read.sprite_pack.image_sets@.len() == firmware.sprite_pack.image_sets@.len(),
        forall|i: int|
            0 <= i < firmware.sprite_pack.image_sets@.len() ==> same_pictures(
                #[trigger] read.sprite_pack.image_sets@[i],
                firmware.sprite_pack.image_sets@[i],
            ),
{
    lemma_firmware_data_pack(out, original, firmware, header, at, sprites, codes, read.data_pack);
    lemma_firmware_sprite_pack(out, original, firmware, header, at, sprites, read.sprite_pack);
}

/// The strings of the menus fill their room.
pub proof fn lemma_menu_bytes_len(firmware: Firmware)
    requires
        2 * menu_length(firmware.menu_strings@) <= MENU_STRINGS_SIZE,
    ensures
        menu_bytes(firmware.menu_strings@).len() == MENU_STRINGS_SIZE,
{
}

/// Whether no string has a zero word among its codes.
pub open spec fn menu_wf(strings: Seq<Text>) -> bool {
    forall|i: int| 0 <= i < strings.len() ==> zero_free(#[trigger] strings[i].data@)
}

/// Word `k` of the table of the menu strings is read where it was written,
/// whatever stands behind the strings.
pub proof fn lemma_menu_word(strings: Seq<Text>, rest: Seq<u8>, k: int)
    requires
        2 * menu_length(strings) <= MENU_STRINGS_SIZE,
        0 <= k < menu_length(strings),
    ensures
        menu_table(strings).len() == menu_length(strings),
        le_u16(menu_bytes(strings) + rest, 2 * k) == menu_table(strings)[k],
{
    let table = menu_table(strings);
    let s = menu_bytes(strings) + rest;
    lemma_word_of_bytes(table, k);
    assert(s[2 * k] == bytes_of_words(table)[2 * k]);
    assert(s[2 * k + 1] == bytes_of_words(table)[2 * k + 1]);
    assert(entry_at(bytes_of_words(table), k) == le_u16(bytes_of_words(table), 2 * k));
}

/// The words of string `i` of the menus are read as they were written, with
/// the zero word behind them.
pub proof fn lemma_menu_words(strings: Seq<Text>, rest: Seq<u8>, i: int)
    requires
        2 * menu_length(strings) <= MENU_STRINGS_SIZE,
        0 <= i < strings.len(),
    ensures
        menu_count(menu_bytes(strings) + rest) == strings.len(),
        menu_words(menu_bytes(strings) + rest, i) == strings[i].data@ + seq![0u16],
{
    let parts = menu_parts(strings);
    let table = menu_table(strings);
    let s = menu_bytes(strings) + rest;
    let n = strings.len() as int;
    lemma_joined_part(parts, i);
    lemma_menu_word(strings, rest, 0);
    lemma_menu_word(strings, rest, i + 1);
    lemma_menu_word(strings, rest, i + 2);
    let from = n + 2 + part_start(parts, i);
    let to = n + 2 + part_start(parts, i + 1);
    assert(table[i + 1] == from);
    assert(table[i + 2] == to);
    assert(menu_offset(s, i) == from);
    assert(menu_offset(s, i + 1) == to);
    let got = menu_words(s, i);
    let part = s.subrange(2 * from, 2 * to);
    assert(got.len() == parts[i].len());
    assert forall|k: int| 0 <= k < got.len() implies got[k] == parts[i][k] by {
        lemma_menu_word(strings, rest, from + k);
        assert(part[2 * k] == s[2 * (from + k)]);
        assert(part[2 * k + 1] == s[2 * (from + k) + 1]);
        assert(table[from + k] == joined(parts)[part_start(parts, i) + k]);
        assert(joined(parts).subrange(part_start(parts, i), part_start(parts, i + 1))[k]
            == joined(parts)[part_start(parts, i) + k]);
    }
    assert(got =~= parts[i]);
}

/// The strings of the menus are read back from what is written for them,
/// whatever stands behind it, where no string has a zero word among its
/// codes: as many strings, each with the same codes, and reading as they do.
pub proof fn lemma_menu_round_trip(
    strings: Seq<Text>,
    rest: Seq<u8>,
    codes: Seq<CharEncoding>,
    read: Seq<Text>,
)
    requires
        2 * menu_length(strings) <= MENU_STRINGS_SIZE,
        menu_wf(strings),
        menu_strings_are(read, menu_bytes(strings) + rest, codes),
    ensures
        read.len() == strings.len(),
        forall|i: int|
            0 <= i < strings.len() ==> (#[trigger] read[i]).data@ == strings[i].data@
                && read[i].string@ == encoded(codes, strings[i].data@),
{
    let s = menu_bytes(strings) + rest;
    lemma_menu_word(strings, rest, 0);
    assert(menu_count(s) == strings.len());
    assert forall|i: int| 0 <= i < strings.len() implies (#[trigger] read[i]).data@
        == strings[i].data@ && read[i].string@ == encoded(codes, strings[i].data@) by {
        lemma_menu_words(strings, rest, i);
        let data = strings[i].data@;
        let words = data + seq![0u16];
        assert(zero_free(data));
        lemma_nonzero_of_zero_free(data);
        assert(words.drop_last() =~= data);
        assert(nonzero(words) =~= data);
        assert(is_text_of(read[i], codes, menu_words(s, i)));
    }
}

/// The strings of the menus are read back from a firmware image in which
/// what is written for them stands at the first marker, where no string has
/// a zero word among its codes.
pub proof fn lemma_firmware_menu_strings(
    out: Seq<u8>,
    strings: Seq<Text>,
    at: int,
    codes: Seq<CharEncoding>,
    read: Firmware,
)
    requires
        menu_starts_at(out, at),
        at + MENU_STRINGS_SIZE <= out.len(),
        out.subrange(at, at + MENU_STRINGS_SIZE) == menu_bytes(strings),
        2 * menu_length(strings) <= MENU_STRINGS_SIZE,
        menu_wf(strings),
        firmware_is(read, out, codes),
    ensures
        read.menu_strings@.len() == strings.len(),
        forall|i: int|
            0 <= i < strings.len() ==> (#[trigger] read.menu_strings@[i]).data@ == strings[i].data@
                && read.menu_strings@[i].string@ == encoded(codes, strings[i].data@),
{
    let found = choose|found: int| #[trigger]
        menu_starts_at(out, found) && menu_strings_are(
            read.menu_strings@,
            out.subrange(found, out.len() as int),
            codes,
        );
    assert(found == at) by {
        if found < at {
            assert(!occurs_at(out, menu_marker(), found));
        }
        if at < found {
            assert(!occurs_at(out, menu_marker(), at));
        }
    }
    let rest = out.subrange(at + MENU_STRINGS_SIZE, out.len() as int);
    assert(out.subrange(at, out.len() as int) =~= out.subrange(at, at + MENU_STRINGS_SIZE)
        + rest);
    lemma_menu_round_trip(strings, rest, codes, read.menu_strings@);
}

/// The image with the records of a firmware written into it is one: what
/// is written for the same records into the same image is the same, byte
/// for byte.
pub proof fn lemma_firmware_unique(
    first: Seq<u8>,
    second: Seq<u8>,
    original: Seq<u8>,
    firmware: Firmware,
    header: Seq<u8>,
)
    requires
        firmware_saved(first, original, firmware, header),
        firmware_saved(second, original, firmware, header),
    ensures
        first == second,
{
    let (at, a) = choose|at: int, sprites: Seq<u8>| #[trigger]
        firmware_written(first, original, firmware, header, at, sprites);
    let (other, b) = choose|at: int, sprites: Seq<u8>| #[trigger]
        firmware_written(second, original, firmware, header, at, sprites);
    assert(at == other) by {
        if at < other {
            assert(!occurs_at(original, menu_marker(), at));
        }
        if other < at {
            assert(!occurs_at(original, menu_marker(), other));
        }
    }
    lemma_sprite_pack_unique(a, b, firmware.sprite_pack.image_sets@);
}

} // verus!
