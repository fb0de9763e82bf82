//! The firmware image: a data pack and a sprite pack at fixed places, the
//! strings of the menus behind a marker, and a patch header that may stand
//! in front of it all.

use vstd::prelude::*;

pub mod round_trip;
use crate::data_view::{
    DataView, bytes_of_words, has_prefix, le_u16, push_all, push_fill, splice, spliced,
    starts_with, words_of_bytes, words_to_bytes, occurs_at,
};
use crate::data_pack::{
    DataPack, assembled, data_pack_fails, data_pack_is, data_pack_readable, data_pack_unsaved, directory_fits, get_data_pack, laid_parts, pack_fits, TABLE_COUNT,
    pack_tables, read_words, save_data_pack, zeros, };
use crate::data_pack::blocks::{joined, part_start};
use crate::sprite_pack::{
    SpritePack, sprite_pack_fails, sprite_pack_is, sprite_pack_readable, sprite_pack_saved,
    sprite_pack_unsaved,
};
use crate::text::{CharEncoding, Text, is_text_of, text_of_row};
use crate::error::Error;

verus! {

/// The place of the data pack in an image without a patch header.
pub const DATA_PACK_START: usize = 0x6CE000;

/// The place of the sprite pack in an image without a patch header.
pub const SPRITE_PACK_START: usize = 0x730000;

/// The size of the window of the data pack.
pub const FIRMWARE_DATA_PACK_SIZE: usize = 0x62000;

/// The size of the patch header.
pub const PATCH_HEADER_SIZE: usize = 1024;

/// The image of a firmware image that holds the small font.
pub const SMALL_FONT_IMAGE: usize = 98;

/// The image of a firmware image that holds the large font.
pub const LARGE_FONT_IMAGE: usize = 99;

/// The size of the room for the strings of the menus.
pub const MENU_STRINGS_SIZE: usize = 29990;

/// The records of a firmware image.
#[derive(Clone)]
pub struct Firmware {
    pub data_pack: DataPack,
    pub sprite_pack: SpritePack,
    pub menu_strings: Vec<Text>,
    pub use_patch_header: bool,
}

/// The eight bytes with which a patch header begins.
pub open spec fn patch_header_start() -> Seq<u8> {
    seq![0x4Fu8, 0x86u8, 0xA0u8, 0x86u8, 0x0Au8, 0xFEu8, 0x84u8, 0x30u8]
}

/// The four bytes in front of the strings of the menus.
pub open spec fn menu_marker() -> Seq<u8> {
    seq![0xF9u8, 0x01u8, 0xFBu8, 0x01u8]
}

/// Whether an image begins with a patch header.
pub open spec fn has_patch_header(s: Seq<u8>) -> bool {
    has_prefix(s, patch_header_start())
}

/// By how much the packs are moved back: by the size of the patch header
/// where there is one.
pub open spec fn pack_shift(s: Seq<u8>) -> int {
    if has_patch_header(s) {
        PATCH_HEADER_SIZE as int
    } else {
        0
    }
}

/// The window of the data pack.
pub open spec fn data_pack_window(s: Seq<u8>) -> Seq<u8> {
    s.subrange(
        DATA_PACK_START + pack_shift(s),
        DATA_PACK_START + pack_shift(s) + FIRMWARE_DATA_PACK_SIZE,
    )
}

/// The bytes from the start of the sprite pack on.
pub open spec fn sprite_pack_window(s: Seq<u8>) -> Seq<u8> {
    s.subrange(SPRITE_PACK_START + pack_shift(s), s.len() as int)
}

/// Whether the marker of the menu strings first occurs at `at`.
pub open spec fn menu_starts_at(s: Seq<u8>, at: int) -> bool {
    occurs_at(s, menu_marker(), at) && forall|j: int| 0 <= j < at ==> !occurs_at(s, menu_marker(), j)
}

/// Whether the marker of the menu strings occurs.
pub open spec fn menu_found(s: Seq<u8>) -> bool {
    exists|at: int| 0 <= at < s.len() && #[trigger] occurs_at(s, menu_marker(), at)
}

/// The number of strings that a table of menu strings tells of.
pub open spec fn menu_count(s: Seq<u8>) -> int {
    le_u16(s, 0) as int
}

/// The word at which string `i` of the menus starts; for `i` the number of
/// strings, the word at which the last ends.
pub open spec fn menu_offset(s: Seq<u8>, i: int) -> int {
    le_u16(s, 2 * (i + 1)) as int
}

/// Whether string `i` starts before it ends and ends inside the data.
pub open spec fn menu_string_ok(s: Seq<u8>, i: int) -> bool {
    menu_offset(s, i) <= menu_offset(s, i + 1) && 2 * menu_offset(s, i + 1) <= s.len()
}

/// Whether the strings of the menus can be read: the table of their places is
/// whole, and each string lies inside the data.
pub open spec fn menu_readable(s: Seq<u8>) -> bool {
    &&& s.len() >= 2
    &&& s.len() >= 2 * menu_count(s) + 4
    &&& forall|i: int| 0 <= i < menu_count(s) ==> menu_string_ok(s, i)
}

/// The words of string `i`.
pub open spec fn menu_words(s: Seq<u8>, i: int) -> Seq<u16> {
    words_of_bytes(s.subrange(2 * menu_offset(s, i), 2 * menu_offset(s, i + 1)))
}

/// Whether `strings` are the strings of the menus that `s` holds.
pub open spec fn menu_strings_are(strings: Seq<Text>, s: Seq<u8>, codes: Seq<CharEncoding>) -> bool {
    &&& strings.len() == menu_count(s)
    &&& forall|i: int|
        0 <= i < strings.len() ==> is_text_of(#[trigger] strings[i], codes, menu_words(s, i))
}

/// The strings of the menus: a count, the word at which each string starts
/// and that at which the last ends, and the strings. Zero words are left out.
pub fn read_menu_strings(char_codes: &[CharEncoding], data: &DataView) -> (result: Result<
    Vec<Text>,
    Error,
>)
    ensures
        match result {
            Ok(strings) => menu_readable(data@) && menu_strings_are(
                strings@,
                data@,
                char_codes@,
            ),
            Err(Error::MenuStringsTruncated) => !menu_readable(data@),
            Err(_) => false,
        },
{
    let len = data.len();
    if len < 2 {
        return Err(Error::MenuStringsTruncated);
    }
    let count = data.get_u16(0) as usize;
    if len < 2 * count + 4 {
        return Err(Error::MenuStringsTruncated);
    }
    let mut strings: Vec<Text> = Vec::new();
    let mut i: usize = 0;
    while i < count
        invariant
            i <= count,
            len == data.data.len(),
            count == menu_count(data@),
            len >= 2 * count + 4,
            strings@.len() == i,
            forall|k: int| 0 <= k < i ==> menu_string_ok(data@, k),
            forall|k: int|
                0 <= k < i ==> is_text_of(#[trigger] strings@[k], char_codes@, menu_words(data@, k)),
        decreases count - i,
    {
        let start = data.get_u16(2 * (i + 1)) as usize;
        let end = data.get_u16(2 * (i + 2)) as usize;
        if end < start || 2 * end > len {
            assert(!menu_string_ok(data@, i as int));
            return Err(Error::MenuStringsTruncated);
        }
        let words = read_words(data, 2 * start, 2 * (end - start));
        let text = text_of_row(char_codes, words.as_slice(), 0, words.len());
        proof {
            assert(words@.subrange(0, words@.len() as int) =~= words@);
        }
        strings.push(text);
        i += 1;
    }
    Ok(strings)
}

/// The words of each string with a zero word behind it.
pub open spec fn menu_parts(strings: Seq<Text>) -> Seq<Seq<u16>> {
    Seq::new(strings.len(), |i: int| strings[i].data@ + seq![0u16])
}

/// The number of words of the table of the menu strings.
pub open spec fn menu_length(strings: Seq<Text>) -> int {
    (strings.len() + 2 + joined(menu_parts(strings)).len()) as int
}

/// The words of the table of the menu strings: the number of strings, the
/// word at which each starts and that at which the last ends, and the strings
/// with a zero word behind each.
pub open spec fn menu_table(strings: Seq<Text>) -> Seq<u16> {
    seq![strings.len() as u16] + Seq::new(
        strings.len() + 1,
        |i: int| (strings.len() + 2 + part_start(menu_parts(strings), i)) as u16,
    ) + joined(menu_parts(strings))
}

/// The bytes of the room for the menu strings: the table, and zero bytes up
/// to the size of the room.
pub open spec fn menu_bytes(strings: Seq<Text>) -> Seq<u8> {
    bytes_of_words(menu_table(strings)) + zeros((MENU_STRINGS_SIZE - 2 * menu_length(strings)) as nat)
}

/// The strings of the menus as they fill their room of 29990 bytes.
pub fn save_menu_strings(menu_strings: &[Text]) -> (result: Result<Vec<u8>, Error>)
    ensures
        match result {
            Ok(data) => {
                &&& 2 * menu_length(menu_strings@) <= MENU_STRINGS_SIZE
                &&& data@ == menu_bytes(menu_strings@)
                &&& data@.len() == MENU_STRINGS_SIZE
            },
            Err(Error::SizeExceeded { size, limit }) => {
                &&& 2 * menu_length(menu_strings@) > MENU_STRINGS_SIZE
                &&& limit == MENU_STRINGS_SIZE
                &&& size > limit
            },
            Err(_) => false,
        },
{
    let ghost parts = menu_parts(menu_strings@);
    let n = menu_strings.len();
    if n > MENU_STRINGS_SIZE {
        proof {
            crate::data_pack::blocks::lemma_joined_prefix(parts, 0);
        }
        return Err(Error::SizeExceeded { size: n, limit: MENU_STRINGS_SIZE });
    }
    let mut offsets: Vec<u16> = Vec::new();
    let mut words: Vec<u16> = Vec::new();
    let mut i: usize = 0;
    assert(parts.subrange(0, 0) =~= Seq::<Seq<u16>>::empty());
    while i < n
        invariant
            i <= n,
            n == menu_strings@.len(),
            n <= MENU_STRINGS_SIZE,
            parts == menu_parts(menu_strings@),
            words@ == joined(parts.subrange(0, i as int)),
            words@.len() <= MENU_STRINGS_SIZE,
            offsets@.len() == i,
            forall|k: int|
                0 <= k < i ==> #[trigger] offsets@[k] == n + 2 + part_start(parts, k),
        decreases n - i,
    {
        let string = &menu_strings[i];
        let m = string.data.len();
        proof {
            assert(parts.subrange(0, i + 1).drop_last() =~= parts.subrange(0, i as int));
            assert(parts.subrange(0, i + 1).last() == string.data@ + seq![0u16]);
            crate::data_pack::blocks::lemma_joined_prefix(parts, i + 1);
        }
        if m >= MENU_STRINGS_SIZE || words.len() + m + 1 > MENU_STRINGS_SIZE {
            return Err(
                Error::SizeExceeded { size: 2 * MENU_STRINGS_SIZE, limit: MENU_STRINGS_SIZE },
            );
        }
        offsets.push((n + 2 + words.len()) as u16);
        let ghost before = words@;
        let mut k: usize = 0;
        while k < m
            invariant
                k <= m,
                m == string.data@.len(),
                words@ == before + string.data@.subrange(0, k as int),
            decreases m - k,
        {
            words.push(string.data[k]);
            k += 1;
            assert(words@ =~= before + string.data@.subrange(0, k as int));
        }
        words.push(0);
        assert(words@ =~= before + (string.data@ + seq![0u16])) by {
            assert(string.data@.subrange(0, m as int) =~= string.data@);
        }
        i += 1;
    }
    proof {
        assert(parts.subrange(0, n as int) =~= parts);
    }
    let total = n + 2 + words.len();
    if 2 * total > MENU_STRINGS_SIZE {
        return Err(Error::SizeExceeded { size: 2 * total, limit: MENU_STRINGS_SIZE });
    }
    offsets.push(total as u16);
    let mut table: Vec<u16> = Vec::new();
    table.push(n as u16);
    let mut k: usize = 0;
    while k < n + 1
        invariant
            k <= n + 1,
            n <= MENU_STRINGS_SIZE,
            offsets@.len() == n + 1,
            table@ == seq![n as u16] + offsets@.subrange(0, k as int),
        decreases n + 1 - k,
    {
        table.push(offsets[k]);
        k += 1;
        assert(table@ =~= seq![n as u16] + offsets@.subrange(0, k as int));
    }
    let ghost head = table@;
    let m = words.len();
    let mut k: usize = 0;
    while k < m
        invariant
            k <= m,
            m == words@.len(),
            table@ == head + words@.subrange(0, k as int),
        decreases m - k,
    {
        table.push(words[k]);
        k += 1;
        assert(table@ =~= head + words@.subrange(0, k as int));
    }
    proof {
        assert(words@.subrange(0, m as int) =~= words@);
        assert(offsets@.subrange(0, n + 1) =~= offsets@);
        assert(offsets@ =~= Seq::new(
            (n + 1) as nat,
            |i: int| (n + 2 + part_start(parts, i)) as u16,
        ));
        assert(table@ =~= menu_table(menu_strings@));
    }
    let mut data = words_to_bytes(table.as_slice());
    push_fill(&mut data, 0, MENU_STRINGS_SIZE - 2 * total);
    Ok(data)
}

fn patch_header_start_bytes() -> (bytes: Vec<u8>)
    ensures
        bytes@ == patch_header_start(),
{
    let mut bytes: Vec<u8> = Vec::new();
    bytes.push(0x4F);
    bytes.push(0x86);
    bytes.push(0xA0);
    bytes.push(0x86);
    bytes.push(0x0A);
    bytes.push(0xFE);
    bytes.push(0x84);
    bytes.push(0x30);
    assert(bytes@ =~= patch_header_start());
    bytes
}

fn menu_marker_bytes() -> (bytes: Vec<u8>)
    ensures
        bytes@ == menu_marker(),
{
    let mut bytes: Vec<u8> = Vec::new();
    bytes.push(0xF9);
    bytes.push(0x01);
    bytes.push(0xFB);
    bytes.push(0x01);
    assert(bytes@ =~= menu_marker());
    bytes
}

/// Whether `firmware` is what the image `s` holds.
pub open spec fn firmware_is(firmware: Firmware, s: Seq<u8>, codes: Seq<CharEncoding>) -> bool {
    &&& firmware.use_patch_header == has_patch_header(s)
    &&& data_pack_is(firmware.data_pack, data_pack_window(s), codes)
    &&& sprite_pack_is(firmware.sprite_pack, sprite_pack_window(s))
    &&& exists|at: int| #[trigger]
        menu_starts_at(s, at) && menu_strings_are(
            firmware.menu_strings@,
            s.subrange(at, s.len() as int),
            codes,
        )
}

/// Whether an image is long enough to hold its packs.
pub open spec fn firmware_long_enough(s: Seq<u8>) -> bool {
    s.len() >= SPRITE_PACK_START + pack_shift(s)
}

/// Whether reading the firmware image `s` fails as `error` says. The first
/// of these that holds decides: the image is too short for its packs; the
/// data pack fails; the sprite pack fails; the marker of the menu strings
/// does not occur; the menu strings behind the marker are cut off.
pub open spec fn firmware_fails(s: Seq<u8>, error: Error) -> bool {
    match error {
        Error::FirmwareTooShort => !firmware_long_enough(s),
        Error::MenuStringsNotFound => {
            &&& firmware_long_enough(s)
            &&& data_pack_readable(data_pack_window(s))
            &&& sprite_pack_readable(sprite_pack_window(s))
            &&& !menu_found(s)
        },
        Error::MenuStringsTruncated => {
            &&& firmware_long_enough(s)
            &&& data_pack_readable(data_pack_window(s))
            &&& sprite_pack_readable(sprite_pack_window(s))
            &&& exists|at: int| #[trigger]
                menu_starts_at(s, at) && !menu_readable(s.subrange(at, s.len() as int))
        },
        _ => {
            &&& firmware_long_enough(s)
            &&& data_pack_fails(data_pack_window(s), error) || (data_pack_readable(
                data_pack_window(s),
            ) && sprite_pack_fails(sprite_pack_window(s), error))
        },
    }
}

/// The records of a firmware image.
pub fn read_firmware(char_codes: &[CharEncoding], data: &DataView) -> (result: Result<
    Firmware,
    Error,
>)
    ensures
        match result {
            Ok(firmware) => firmware_long_enough(data@) && firmware_is(
                firmware,
                data@,
                char_codes@,
            ),
            Err(error) => firmware_fails(data@, error),
        },
{
    let start = patch_header_start_bytes();
    let use_patch_header = starts_with(data.data.as_slice(), start.as_slice());
    let shift: usize = if use_patch_header {
        PATCH_HEADER_SIZE
    } else {
        0
    };
    let len = data.len();
    if len < SPRITE_PACK_START + shift {
        return Err(Error::FirmwareTooShort);
    }
    let window = data.chunk(DATA_PACK_START + shift, FIRMWARE_DATA_PACK_SIZE);
    let data_pack = match get_data_pack(char_codes, &window) {
        Ok(found) => found,
        Err(e) => {
            return Err(e);
        },
    };
    let sprites = data.chunk(SPRITE_PACK_START + shift, len - (SPRITE_PACK_START + shift));
    let sprite_pack = match SpritePack::from_data(&sprites) {
        Ok(found) => found,
        Err(e) => {
            return Err(e);
        },
    };
    let marker = menu_marker_bytes();
    let at = match data.find_bytes(marker.as_slice()) {
        Some(at) => at,
        None => {
            return Err(Error::MenuStringsNotFound);
        },
    };
    assert(menu_starts_at(data@, at as int));
    let menu = data.chunk(at, len - at);
    let menu_strings = match read_menu_strings(char_codes, &menu) {
        Ok(found) => found,
        Err(e) => {
            return Err(e);
        },
    };
    Ok(Firmware { data_pack, sprite_pack, menu_strings, use_patch_header })
}

/// `s` with a patch header put in front or taken away, as `wanted` asks, and
/// as long as before: the patch header pushes the last bytes out, and where
/// it is taken away, bytes of 0xFF fill up the end.
pub open spec fn with_patch_header(s: Seq<u8>, header: Seq<u8>, wanted: bool) -> Seq<u8> {
    if wanted && !has_patch_header(s) {
        header + s.subrange(0, s.len() - PATCH_HEADER_SIZE)
    } else if !wanted && has_patch_header(s) {
        s.subrange(PATCH_HEADER_SIZE as int, s.len() as int) + Seq::new(
            PATCH_HEADER_SIZE as nat,
            |k: int| 0xFFu8,
        )
    } else {
        s
    }
}

/// The image `original` with the strings of the menus at `at`, the data pack
/// in its window with zero bytes behind it, and the sprite pack at its place.
pub open spec fn with_packs(
    original: Seq<u8>,
    at: int,
    menu: Seq<u8>,
    pack: Seq<u8>,
    sprites: Seq<u8>,
) -> Seq<u8> {
    let first = spliced(original, at, menu);
    let shift = pack_shift(first);
    let second = spliced(
        first,
        DATA_PACK_START + shift,
        pack + zeros((FIRMWARE_DATA_PACK_SIZE - pack.len()) as nat),
    );
    spliced(second, SPRITE_PACK_START + shift, sprites)
}

/// Whether `out` is the image `original` with the records of `firmware`
/// written into it, where the strings of the menus stand at `at` and
/// `sprites` are the bytes of the sprite pack.
pub open spec fn firmware_written(
    out: Seq<u8>,
    original: Seq<u8>,
    firmware: Firmware,
    header: Seq<u8>,
    at: int,
    sprites: Seq<u8>,
) -> bool {
    let menu = menu_bytes(firmware.menu_strings@);
    let shift = pack_shift(spliced(original, at, menu));
    let pack = assembled(pack_tables(firmware.data_pack), DATA_PACK_START + shift);
    &&& menu_starts_at(original, at)
    &&& sprite_pack_saved(sprites, firmware.sprite_pack.image_sets@)
    &&& at + MENU_STRINGS_SIZE <= original.len()
    &&& 2 * menu_length(firmware.menu_strings@) <= MENU_STRINGS_SIZE
    &&& pack_fits(firmware.data_pack)
    &&& directory_fits(
        laid_parts(pack_tables(firmware.data_pack), DATA_PACK_START + shift, TABLE_COUNT as int),
    )
    &&& pack.len() <= FIRMWARE_DATA_PACK_SIZE
    &&& SPRITE_PACK_START + shift + sprites.len() <= original.len()
    &&& out == with_patch_header(
        with_packs(original, at, menu, pack, sprites),
        header,
        firmware.use_patch_header,
    )
}

/// Whether `out` is the image `original` with the records of `firmware`
/// written into it.
pub open spec fn firmware_saved(
    out: Seq<u8>,
    original: Seq<u8>,
    firmware: Firmware,
    header: Seq<u8>,
) -> bool {
    exists|at: int, sprites: Seq<u8>| #[trigger]
        firmware_written(out, original, firmware, header, at, sprites)
}

/// The image with a patch header put in front or taken away, as `wanted`
/// asks, where `present` tells whether it has one.
fn put_patch_header(data: Vec<u8>, patch_header: &[u8], wanted: bool, present: bool) -> (out: Vec<u8>)
    requires
        present == has_patch_header(data@),
        data@.len() >= PATCH_HEADER_SIZE,
        wanted && !present ==> patch_header@.len() == PATCH_HEADER_SIZE,
    ensures
        out@ == with_patch_header(data@, patch_header@, wanted),
        out@.len() == data@.len(),
{
    let len = data.len();
    if wanted && !present {
        let mut out: Vec<u8> = Vec::new();
        push_all(&mut out, patch_header);
        let keep = len - PATCH_HEADER_SIZE;
        let mut k: usize = 0;
        while k < keep
            invariant
                k <= keep,
                keep <= data.len(),
                out@ == patch_header@ + data@.subrange(0, k as int),
            decreases keep - k,
        {
            out.push(data[k]);
            k += 1;
            assert(out@ =~= patch_header@ + data@.subrange(0, k as int));
        }
        out
    } else if !wanted && present {
        let mut out: Vec<u8> = Vec::new();
        let mut k: usize = PATCH_HEADER_SIZE;
        assert(out@ =~= data@.subrange(PATCH_HEADER_SIZE as int, k as int));
        while k < len
            invariant
                PATCH_HEADER_SIZE <= k <= len,
                len == data.len(),
                out@ == data@.subrange(PATCH_HEADER_SIZE as int, k as int),
            decreases len - k,
        {
            out.push(data[k]);
            k += 1;
            assert(out@ =~= data@.subrange(PATCH_HEADER_SIZE as int, k as int));
        }
        push_fill(&mut out, 0xFF, PATCH_HEADER_SIZE);
        assert(out@ =~= with_patch_header(data@, patch_header@, wanted));
        out
    } else {
        data
    }
}

/// Whether the packs of `firmware` are over a limit as `error` says, where
/// the menu strings fit their room at `at` and the image is long enough: the
/// data pack cannot be written, or is longer than its window; or it is not,
/// and the sprite pack cannot be written, or is longer than what is left of
/// the image behind its place.
pub open spec fn packs_oversize(original: Seq<u8>, firmware: Firmware, at: int, error: Error) -> bool {
    let shift = pack_shift(spliced(original, at, menu_bytes(firmware.menu_strings@)));
    let pack = assembled(pack_tables(firmware.data_pack), DATA_PACK_START + shift);
    let saves = pack_fits(firmware.data_pack) && directory_fits(
        laid_parts(pack_tables(firmware.data_pack), DATA_PACK_START + shift, TABLE_COUNT as int),
    );
    &&& 2 * menu_length(firmware.menu_strings@) <= MENU_STRINGS_SIZE
    &&& at + MENU_STRINGS_SIZE <= original.len()
    &&& SPRITE_PACK_START + shift <= original.len()
    &&& match error {
        Error::SizeExceeded { size, limit } => {
            ||| data_pack_unsaved(firmware.data_pack, DATA_PACK_START + shift, error)
            ||| saves && limit == FIRMWARE_DATA_PACK_SIZE && size == pack.len() && size > limit
            ||| saves && pack.len() <= FIRMWARE_DATA_PACK_SIZE && sprite_pack_unsaved(
                firmware.sprite_pack.image_sets@,
                error,
            )
            ||| saves && pack.len() <= FIRMWARE_DATA_PACK_SIZE && limit == original.len() - (
            SPRITE_PACK_START + shift) && size > limit && exists|sprites: Seq<u8>| #[trigger]
                sprite_pack_saved(sprites, firmware.sprite_pack.image_sets@) && size
                    == sprites.len()
        },
        _ => false,
    }
}

/// Whether writing `firmware` into the image `original` fails as `error`
/// says: the marker of the menu strings does not occur; or the image is too
/// short for the room of the menu strings behind the marker or for its
/// packs; or the menu strings, a pack, or a table of one is over its limit;
/// or the sprite pack cannot be written; or a patch header is to be put in
/// front and `header` has not the length of one.
pub open spec fn firmware_unsaved(
    original: Seq<u8>,
    firmware: Firmware,
    header: Seq<u8>,
    error: Error,
) -> bool {
    match error {
        Error::MenuStringsNotFound => !menu_found(original),
        Error::FirmwareTooShort => {
            &&& 2 * menu_length(firmware.menu_strings@) <= MENU_STRINGS_SIZE
            &&& exists|at: int| #[trigger]
                menu_starts_at(original, at) && (at + MENU_STRINGS_SIZE > original.len()
                    || original.len() < SPRITE_PACK_START + pack_shift(
                    spliced(original, at, menu_bytes(firmware.menu_strings@)),
                ))
        },
        Error::SizeMismatch { expected, size } => {
            &&& firmware.use_patch_header
            &&& expected == PATCH_HEADER_SIZE
            &&& size == header.len()
            &&& size != expected
            &&& 2 * menu_length(firmware.menu_strings@) <= MENU_STRINGS_SIZE
            &&& exists|at: int| #[trigger]
                menu_starts_at(original, at) && !has_patch_header(
                    spliced(original, at, menu_bytes(firmware.menu_strings@)),
                )
        },
        Error::SizeExceeded { size, limit } => {
            ||| {
                &&& menu_found(original)
                &&& 2 * menu_length(firmware.menu_strings@) > MENU_STRINGS_SIZE
                &&& limit == MENU_STRINGS_SIZE
                &&& size > limit
            }
            ||| exists|at: int| #[trigger]
                menu_starts_at(original, at) && packs_oversize(original, firmware, at, error)
        },
        _ => {
            &&& menu_found(original)
            &&& 2 * menu_length(firmware.menu_strings@) <= MENU_STRINGS_SIZE
            &&& pack_fits(firmware.data_pack)
            &&& sprite_pack_unsaved(firmware.sprite_pack.image_sets@, error)
        },
    }
}

/// The image `original_data` with the records of `firmware` written into
/// it, and with or without a patch header as `firmware` asks. The image
/// keeps its length. `patch_header` is the patch header of 1024 bytes, which
/// is looked at only where one has to be put in front.
pub fn save_firmware(original_data: &[u8], firmware: &Firmware, patch_header: &[u8]) -> (result:
    Result<Vec<u8>, Error>)
    ensures
        match result {
            Ok(out) => {
                &&& out@.len() == original_data@.len()
                &&& firmware_saved(out@, original_data@, *firmware, patch_header@)
            },
            Err(error) => firmware_unsaved(original_data@, *firmware, patch_header@, error),
        },
{
    let len = original_data.len();
    let mut new_data: Vec<u8> = Vec::new();
    push_all(&mut new_data, original_data);
    let marker = menu_marker_bytes();
    let view = DataView::new(original_data);
    let at = match view.find_bytes(marker.as_slice()) {
        Some(at) => at,
        None => {
            return Err(Error::MenuStringsNotFound);
        },
    };
    assert(menu_starts_at(original_data@, at as int));
    let menu = match save_menu_strings(firmware.menu_strings.as_slice()) {
        Ok(menu) => menu,
        Err(e) => {
            return Err(e);
        },
    };
    if len - at < MENU_STRINGS_SIZE {
        return Err(Error::FirmwareTooShort);
    }
    splice(&mut new_data, at, menu.as_slice());
    let ghost first = new_data@;
    let start = patch_header_start_bytes();
    let already_has_header = starts_with(new_data.as_slice(), start.as_slice());
    let shift: usize = if already_has_header {
        PATCH_HEADER_SIZE
    } else {
        0
    };
    if len < SPRITE_PACK_START + shift {
        return Err(Error::FirmwareTooShort);
    }
    let mut pack = match save_data_pack(&firmware.data_pack, DATA_PACK_START + shift) {
        Ok(pack) => pack,
        Err(e) => {
            return Err(e);
        },
    };
    if pack.len() > FIRMWARE_DATA_PACK_SIZE {
        return Err(Error::SizeExceeded { size: pack.len(), limit: FIRMWARE_DATA_PACK_SIZE });
    }
    let ghost bare = pack@;
    let room = FIRMWARE_DATA_PACK_SIZE - pack.len();
    push_fill(&mut pack, 0, room);
    splice(&mut new_data, DATA_PACK_START + shift, pack.as_slice());
    let sprites = match firmware.sprite_pack.as_bytes() {
        Ok(sprites) => sprites,
        Err(e) => {
            return Err(e);
        },
    };
    if sprites.len() > len - (SPRITE_PACK_START + shift) {
        return Err(
            Error::SizeExceeded { size: sprites.len(), limit: len - (SPRITE_PACK_START + shift) },
        );
    }
    splice(&mut new_data, SPRITE_PACK_START + shift, sprites.as_slice());
    proof {
        assert(new_data@ == with_packs(original_data@, at as int, menu@, bare, sprites@));
    }
    let ghost whole = new_data@;
    proof {
        assert(has_patch_header(whole) == has_patch_header(first)) by {
            assert(whole.subrange(0, 8) =~= first.subrange(0, 8));
        }
    }
    if firmware.use_patch_header && !already_has_header && patch_header.len()
        != PATCH_HEADER_SIZE {
        return Err(Error::SizeMismatch { expected: PATCH_HEADER_SIZE, size: patch_header.len() });
    }
    let out = put_patch_header(
        new_data,
        patch_header,
        firmware.use_patch_header,
        already_has_header,
    );
    proof {
        assert(firmware_written(
            out@,
            original_data@,
            *firmware,
            patch_header@,
            at as int,
            sprites@,
        ));
    }
    Ok(out)
}

} // verus!
