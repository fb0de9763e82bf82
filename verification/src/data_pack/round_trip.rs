//! What is written is read back: the laws that tie the writers of the data
//! pack to its readers.

use vstd::prelude::*;
use crate::data_view::{
    bytes_of_u32s, bytes_of_words, le_u16, le_u32, u16_bytes, u32_bytes, lemma_words_round_trip,
};
use crate::data_pack::{
    DataPack, card_id_of, zeros, data_pack_is, pack_fits, pack_tables, table_readable, tables_readable, word_parts,
    assembled, block_words, directory_fits, directory_ok, directory_words,
    entry_at, entry_end, is_gap, laid_parts, offset_entry, sized_block_ok,
    sized_words, start_words, starts_fit, table_bytes, table_is_bad,
    table_offset, table_size, lemma_laid_parts_len, DIRECTORY_SIZE, TABLE_COUNT,
};
use crate::data_pack::blocks::{
    joined, part_start, lemma_joined_part, lemma_nested_part, lemma_part_of_front,
    lemma_part_start_grows,
};
use crate::data_pack::character::{
    Character, character_is, character_row, character_words, characters_data,
    lemma_character_round_trip, CHARACTER_SIZE,
};
use crate::data_pack::frame::{
    lemma_frame_layers_end_unique, Frame, FrameGroup, FrameLayer, flat_frames, frame_count, frame_entry,
    frame_first, frame_found, frame_groups_are, frame_layer_at, frame_layer_fits, frame_layer_offset, frame_layers, frame_layers_end, frame_layers_of,
    frame_of, frame_view, frame_words, frames_fit, frames_layers, frames_readable, layer_parts,
    lemma_flat_frames_prefix, lemma_frame_layer_round_trip, GROUP_SIZE, };
use crate::data_pack::item::{
    Item, item_is, item_row, item_words, items_data, lemma_item_round_trip, ITEM_SIZE,
};
use crate::data_pack::graphics_node::node_parts;
use crate::data_pack::particle_emitter::{
    ParticleEmitter, emitter_parts, emitter_row, EMITTER_SIZE,
};
use crate::data_pack::scene::{
    Scene, SceneLayer, all_layer_starts, as_words, layer_at, layer_bytes, layer_fits,
    layer_starts, layers_data, scene_layer_offset, scene_readable, scene_size, scene_starts,
    scenes_are, scenes_data, scenes_fit, scenes_readable, sized_count, lemma_all_layer_starts_prefix, lemma_layer_starts_len, lemma_scene_layer_round_trip,
    lemma_scene_starts_entry,
};
use crate::data_pack::bitmask::lemma_word_in_bytes;
use crate::data_pack::tamastring::{
    TamaString, string_offset, string_parts, tamastring_is, tamastring_words, text_at, text_len,
};
use crate::data_pack::lemma_word_entity_round_trip;
use crate::text::{CharEncoding, encoded, zero_free};

verus! {

/// Whether every part has an even number of bytes.
pub open spec fn parts_even(parts: Seq<Seq<u8>>) -> bool {
    forall|k: int| 0 <= k < parts.len() ==> (#[trigger] parts[k]).len() % 2 == 0
}

/// Parts of an even number of bytes start at even places.
pub proof fn lemma_even_starts(parts: Seq<Seq<u8>>, k: int)
    requires
        parts_even(parts),
        0 <= k <= parts.len(),
    ensures
        part_start(parts, k) % 2 == 0,
        part_start(parts, k) >= 0,
    decreases k,
{
    if k > 0 {
        lemma_even_starts(parts, k - 1);
        lemma_joined_part(parts, k - 1);
        assert(parts[k - 1].len() % 2 == 0);
    } else {
        assert(parts.subrange(0, 0) =~= Seq::<Seq<u8>>::empty());
    }
}

/// The word at place `k` of words written as bytes, with anything behind
/// them.
pub proof fn lemma_word_of_bytes(words: Seq<u16>, k: int)
    requires
        0 <= k < words.len(),
    ensures
        bytes_of_words(words).len() == 2 * words.len(),
        entry_at(bytes_of_words(words), k) == words[k],
{
    let b = bytes_of_words(words);
    assert(b[2 * k] == crate::data_view::lo_byte(words[k]));
    assert(b[2 * k + 1] == crate::data_view::hi_byte(words[k]));
}

/// The 32-bit word at place `k` of words written as bytes, with `rest` behind
/// them.
pub proof fn lemma_u32_of_bytes(words: Seq<u32>, rest: Seq<u8>, k: int)
    requires
        0 <= k < words.len(),
    ensures
        bytes_of_u32s(words).len() == 4 * words.len(),
        le_u32(bytes_of_u32s(words) + rest, 4 * k) == words[k],
{
    let b = bytes_of_u32s(words) + rest;
    let w = words[k];
    assert(b[4 * k] == u32_bytes(w)[0]);
    assert(b[4 * k + 1] == u32_bytes(w)[1]);
    assert(b[4 * k + 2] == u32_bytes(w)[2]);
    assert(b[4 * k + 3] == u32_bytes(w)[3]);
}

/// Tables of an even number of bytes are laid out in parts of an even number
/// of bytes, where the data pack stands at an even place.
pub proof fn lemma_laid_parts_even(tables: Seq<Seq<u8>>, offset: int, n: int)
    requires
        parts_even(tables),
        offset % 2 == 0,
        0 <= offset,
        0 <= n <= tables.len(),
    ensures
        laid_parts(tables, offset, n).len() == n,
        parts_even(laid_parts(tables, offset, n)),
        joined(laid_parts(tables, offset, n)).len() % 2 == 0,
    decreases n,
{
    lemma_laid_parts_len(tables, offset, n);
    if n > 0 {
        lemma_laid_parts_even(tables, offset, n - 1);
        let before = laid_parts(tables, offset, n - 1);
        let all = laid_parts(tables, offset, n);
        assert(all.drop_last() =~= before);
        assert(tables[n - 1].len() % 2 == 0);
        assert forall|k: int| 0 <= k < all.len() implies (#[trigger] all[k]).len() % 2 == 0 by {
            if k < n - 1 {
                assert(all[k] == before[k]);
            }
        }
    }
}

/// The tables of a data pack that was put together are found again by its
/// directory: where the tables have an even number of bytes each and the
/// data pack stands at an even place of its container, the directory is
/// readable, and table `t` is the part laid out for it.
pub proof fn lemma_directory_round_trip(tables: Seq<Seq<u8>>, offset: int, t: int)
    requires
        tables.len() == TABLE_COUNT,
        parts_even(tables),
        offset % 2 == 0,
        0 <= offset,
        directory_fits(laid_parts(tables, offset, TABLE_COUNT as int)),
        0 <= t < TABLE_COUNT,
    ensures
        directory_ok(assembled(tables, offset)),
        table_bytes(assembled(tables, offset), t) == laid_parts(
            tables,
            offset,
            TABLE_COUNT as int,
        )[t],
        !is_gap(t) ==> table_bytes(assembled(tables, offset), t) == tables[t],
{
    let parts = laid_parts(tables, offset, TABLE_COUNT as int);
    let s = assembled(tables, offset);
    let dir = directory_words(parts);
    lemma_laid_parts_even(tables, offset, TABLE_COUNT as int);
    assert(bytes_of_u32s(dir).len() == DIRECTORY_SIZE);
    assert forall|k: int| 0 <= k < TABLE_COUNT implies table_offset(s, k) == DIRECTORY_SIZE
        + part_start(parts, k) by {
        lemma_u32_of_bytes(dir, joined(parts), k);
        lemma_even_starts(parts, k);
        assert(dir[k] == (DIRECTORY_SIZE + part_start(parts, k)) / 2);
    }
    assert(parts.subrange(0, TABLE_COUNT as int) =~= parts);
    assert forall|k: int| 0 <= k < TABLE_COUNT implies table_size(s, k) == parts[k].len() by {
        lemma_joined_part(parts, k);
    }
    assert forall|k: int| 0 <= k < TABLE_COUNT implies !table_is_bad(s, k) by {
        assert(table_size(s, k) == parts[k].len());
    }
    lemma_joined_part(parts, t);
    crate::data_pack::lemma_laid_prefix(tables, offset, t + 1, TABLE_COUNT as int);
    assert(parts[t] == parts.subrange(0, t + 1)[t]);
    assert(table_bytes(s, t) =~= joined(parts).subrange(
        part_start(parts, t),
        part_start(parts, t + 1),
    ));
}

/// Whether every part has a number of bytes that is a multiple of `unit`.
pub open spec fn parts_in_units(parts: Seq<Seq<u8>>, unit: int) -> bool {
    forall|k: int| 0 <= k < parts.len() ==> (#[trigger] parts[k]).len() as int % unit == 0
}

/// Parts whose lengths are multiples of `unit` start at multiples of `unit`.
pub proof fn lemma_unit_starts(parts: Seq<Seq<u8>>, unit: int, k: int)
    requires
        unit == 2 || unit == 4,
        parts_in_units(parts, unit),
        0 <= k <= parts.len(),
    ensures
        part_start(parts, k) % unit == 0,
        part_start(parts, k) >= 0,
    decreases k,
{
    if k > 0 {
        lemma_unit_starts(parts, unit, k - 1);
        lemma_joined_part(parts, k - 1);
        assert(parts[k - 1].len() as int % unit == 0);
    } else {
        assert(parts.subrange(0, 0) =~= Seq::<Seq<u8>>::empty());
    }
}

/// Blocks of words that were written behind a table of their starts are
/// found again: block `k` of the tables is the block that was written.
pub proof fn lemma_blocks_round_trip(
    parts: Seq<Seq<u8>>,
    words: Seq<Seq<u16>>,
    unit: int,
    k: int,
)
    requires
        unit == 2 || unit == 4,
        parts.len() == words.len(),
        forall|j: int| 0 <= j < parts.len() ==> #[trigger] parts[j] == bytes_of_words(words[j]),
        parts_in_units(parts, unit),
        starts_fit(parts, unit, parts.len() as int),
        0 <= k < parts.len(),
    ensures
        ({
            let offsets = bytes_of_words(start_words(parts, unit, parts.len() as int));
            let data = joined(parts);
            &&& offsets.len() / 2 == parts.len()
            &&& offset_entry(offsets, unit, k) <= entry_end(offsets, unit, data.len() as int, k)
                <= data.len()
            &&& block_words(offsets, data, unit, k) == words[k]
        }),
{
    let n = parts.len() as int;
    let starts = start_words(parts, unit, n);
    let offsets = bytes_of_words(starts);
    let data = joined(parts);
    lemma_word_of_bytes(starts, k);
    lemma_unit_starts(parts, unit, k);
    lemma_unit_starts(parts, unit, k + 1);
    lemma_joined_part(parts, k);
    assert(parts.subrange(0, n) =~= parts);
    assert(offset_entry(offsets, unit, k) == part_start(parts, k));
    if k + 1 < n {
        lemma_word_of_bytes(starts, k + 1);
    }
    assert(entry_end(offsets, unit, data.len() as int, k) == part_start(parts, k + 1));
    lemma_words_round_trip(words[k]);
}

/// Blocks of words that were written behind a table of their starts and of
/// the end of the last are found again.
pub proof fn lemma_sized_round_trip(parts: Seq<Seq<u8>>, words: Seq<Seq<u16>>, k: int)
    requires
        parts.len() == words.len(),
        forall|j: int| 0 <= j < parts.len() ==> #[trigger] parts[j] == bytes_of_words(words[j]),
        starts_fit(parts, 2, (parts.len() + 1) as int),
        0 <= k < parts.len(),
    ensures
        ({
            let offsets = bytes_of_words(start_words(parts, 2, (parts.len() + 1) as int));
            let data = joined(parts);
            &&& sized_count(offsets) == parts.len()
            &&& sized_block_ok(offsets, data, k)
            &&& sized_words(offsets, data, k) == words[k]
        }),
{
    let n = parts.len() as int;
    let starts = start_words(parts, 2, n + 1);
    let offsets = bytes_of_words(starts);
    let data = joined(parts);
    assert(parts_in_units(parts, 2)) by {
        assert forall|j: int| 0 <= j < parts.len() implies (#[trigger] parts[j]).len() as int % 2
            == 0 by {
            assert(parts[j] == bytes_of_words(words[j]));
        }
    }
    lemma_word_of_bytes(starts, k);
    lemma_word_of_bytes(starts, k + 1);
    lemma_unit_starts(parts, 2, k);
    lemma_unit_starts(parts, 2, k + 1);
    lemma_joined_part(parts, k);
    lemma_words_round_trip(words[k]);
}

/// Emitters of 33 words each are found again in the table written for them.
pub proof fn lemma_emitters_round_trip(emitters: Seq<ParticleEmitter>, r: int)
    requires
        forall|j: int| 0 <= j < emitters.len() ==> (#[trigger] emitters[j]).data@.len() == 33,
        0 <= r <= emitters.len(),
    ensures
        part_start(emitter_parts(emitters), r) == EMITTER_SIZE * r,
        r < emitters.len() ==> emitter_row(joined(emitter_parts(emitters)), r)
            == emitters[r].data@,
    decreases r,
{
    let parts = emitter_parts(emitters);
    if r > 0 {
        lemma_emitters_round_trip(emitters, r - 1);
        lemma_joined_part(parts, r - 1);
        assert(emitters[r - 1].data@.len() == 33);
    } else {
        assert(parts.subrange(0, 0) =~= Seq::<Seq<u8>>::empty());
    }
    if r < emitters.len() {
        lemma_joined_part(parts, r);
        assert(emitters[r].data@.len() == 33);
        lemma_words_round_trip(emitters[r].data@);
    }
}

/// An item is written in 21 words.
pub proof fn lemma_item_words_len(item: Item)
    ensures
        item_words(item).len() == 21,
        bytes_of_words(item_words(item)).len() == ITEM_SIZE,
{
}

/// The rows of the items stand one behind the other in their table.
pub proof fn lemma_items_data(items: Seq<Item>, r: int)
    requires
        0 <= r < items.len(),
    ensures
        items_data(items).len() == ITEM_SIZE * items.len(),
        items_data(items).subrange(ITEM_SIZE * r, ITEM_SIZE * r + ITEM_SIZE) == bytes_of_words(
            item_words(items[r]),
        ),
    decreases items.len(),
{
    let init = items.drop_last();
    lemma_item_words_len(items.last());
    lemma_items_data_len(init);
    if r == items.len() - 1 {
        assert(items_data(items).subrange(ITEM_SIZE * r, ITEM_SIZE * r + ITEM_SIZE)
            =~= bytes_of_words(item_words(items[r])));
    } else {
        lemma_items_data(init, r);
        assert(items_data(items).subrange(ITEM_SIZE * r, ITEM_SIZE * r + ITEM_SIZE)
            =~= items_data(init).subrange(ITEM_SIZE * r, ITEM_SIZE * r + ITEM_SIZE));
    }
}

/// Items are written in rows of one length.
pub proof fn lemma_items_data_len(items: Seq<Item>)
    ensures
        items_data(items).len() == ITEM_SIZE * items.len(),
    decreases items.len(),
{
    if items.len() > 0 {
        lemma_items_data_len(items.drop_last());
        lemma_item_words_len(items.last());
    }
}

/// Well-formed items are what the table written for them reads as.
pub proof fn lemma_items_round_trip(items: Seq<Item>, codes: Seq<CharEncoding>, r: int)
    requires
        0 <= r < items.len(),
        items[r].wf(codes),
    ensures
        items_data(items).len() / ITEM_SIZE as nat == items.len(),
        item_is(items[r], item_row(items_data(items), r), codes),
{
    lemma_items_data(items, r);
    lemma_words_round_trip(item_words(items[r]));
    lemma_item_round_trip(items[r], codes);
}

/// A character is written in 48 words.
pub proof fn lemma_character_words_len(c: Character)
    ensures
        character_words(c).len() == 48,
        bytes_of_words(character_words(c)).len() == CHARACTER_SIZE,
{
}

/// Characters are written in rows of one length.
pub proof fn lemma_characters_data_len(characters: Seq<Character>)
    ensures
        characters_data(characters).len() == CHARACTER_SIZE * characters.len(),
    decreases characters.len(),
{
    if characters.len() > 0 {
        lemma_characters_data_len(characters.drop_last());
        lemma_character_words_len(characters.last());
    }
}

/// The rows of the characters stand one behind the other in their table.
pub proof fn lemma_characters_data(characters: Seq<Character>, r: int)
    requires
        0 <= r < characters.len(),
    ensures
        characters_data(characters).len() == CHARACTER_SIZE * characters.len(),
        characters_data(characters).subrange(CHARACTER_SIZE * r, CHARACTER_SIZE * r + CHARACTER_SIZE)
            == bytes_of_words(character_words(characters[r])),
    decreases characters.len(),
{
    let init = characters.drop_last();
    lemma_character_words_len(characters.last());
    lemma_characters_data_len(init);
    if r == characters.len() - 1 {
        assert(characters_data(characters).subrange(
            CHARACTER_SIZE * r,
            CHARACTER_SIZE * r + CHARACTER_SIZE,
        ) =~= bytes_of_words(character_words(characters[r])));
    } else {
        lemma_characters_data(init, r);
        assert(characters_data(characters).subrange(
            CHARACTER_SIZE * r,
            CHARACTER_SIZE * r + CHARACTER_SIZE,
        ) =~= characters_data(init).subrange(CHARACTER_SIZE * r, CHARACTER_SIZE * r + CHARACTER_SIZE));
    }
}

/// Well-formed characters are what the table written for them reads as.
pub proof fn lemma_characters_round_trip(
    characters: Seq<Character>,
    codes: Seq<CharEncoding>,
    r: int,
)
    requires
        0 <= r < characters.len(),
        characters[r].wf(codes),
    ensures
        characters_data(characters).len() / CHARACTER_SIZE as nat == characters.len(),
        character_is(characters[r], character_row(characters_data(characters), r), codes),
{
    lemma_characters_data(characters, r);
    lemma_words_round_trip(character_words(characters[r]));
    lemma_character_round_trip(characters[r], codes);
}

/// Where words without a zero among them stand at `from` with a zero word
/// behind them, the text that starts `j` words into them is as long as what
/// is left of them.
pub proof fn lemma_text_len(s: Seq<u8>, from: int, words: Seq<u16>, j: int)
    requires
        0 <= from,
        from + 2 * (words.len() + 1) <= s.len(),
        zero_free(words),
        forall|i: int| 0 <= i < words.len() ==> le_u16(s, from + 2 * i) == #[trigger] words[i],
        le_u16(s, from + 2 * words.len()) == 0,
        0 <= j <= words.len(),
    ensures
        text_len(s, from + 2 * j) == words.len() - j,
    decreases words.len() - j,
{
    if j < words.len() {
        lemma_text_len(s, from, words, j + 1);
        assert(le_u16(s, from + 2 * j) == words[j]);
        assert(from + 2 * j + 2 == from + 2 * (j + 1));
    }
}

/// Whether a string is held exactly by what is written for it: its reference
/// fits a word, its text has no zero word and reads as its string.
pub open spec fn string_wf(string: TamaString, codes: Seq<CharEncoding>) -> bool {
    &&& string.id.wf()
    &&& zero_free(string.value.data@)
    &&& string.value.string@ == encoded(codes, string.value.data@)
}

/// Well-formed strings are found again in the table written for them: string
/// `k` starts where it was written, and is what was written.
pub proof fn lemma_strings_round_trip(strings: Seq<TamaString>, codes: Seq<CharEncoding>, k: int)
    requires
        forall|j: int| 0 <= j < strings.len() ==> string_wf(#[trigger] strings[j], codes),
        0 <= k <= strings.len(),
    ensures
        string_offset(joined(string_parts(strings)), k) == part_start(string_parts(strings), k),
        k < strings.len() ==> string_offset(joined(string_parts(strings)), k) + 10 <= joined(
            string_parts(strings),
        ).len() && tamastring_is(
            strings[k],
            joined(string_parts(strings)),
            string_offset(joined(string_parts(strings)), k),
            codes,
        ),
        k == strings.len() ==> string_offset(joined(string_parts(strings)), k) == joined(
            string_parts(strings),
        ).len(),
    decreases k,
{
    let parts = string_parts(strings);
    let s = joined(parts);
    if k > 0 {
        lemma_strings_round_trip(strings, codes, k - 1);
        lemma_string_in_table(strings, codes, k - 1);
        lemma_joined_part(parts, k - 1);
    } else {
        assert(parts.subrange(0, 0) =~= Seq::<Seq<u8>>::empty());
    }
    if k < strings.len() {
        lemma_string_in_table(strings, codes, k);
        lemma_joined_part(parts, k);
    } else {
        assert(parts.subrange(0, k) =~= parts);
    }
}

/// The string written at the start of part `k` is read there as it was
/// written, and its text is as long as it was.
pub proof fn lemma_string_in_table(strings: Seq<TamaString>, codes: Seq<CharEncoding>, k: int)
    requires
        forall|j: int| 0 <= j < strings.len() ==> string_wf(#[trigger] strings[j], codes),
        0 <= k < strings.len(),
    ensures
        ({
            let parts = string_parts(strings);
            let s = joined(parts);
            let at = part_start(parts, k);
            &&& parts[k].len() == 10 + 2 * strings[k].value.data@.len()
            &&& text_len(s, at + 8) == strings[k].value.data@.len()
            &&& tamastring_is(strings[k], s, at, codes)
        }),
{
    let parts = string_parts(strings);
    let s = joined(parts);
    let at = part_start(parts, k);
    let string = strings[k];
    let words = tamastring_words(string);
    let text = string.value.data@;
    assert(string_wf(string, codes));
    lemma_joined_part(parts, k);
    assert(parts[k] == bytes_of_words(words));
    assert(words.len() == 5 + text.len());
    assert forall|i: int| 0 <= i < words.len() implies le_u16(s, at + 2 * i) == words[i] by {
        lemma_word_in_bytes(s, at, words, i);
    }
    assert(le_u16(s, at) == words[0]);
    assert(le_u16(s, at + 2) == words[1]);
    assert(le_u16(s, at + 4) == words[2]);
    assert(le_u16(s, at + 6) == words[3]);
    assert forall|i: int| 0 <= i < text.len() implies le_u16(s, at + 8 + 2 * i) == #[trigger] text[i] by {
        assert(le_u16(s, at + 2 * (4 + i)) == words[4 + i]);
    }
    assert(le_u16(s, at + 8 + 2 * text.len()) == 0) by {
        assert(le_u16(s, at + 2 * (4 + text.len())) == words[4 + text.len() as int]);
    }
    lemma_text_len(s, at + 8, text, 0);
    assert(text_at(s, at + 8) =~= text);
    lemma_word_entity_round_trip(string.id);
}

/// The bytes of each layer of a scene.
pub open spec fn scene_layer_parts(layers: Seq<SceneLayer>) -> Seq<Seq<u8>> {
    Seq::new(layers.len(), |k: int| layer_bytes(layers[k]))
}

/// The bytes of each scene: its layers, and a zero word.
pub open spec fn scene_parts(scenes: Seq<Scene>) -> Seq<Seq<u8>> {
    Seq::new(scenes.len(), |i: int| layers_data(scenes[i].layers@) + seq![0u8, 0u8])
}

/// The layers of a scene are written one behind the other.
pub proof fn lemma_layers_data_joined(layers: Seq<SceneLayer>)
    ensures
        layers_data(layers) == joined(scene_layer_parts(layers)),
        layers_data(layers).len() % 2 == 0,
    decreases layers.len(),
{
    if layers.len() > 0 {
        lemma_layers_data_joined(layers.drop_last());
        assert(scene_layer_parts(layers).drop_last() =~= scene_layer_parts(layers.drop_last()));
    }
}

/// The scenes are written one behind the other.
pub proof fn lemma_scenes_data_joined(scenes: Seq<Scene>)
    ensures
        scenes_data(scenes) == joined(scene_parts(scenes)),
        scenes_data(scenes).len() % 2 == 0,
    decreases scenes.len(),
{
    if scenes.len() > 0 {
        lemma_scenes_data_joined(scenes.drop_last());
        lemma_layers_data_joined(scenes.last().layers@);
        assert(scene_parts(scenes).drop_last() =~= scene_parts(scenes.drop_last()));
        assert(scenes_data(scenes) =~= joined(scene_parts(scenes).drop_last()) + scene_parts(
            scenes,
        ).last());
    }
}

/// The byte at which layer `j` of a scene starts, counted from the start of
/// the scene.
pub open spec fn layer_start(layers: Seq<SceneLayer>, j: int) -> int {
    part_start(scene_layer_parts(layers), j)
}

/// The byte at which scene `i` starts.
pub open spec fn scene_start(scenes: Seq<Scene>, i: int) -> int {
    part_start(scene_parts(scenes), i)
}

/// The word at which layer `j` of a scene that starts at byte `base` is said
/// to start.
pub proof fn lemma_layer_starts_entry(layers: Seq<SceneLayer>, base: int, j: int)
    requires
        0 <= j < layers.len(),
    ensures
        layer_starts(layers, base).len() == layers.len(),
        layer_starts(layers, base)[j] == (base + layer_start(layers, j)) / 2,
    decreases layers.len(),
{
    lemma_layer_starts_len(layers, base);
    let init = layers.drop_last();
    lemma_layer_starts_len(init, base);
    if j == layers.len() - 1 {
        lemma_layers_data_joined(init);
        assert(scene_layer_parts(layers).subrange(0, j) =~= scene_layer_parts(init));
    } else {
        lemma_layer_starts_entry(init, base, j);
        assert(scene_layer_parts(layers).subrange(0, j) =~= scene_layer_parts(init).subrange(0, j));
    }
}

/// The number of layers and of bytes of the first `i` scenes.
pub proof fn lemma_scene_counts(scenes: Seq<Scene>, i: int)
    requires
        0 <= i <= scenes.len(),
    ensures
        scenes_data(scenes.subrange(0, i)).len() == scene_start(scenes, i),
        scene_start(scenes, i) % 2 == 0,
        0 <= scene_start(scenes, i),
        i < scenes.len() ==> all_layer_starts(scenes.subrange(0, i + 1)) == all_layer_starts(
            scenes.subrange(0, i),
        ) + layer_starts(scenes[i].layers@, scene_start(scenes, i)),
{
    let prefix = scenes.subrange(0, i);
    lemma_scenes_data_joined(prefix);
    assert(scene_parts(prefix) =~= scene_parts(scenes).subrange(0, i));
    if i < scenes.len() {
        let next = scenes.subrange(0, i + 1);
        assert(next.drop_last() =~= prefix);
        assert(next.last() == scenes[i]);
    }
}

/// Whether every layer of every scene is held exactly by its row.
pub open spec fn scenes_wf(scenes: Seq<Scene>) -> bool {
    forall|i: int, j: int|
        0 <= i < scenes.len() && 0 <= j < scenes[i].layers@.len() ==> (#[trigger] scenes[i].layers@[j]).wf()
}

/// The number of layers in front of scene `i`.
pub open spec fn layers_before(scenes: Seq<Scene>, i: int) -> int {
    all_layer_starts(scenes.subrange(0, i)).len() as int
}

/// What the table of the scenes written for them says of scene `i`: the
/// number of layers in front of it and behind it.
pub proof fn lemma_scene_entries(scenes: Seq<Scene>, i: int)
    requires
        scenes_fit(scenes),
        0 <= i < scenes.len(),
    ensures
        ({
            let s3 = bytes_of_words(as_words(scene_starts(scenes)));
            &&& sized_count(s3) == scenes.len()
            &&& entry_at(s3, i) == layers_before(scenes, i)
            &&& entry_at(s3, i + 1) == layers_before(scenes, i) + scenes[i].layers@.len()
            &&& layers_before(scenes, i) + scenes[i].layers@.len() <= all_layer_starts(
                scenes,
            ).len()
        }),
{
    let starts = scene_starts(scenes);
    let base = scene_start(scenes, i);
    lemma_scene_starts_entry(scenes, i);
    lemma_scene_starts_entry(scenes, i + 1);
    lemma_word_of_bytes(as_words(starts), i);
    lemma_word_of_bytes(as_words(starts), i + 1);
    lemma_all_layer_starts_prefix(scenes, i + 1);
    lemma_scene_counts(scenes, i);
    lemma_layer_starts_len(scenes[i].layers@, base);
}

/// What the table of the layers written for the scenes says of layer `j` of
/// scene `i`: the word at which it starts.
pub proof fn lemma_layer_entry(scenes: Seq<Scene>, i: int, j: int)
    requires
        scenes_fit(scenes),
        0 <= i < scenes.len(),
        0 <= j < scenes[i].layers@.len(),
    ensures
        ({
            let s4 = bytes_of_words(as_words(all_layer_starts(scenes)));
            let place = layers_before(scenes, i) + j;
            &&& 0 <= place < all_layer_starts(scenes).len()
            &&& entry_at(s4, place) == (scene_start(scenes, i) + layer_start(
                scenes[i].layers@,
                j,
            )) / 2
        }),
{
    let all = all_layer_starts(scenes);
    let layers = scenes[i].layers@;
    let base = scene_start(scenes, i);
    let before = all_layer_starts(scenes.subrange(0, i));
    let upto = all_layer_starts(scenes.subrange(0, i + 1));
    let place = before.len() + j;
    lemma_all_layer_starts_prefix(scenes, i + 1);
    lemma_scene_counts(scenes, i);
    lemma_layer_starts_entry(layers, base, j);
    assert(upto.len() == before.len() + layers.len());
    assert(all[place] == all.subrange(0, upto.len() as int)[place]);
    assert(upto[place] == layer_starts(layers, base)[j]);
    lemma_word_of_bytes(as_words(all), place);
}

/// Layer `j` of scene `i` stands in the data written for the scenes where
/// its scene starts and, from there, where the layer starts.
pub proof fn lemma_layer_in_data(scenes: Seq<Scene>, i: int, j: int)
    requires
        0 <= i < scenes.len(),
        0 <= j < scenes[i].layers@.len(),
    ensures
        ({
            let s5 = scenes_data(scenes);
            let start = scene_start(scenes, i) + layer_start(scenes[i].layers@, j);
            let len = layer_bytes(scenes[i].layers@[j]).len();
            &&& 0 <= start
            &&& start % 2 == 0
            &&& start + len <= s5.len()
            &&& s5.subrange(start, start + len) == layer_bytes(scenes[i].layers@[j])
        }),
{
    let s5 = scenes_data(scenes);
    let layers = scenes[i].layers@;
    let parts = scene_layer_parts(layers);
    let scene_bytes = scene_parts(scenes);
    let base = scene_start(scenes, i);
    let inner = layer_start(layers, j);
    lemma_scene_counts(scenes, i);
    lemma_scenes_data_joined(scenes);
    lemma_layers_data_joined(layers);
    lemma_joined_part(scene_bytes, i);
    lemma_joined_part(parts, j);
    assert forall|k: int| 0 <= k < parts.len() implies (#[trigger] parts[k]).len() % 2 == 0 by {}
    lemma_even_starts(parts, j);
    lemma_part_start_grows(parts, j + 1, parts.len() as int);
    assert(parts.subrange(0, parts.len() as int) =~= parts);
    assert(parts[j] == layer_bytes(layers[j]));
    lemma_part_of_front(joined(parts), seq![0u8, 0u8], inner, parts[j]);
    assert(scene_bytes[i] == joined(parts) + seq![0u8, 0u8]);
    lemma_nested_part(s5, base, scene_bytes[i], inner, parts[j]);
}

/// What the tables written for the scenes say of layer `j` of scene `i`: the
/// byte at which it starts, where the layer is read back as it was written.
pub proof fn lemma_scene_layer_found(scenes: Seq<Scene>, i: int, j: int)
    requires
        scenes_wf(scenes),
        scenes_fit(scenes),
        0 <= i < scenes.len(),
        0 <= j < scenes[i].layers@.len(),
    ensures
        ({
            let s3 = bytes_of_words(as_words(scene_starts(scenes)));
            let s4 = bytes_of_words(as_words(all_layer_starts(scenes)));
            let s5 = scenes_data(scenes);
            &&& layer_fits(s5, scene_layer_offset(s3, s4, i, j))
            &&& layer_at(s5, scene_layer_offset(s3, s4, i, j)) == scenes[i].layers@[j]
        }),
{
    let s5 = scenes_data(scenes);
    let start = scene_start(scenes, i) + layer_start(scenes[i].layers@, j);
    lemma_scene_entries(scenes, i);
    lemma_layer_entry(scenes, i, j);
    lemma_layer_in_data(scenes, i, j);
    assert(scenes[i].layers@[j].wf());
    lemma_scene_layer_round_trip(s5, start, scenes[i].layers@[j]);
}

/// Well-formed scenes are what the three tables written for them read as.
pub proof fn lemma_scenes_round_trip(scenes: Seq<Scene>)
    requires
        scenes_wf(scenes),
        scenes_fit(scenes),
    ensures
        scenes_readable(
            bytes_of_words(as_words(scene_starts(scenes))),
            bytes_of_words(as_words(all_layer_starts(scenes))),
            scenes_data(scenes),
        ),
        scenes_are(
            scenes,
            bytes_of_words(as_words(scene_starts(scenes))),
            bytes_of_words(as_words(all_layer_starts(scenes))),
            scenes_data(scenes),
        ),
{
    let s3 = bytes_of_words(as_words(scene_starts(scenes)));
    let s4 = bytes_of_words(as_words(all_layer_starts(scenes)));
    let s5 = scenes_data(scenes);
    lemma_scene_starts_entry(scenes, 0);
    assert(sized_count(s3) == scenes.len());
    assert forall|i: int| 0 <= i < sized_count(s3) implies scene_readable(s3, s4, s5, i) by {
        lemma_scene_entries(scenes, i);
        assert forall|j: int| 0 <= j < scene_size(s3, i) implies layer_fits(
            s5,
            #[trigger] scene_layer_offset(s3, s4, i, j),
        ) by {
            lemma_scene_layer_found(scenes, i, j);
        }
    }
    assert forall|i: int| 0 <= i < scenes.len() implies (#[trigger] scenes[i]).layers@.len()
        == scene_size(s3, i) by {
        lemma_scene_entries(scenes, i);
    }
    assert forall|i: int, j: int|
        0 <= i < scenes.len() && 0 <= j < scenes[i].layers@.len() implies #[trigger] scenes[i].layers@[j]
        == layer_at(s5, scene_layer_offset(s3, s4, i, j)) by {
        lemma_scene_layer_found(scenes, i, j);
    }
}

/// Whether every layer is held exactly by its row.
pub open spec fn frame_layers_wf(layers: Seq<FrameLayer>) -> bool {
    forall|k: int| 0 <= k < layers.len() ==> (#[trigger] layers[k]).wf()
}

/// Well-formed layers that were written one behind the other are read back
/// one after the other: layer `k` starts where it was written, and is what
/// was written.
pub proof fn lemma_frame_layers_round_trip(layers: Seq<FrameLayer>, k: int)
    requires
        frame_layers_wf(layers),
        0 <= k <= layers.len(),
    ensures
        frame_layer_offset(joined(layer_parts(layers)), k) == part_start(layer_parts(layers), k),
        k < layers.len() ==> frame_layer_fits(
            joined(layer_parts(layers)),
            frame_layer_offset(joined(layer_parts(layers)), k),
        ) && frame_layer_at(
            joined(layer_parts(layers)),
            frame_layer_offset(joined(layer_parts(layers)), k),
        ) == layers[k],
        k == layers.len() ==> frame_layer_offset(joined(layer_parts(layers)), k) == joined(
            layer_parts(layers),
        ).len(),
    decreases k,
{
    let parts = layer_parts(layers);
    let s = joined(parts);
    if k > 0 {
        lemma_frame_layers_round_trip(layers, k - 1);
        lemma_joined_part(parts, k - 1);
        assert(layers[k - 1].wf());
        lemma_part_start_grows(parts, k, parts.len() as int);
        assert(parts.subrange(0, parts.len() as int) =~= parts);
        lemma_frame_layer_round_trip(s, part_start(parts, k - 1), layers[k - 1]);
    } else {
        assert(parts.subrange(0, 0) =~= Seq::<Seq<u8>>::empty());
    }
    if k < layers.len() {
        lemma_joined_part(parts, k);
        assert(layers[k].wf());
        lemma_part_start_grows(parts, k + 1, parts.len() as int);
        assert(parts.subrange(0, parts.len() as int) =~= parts);
        lemma_frame_layer_round_trip(s, part_start(parts, k), layers[k]);
    } else {
        assert(parts.subrange(0, k) =~= parts);
    }
}

/// The number of layers in front of frame `k`.
pub open spec fn frame_layers_before(frames: Seq<Frame>, k: int) -> nat {
    frames_layers(frames.subrange(0, k)).len()
}

/// The two words of frame `k` in the table of the frames.
pub proof fn lemma_frame_words_entry(frames: Seq<Frame>, k: int)
    requires
        0 <= k < frames.len(),
    ensures
        frame_words(frames).len() == 2 * frames.len(),
        frame_words(frames)[2 * k] == frame_entry(frames[k], frame_layers_before(frames, k))[0],
        frame_words(frames)[2 * k + 1] == frame_entry(
            frames[k],
            frame_layers_before(frames, k),
        )[1],
    decreases frames.len(),
{
    let init = frames.drop_last();
    lemma_frame_words_len(init);
    if k == frames.len() - 1 {
        assert(frames.subrange(0, k) =~= init);
    } else {
        lemma_frame_words_entry(init, k);
        assert(frames.subrange(0, k) =~= init.subrange(0, k));
    }
}

/// A frame is written in two words.
pub proof fn lemma_frame_words_len(frames: Seq<Frame>)
    ensures
        frame_words(frames).len() == 2 * frames.len(),
    decreases frames.len(),
{
    if frames.len() > 0 {
        lemma_frame_words_len(frames.drop_last());
    }
}

/// The layers of frame `k` stand among the layers of all frames behind the
/// layers of the frames in front of it.
pub proof fn lemma_frame_layers_place(frames: Seq<Frame>, k: int)
    requires
        0 <= k < frames.len(),
    ensures
        frame_layers_before(frames, k) + frame_layers(frames[k]).len() <= frames_layers(
            frames,
        ).len(),
        frames_layers(frames).subrange(
            frame_layers_before(frames, k) as int,
            (frame_layers_before(frames, k) + frame_layers(frames[k]).len()) as int,
        ) == frame_layers(frames[k]),
    decreases frames.len(),
{
    let init = frames.drop_last();
    let before = frame_layers_before(frames, k) as int;
    let own = frame_layers(frames[k]);
    if k == frames.len() - 1 {
        assert(frames.subrange(0, k) =~= init);
        assert(frames_layers(frames).subrange(before, before + own.len()) =~= own);
    } else {
        lemma_frame_layers_place(init, k);
        assert(frames.subrange(0, k) =~= init.subrange(0, k));
        assert(frames_layers(frames).subrange(before, before + own.len()) =~= frames_layers(
            init,
        ).subrange(before, before + own.len()));
    }
}

/// Whether every group has its 53 frames.
pub open spec fn groups_whole(groups: Seq<FrameGroup>) -> bool {
    forall|g: int| 0 <= g < groups.len() ==> (#[trigger] groups[g]).frames@.len() == GROUP_SIZE
}

/// Whole groups hold 53 frames each.
pub proof fn lemma_flat_frames_len(groups: Seq<FrameGroup>)
    requires
        groups_whole(groups),
    ensures
        flat_frames(groups).len() == GROUP_SIZE * groups.len(),
    decreases groups.len(),
{
    if groups.len() > 0 {
        let init = groups.drop_last();
        assert forall|g: int| 0 <= g < init.len() implies (#[trigger] init[g]).frames@.len()
            == GROUP_SIZE by {
            assert(init[g] == groups[g]);
        }
        lemma_flat_frames_len(init);
        assert(groups.last().frames@.len() == GROUP_SIZE);
    }
}

/// Frame `f` of group `g` is frame `53 * g + f` of all frames.
pub proof fn lemma_flat_frame(groups: Seq<FrameGroup>, g: int, f: int)
    requires
        groups_whole(groups),
        0 <= g < groups.len(),
        0 <= f < GROUP_SIZE,
    ensures
        flat_frames(groups).len() == GROUP_SIZE * groups.len(),
        flat_frames(groups)[GROUP_SIZE * g + f] == groups[g].frames@[f],
{
    lemma_flat_frames_len(groups);
    let head = groups.subrange(0, g);
    assert forall|h: int| 0 <= h < head.len() implies (#[trigger] head[h]).frames@.len()
        == GROUP_SIZE by {
        assert(head[h] == groups[h]);
    }
    lemma_flat_frames_len(head);
    assert(groups[g].frames@.len() == GROUP_SIZE);
    lemma_flat_frames_prefix(groups, g, f + 1);
    let upto = flat_frames(groups).subrange(0, GROUP_SIZE * g + f + 1);
    assert(upto[GROUP_SIZE * g + f] == flat_frames(groups)[GROUP_SIZE * g + f]);
}

/// What the table of the frames written for them says of frame `k`: the
/// layers that it stands for.
pub proof fn lemma_frame_found(frames: Seq<Frame>, k: int)
    requires
        frames_fit(frames),
        0 <= k < frames.len(),
    ensures
        ({
            let s18 = bytes_of_words(frame_words(frames));
            let layers = frames_layers(frames);
            &&& s18.len() / 4 == frames.len()
            &&& frame_found(s18, layers, k)
            &&& frame_of(s18, layers, k) == frame_view(frames[k])
        }),
{
    let words = frame_words(frames);
    let s18 = bytes_of_words(words);
    let layers = frames_layers(frames);
    lemma_frame_words_entry(frames, k);
    lemma_word_of_bytes(words, 2 * k);
    lemma_word_of_bytes(words, 2 * k + 1);
    lemma_frame_layers_place(frames, k);
    assert(frame_first(s18, k) == words[2 * k]) by {
        assert(4 * k == 2 * (2 * k));
    }
    assert(frame_count(s18, k) == words[2 * k + 1]) by {
        assert(4 * k + 2 == 2 * (2 * k + 1));
    }
    assert(crate::data_pack::frame::frame_fits(frames, k));
}

/// Whole groups of frames with well-formed layers are what the tables
/// written for them read as.
pub proof fn lemma_frames_round_trip(groups: Seq<FrameGroup>)
    requires
        groups_whole(groups),
        frames_fit(flat_frames(groups)),
        frame_layers_wf(frames_layers(flat_frames(groups))),
    ensures
        frames_readable(
            joined(layer_parts(frames_layers(flat_frames(groups)))),
            bytes_of_words(frame_words(flat_frames(groups))),
        ),
        frame_groups_are(
            groups,
            joined(layer_parts(frames_layers(flat_frames(groups)))),
            bytes_of_words(frame_words(flat_frames(groups))),
        ),
{
    let frames = flat_frames(groups);
    let layers = frames_layers(frames);
    let s15 = joined(layer_parts(layers));
    let s18 = bytes_of_words(frame_words(frames));
    let n = layers.len();
    lemma_frame_layers_round_trip(layers, n as int);
    assert forall|k: int| 0 <= k < n implies frame_layer_fits(
        s15,
        #[trigger] frame_layer_offset(s15, k),
    ) by {
        lemma_frame_layers_round_trip(layers, k);
    }
    assert(frame_layers_end(s15, n));
    assert(frame_layers_of(s15, n) =~= layers) by {
        assert forall|k: int| 0 <= k < n implies frame_layers_of(s15, n)[k] == layers[k] by {
            lemma_frame_layers_round_trip(layers, k);
        }
    }
    lemma_flat_frames_len(groups);
    lemma_frame_words_len(frames);
    assert(s18.len() / 4 == frames.len());
    assert forall|k: int| 0 <= k < s18.len() / 4 implies frame_found(s18, layers, k) by {
        lemma_frame_found(frames, k);
    }
    assert forall|g: int, f: int| 0 <= g < groups.len() && 0 <= f < GROUP_SIZE implies frame_view(
        #[trigger] groups[g].frames@[f],
    ) == frame_of(s18, layers, GROUP_SIZE * g + f) by {
        lemma_flat_frame(groups, g, f);
        lemma_frame_found(frames, GROUP_SIZE * g + f);
    }
}

/// Whether a data pack is held exactly by what is written for it: every
/// record is well formed; an emitter has 33 words and a graphics node an even
/// number of words; a group has 53 frames.
pub open spec fn pack_wf(pack: DataPack, codes: Seq<CharEncoding>) -> bool {
    &&& forall|k: int|
        0 <= k < pack.particle_emitters@.len() ==> (#[trigger] pack.particle_emitters@[k]).data@.len()
            == 33
    &&& scenes_wf(pack.scenes@)
    &&& forall|k: int|
        0 <= k < pack.tamastrings@.len() ==> string_wf(#[trigger] pack.tamastrings@[k], codes)
    &&& forall|k: int| 0 <= k < pack.items@.len() ==> (#[trigger] pack.items@[k]).wf(codes)
    &&& forall|k: int|
        0 <= k < pack.characters@.len() ==> (#[trigger] pack.characters@[k]).wf(codes)
    &&& forall|k: int|
        0 <= k < pack.graphics_nodes@.len() ==> (#[trigger] pack.graphics_nodes@[k]).data@.len()
            % 2 == 0
    &&& groups_whole(pack.frame_groups@)
    &&& frame_layers_wf(frames_layers(flat_frames(pack.frame_groups@)))
}

/// Whether `s` holds the tables of `pack` as they were written, but for the
/// two gaps.
pub open spec fn holds_tables(s: Seq<u8>, pack: DataPack) -> bool {
    forall|t: int|
        0 <= t < TABLE_COUNT && !is_gap(t) ==> #[trigger] table_bytes(s, t) == pack_tables(pack)[t]
}

/// Parts of an even number of bytes make an even number of bytes together.
pub proof fn lemma_joined_even(parts: Seq<Seq<u8>>)
    requires
        parts_even(parts),
    ensures
        joined(parts).len() % 2 == 0,
{
    lemma_even_starts(parts, parts.len() as int);
    assert(parts.subrange(0, parts.len() as int) =~= parts);
}

/// The tables written for a well-formed data pack have an even number of
/// bytes each.
pub proof fn lemma_pack_tables_even(pack: DataPack)
    ensures
        pack_tables(pack).len() == TABLE_COUNT,
        parts_even(pack_tables(pack)),
{
    let tables = pack_tables(pack);
    assert(parts_even(word_parts(pack.table1@)));
    lemma_joined_even(word_parts(pack.table1@));
    assert(parts_even(emitter_parts(pack.particle_emitters@)));
    lemma_joined_even(emitter_parts(pack.particle_emitters@));
    lemma_scenes_data_joined(pack.scenes@);
    assert(parts_even(string_parts(pack.tamastrings@)));
    lemma_joined_even(string_parts(pack.tamastrings@));
    assert(parts_even(word_parts(pack.table9@)));
    lemma_joined_even(word_parts(pack.table9@));
    lemma_items_data_len(pack.items@);
    lemma_characters_data_len(pack.characters@);
    assert(parts_even(node_parts(pack.graphics_nodes@)));
    lemma_joined_even(node_parts(pack.graphics_nodes@));
    let layers = frames_layers(flat_frames(pack.frame_groups@));
    assert(parts_even(layer_parts(layers)));
    lemma_joined_even(layer_parts(layers));
    assert forall|k: int| 0 <= k < tables.len() implies (#[trigger] tables[k]).len() % 2 == 0 by {
        if k == 0 {
        } else if k == 1 {
        } else if k == 2 {
        } else if k == 3 {
        } else if k == 4 {
        } else if k == 5 {
        } else if k == 6 {
        } else if k == 7 {
        } else if k == 8 {
        } else if k == 9 {
        } else if k == 10 {
        } else if k == 11 {
        } else if k == 12 {
        } else if k == 13 {
        } else if k == 14 {
        } else if k == 15 {
        } else if k == 16 {
        } else if k == 17 {
        } else if k == 18 {
        } else {
        }
    }
}

/// The blocks of the first and of the ninth pair of tables and the graphics
/// nodes are read back.
pub proof fn lemma_pack_blocks(pack: DataPack, s: Seq<u8>, codes: Seq<CharEncoding>)
    requires
        pack_wf(pack, codes),
        pack_fits(pack),
        holds_tables(s, pack),
    ensures
        table_readable(s, 1),
        table_readable(s, 9),
        table_readable(s, 14),
        pack.table1@.len() == table_bytes(s, 0).len() / 2,
        forall|k: int|
            0 <= k < pack.table1@.len() ==> (#[trigger] pack.table1@[k])@ == block_words(
                table_bytes(s, 0),
                table_bytes(s, 1),
                2,
                k,
            ),
        pack.table9@.len() == sized_count(table_bytes(s, 8)),
        forall|k: int|
            0 <= k < pack.table9@.len() ==> (#[trigger] pack.table9@[k])@ == sized_words(
                table_bytes(s, 8),
                table_bytes(s, 9),
                k,
            ),
        pack.graphics_nodes@.len() == table_bytes(s, 13).len() / 2,
        forall|k: int|
            0 <= k < pack.graphics_nodes@.len() ==> (#[trigger] pack.graphics_nodes@[k]).data@
                == block_words(table_bytes(s, 13), table_bytes(s, 14), 4, k),
{
    let tables = pack_tables(pack);
    assert(table_bytes(s, 0) == tables[0]);
    assert(table_bytes(s, 1) == tables[1]);
    assert(table_bytes(s, 8) == tables[8]);
    assert(table_bytes(s, 9) == tables[9]);
    assert(table_bytes(s, 13) == tables[13]);
    assert(table_bytes(s, 14) == tables[14]);
    let first = word_parts(pack.table1@);
    let first_words = Seq::new(pack.table1@.len(), |k: int| pack.table1@[k]@);
    assert(parts_in_units(first, 2));
    assert forall|k: int| 0 <= k < first.len() implies offset_entry(tables[0], 2, k)
        <= #[trigger] entry_end(tables[0], 2, tables[1].len() as int, k) <= tables[1].len()
        && block_words(tables[0], tables[1], 2, k) == pack.table1@[k]@ by {
        lemma_blocks_round_trip(first, first_words, 2, k);
    }
    assert(tables[0].len() / 2 == first.len());
    let ninth = word_parts(pack.table9@);
    let ninth_words = Seq::new(pack.table9@.len(), |k: int| pack.table9@[k]@);
    assert forall|k: int| 0 <= k < ninth.len() implies sized_block_ok(tables[8], tables[9], k)
        && sized_words(tables[8], tables[9], k) == pack.table9@[k]@ by {
        lemma_sized_round_trip(ninth, ninth_words, k);
    }
    assert(sized_count(tables[8]) == ninth.len());
    let nodes = node_parts(pack.graphics_nodes@);
    let node_words = Seq::new(pack.graphics_nodes@.len(), |k: int| pack.graphics_nodes@[k].data@);
    assert(parts_in_units(nodes, 4)) by {
        assert forall|k: int| 0 <= k < nodes.len() implies (#[trigger] nodes[k]).len() as int % 4
            == 0 by {
            assert(pack.graphics_nodes@[k].data@.len() % 2 == 0);
        }
    }
    assert forall|k: int| 0 <= k < nodes.len() implies offset_entry(tables[13], 4, k)
        <= #[trigger] entry_end(tables[13], 4, tables[14].len() as int, k) <= tables[14].len()
        && block_words(tables[13], tables[14], 4, k) == pack.graphics_nodes@[k].data@ by {
        lemma_blocks_round_trip(nodes, node_words, 4, k);
    }
    assert(tables[13].len() / 2 == nodes.len());
}

/// The rows of a data pack are read back: emitters, items and characters.
pub proof fn lemma_pack_rows(pack: DataPack, s: Seq<u8>, codes: Seq<CharEncoding>)
    requires
        pack_wf(pack, codes),
        holds_tables(s, pack),
    ensures
        pack.particle_emitters@.len() == table_bytes(s, 2).len() / EMITTER_SIZE as nat,
        forall|r: int|
            0 <= r < pack.particle_emitters@.len() ==> (#[trigger] pack.particle_emitters@[r]).data@
                == emitter_row(table_bytes(s, 2), r),
        pack.items@.len() == table_bytes(s, 10).len() / ITEM_SIZE as nat,
        forall|r: int|
            0 <= r < pack.items@.len() ==> item_is(
                #[trigger] pack.items@[r],
                item_row(table_bytes(s, 10), r),
                codes,
            ),
        pack.characters@.len() == table_bytes(s, 11).len() / CHARACTER_SIZE as nat,
        forall|r: int|
            0 <= r < pack.characters@.len() ==> character_is(
                #[trigger] pack.characters@[r],
                character_row(table_bytes(s, 11), r),
                codes,
            ),
{
    let tables = pack_tables(pack);
    assert(table_bytes(s, 2) == tables[2]);
    assert(table_bytes(s, 10) == tables[10]);
    assert(table_bytes(s, 11) == tables[11]);
    let emitters = pack.particle_emitters@;
    lemma_emitters_round_trip(emitters, emitters.len() as int);
    assert(emitter_parts(emitters).subrange(0, emitters.len() as int) =~= emitter_parts(emitters));
    assert forall|r: int| 0 <= r < emitters.len() implies (#[trigger] emitters[r]).data@
        == emitter_row(tables[2], r) by {
        lemma_emitters_round_trip(emitters, r);
    }
    lemma_items_data_len(pack.items@);
    assert forall|r: int| 0 <= r < pack.items@.len() implies item_is(
        #[trigger] pack.items@[r],
        item_row(tables[10], r),
        codes,
    ) by {
        lemma_items_round_trip(pack.items@, codes, r);
    }
    lemma_characters_data_len(pack.characters@);
    assert forall|r: int| 0 <= r < pack.characters@.len() implies character_is(
        #[trigger] pack.characters@[r],
        character_row(tables[11], r),
        codes,
    ) by {
        lemma_characters_round_trip(pack.characters@, codes, r);
    }
}

/// The strings of a data pack are read back.
pub proof fn lemma_pack_strings(pack: DataPack, s: Seq<u8>, codes: Seq<CharEncoding>)
    requires
        pack_wf(pack, codes),
        holds_tables(s, pack),
    ensures
        forall|k: int|
            0 <= k < pack.tamastrings@.len() ==> #[trigger] string_offset(table_bytes(s, 6), k)
                + 10 <= table_bytes(s, 6).len(),
        forall|k: int|
            0 <= k < pack.tamastrings@.len() ==> tamastring_is(
                #[trigger] pack.tamastrings@[k],
                table_bytes(s, 6),
                string_offset(table_bytes(s, 6), k),
                codes,
            ),
        string_offset(table_bytes(s, 6), pack.tamastrings@.len() as int) + 10 > table_bytes(
            s,
            6,
        ).len(),
{
    let strings = pack.tamastrings@;
    assert(table_bytes(s, 6) == pack_tables(pack)[6]);
    lemma_strings_round_trip(strings, codes, strings.len() as int);
    assert forall|k: int| 0 <= k < strings.len() implies #[trigger] string_offset(
        table_bytes(s, 6),
        k,
    ) + 10 <= table_bytes(s, 6).len() && tamastring_is(
        strings[k],
        table_bytes(s, 6),
        string_offset(table_bytes(s, 6), k),
        codes,
    ) by {
        lemma_strings_round_trip(strings, codes, k);
    }
}

/// The scenes written for a well-formed data pack are read back.
pub proof fn lemma_pack_scenes(pack: DataPack, s: Seq<u8>, codes: Seq<CharEncoding>)
    requires
        pack_wf(pack, codes),
        pack_fits(pack),
        holds_tables(s, pack),
    ensures
        table_readable(s, 5),
        scenes_are(pack.scenes@, table_bytes(s, 3), table_bytes(s, 4), table_bytes(s, 5)),
{
    let tables = pack_tables(pack);
    assert(table_bytes(s, 3) == tables[3]);
    assert(table_bytes(s, 4) == tables[4]);
    assert(table_bytes(s, 5) == tables[5]);
    if pack.scenes@.len() == 0 {
        assert(tables[3].len() == 0);
        assert(sized_count(tables[3]) == 0);
    } else {
        lemma_scenes_round_trip(pack.scenes@);
    }
}

/// The frames and the number of the card written for a well-formed data
/// pack are read back.
pub proof fn lemma_pack_frames(pack: DataPack, s: Seq<u8>, codes: Seq<CharEncoding>)
    requires
        pack_wf(pack, codes),
        pack_fits(pack),
        holds_tables(s, pack),
    ensures
        table_readable(s, 18),
        frame_groups_are(pack.frame_groups@, table_bytes(s, 15), table_bytes(s, 18)),
        pack.card_id == card_id_of(table_bytes(s, 19)),
{
    let tables = pack_tables(pack);
    assert(table_bytes(s, 15) == tables[15]);
    assert(table_bytes(s, 18) == tables[18]);
    lemma_frames_round_trip(pack.frame_groups@);
    assert(table_bytes(s, 19) == tables[19]);
    if pack.card_id != 0 {
        assert(le_u16(u16_bytes(pack.card_id), 0) == pack.card_id);
    }
}

/// The directory written for a well-formed data pack is readable, and its
/// tables are the tables that were written.
pub proof fn lemma_pack_directory(pack: DataPack, offset: int)
    requires
        directory_fits(laid_parts(pack_tables(pack), offset, TABLE_COUNT as int)),
        0 <= offset,
        offset % 2 == 0,
    ensures
        directory_ok(assembled(pack_tables(pack), offset)),
        holds_tables(assembled(pack_tables(pack), offset), pack),
{
    let tables = pack_tables(pack);
    let s = assembled(tables, offset);
    lemma_pack_tables_even(pack);
    lemma_directory_round_trip(tables, offset, 0);
    assert forall|t: int| 0 <= t < TABLE_COUNT && !is_gap(t) implies #[trigger] table_bytes(s, t)
        == tables[t] by {
        lemma_directory_round_trip(tables, offset, t);
    }
}

/// What was written for a well-formed data pack is read back as that pack:
/// the directory is readable, every table is readable, and the pack is what
/// the tables hold.
pub proof fn lemma_data_pack_round_trip(pack: DataPack, codes: Seq<CharEncoding>, offset: int)
    requires
        pack_wf(pack, codes),
        pack_fits(pack),
        directory_fits(laid_parts(pack_tables(pack), offset, TABLE_COUNT as int)),
        0 <= offset,
        offset % 2 == 0,
    ensures
        directory_ok(assembled(pack_tables(pack), offset)),
        tables_readable(assembled(pack_tables(pack), offset)),
        data_pack_is(pack, assembled(pack_tables(pack), offset), codes),
{
    let s = assembled(pack_tables(pack), offset);
    lemma_pack_directory(pack, offset);
    lemma_pack_blocks(pack, s, codes);
    lemma_pack_rows(pack, s, codes);
    lemma_pack_strings(pack, s, codes);
    lemma_pack_scenes(pack, s, codes);
    lemma_pack_frames(pack, s, codes);
    assert forall|t: int| 0 <= t < TABLE_COUNT implies table_readable(s, t) by {}
}

/// Whether two lists of scenes hold the same layers.
pub open spec fn scenes_alike(a: Seq<Scene>, b: Seq<Scene>) -> bool {
    a.len() == b.len() && forall|i: int| 0 <= i < a.len() ==> (#[trigger] a[i]).layers@ == b[i].layers@
}

/// Scenes that hold the same layers are written alike.
pub proof fn lemma_scenes_alike(a: Seq<Scene>, b: Seq<Scene>)
    requires
        scenes_alike(a, b),
    ensures
        scenes_data(a) == scenes_data(b),
        all_layer_starts(a) == all_layer_starts(b),
        scene_starts(a) == scene_starts(b),
    decreases a.len(),
{
    if a.len() > 0 {
        assert(a.last().layers@ == b.last().layers@) by {
            assert(a[a.len() - 1].layers@ == b[a.len() - 1].layers@);
        }
        assert(scenes_alike(a.drop_last(), b.drop_last())) by {
            assert forall|i: int| 0 <= i < a.len() - 1 implies (#[trigger] a.drop_last()[i]).layers@
                == b.drop_last()[i].layers@ by {
                assert(a[i].layers@ == b[i].layers@);
            }
        }
        lemma_scenes_alike(a.drop_last(), b.drop_last());
    }
}

/// Whether two lists of items have the same rows.
pub open spec fn items_alike(a: Seq<Item>, b: Seq<Item>) -> bool {
    a.len() == b.len() && forall|i: int|
        0 <= i < a.len() ==> item_words(#[trigger] a[i]) == item_words(b[i])
}

/// Items with the same rows are written alike.
pub proof fn lemma_items_alike(a: Seq<Item>, b: Seq<Item>)
    requires
        items_alike(a, b),
    ensures
        items_data(a) == items_data(b),
    decreases a.len(),
{
    if a.len() > 0 {
        assert(item_words(a[a.len() - 1]) == item_words(b[a.len() - 1]));
        assert(items_alike(a.drop_last(), b.drop_last())) by {
            assert forall|i: int| 0 <= i < a.len() - 1 implies item_words(
                #[trigger] a.drop_last()[i],
            ) == item_words(b.drop_last()[i]) by {
                assert(item_words(a[i]) == item_words(b[i]));
            }
        }
        lemma_items_alike(a.drop_last(), b.drop_last());
    }
}

/// Whether two lists of characters have the same rows.
pub open spec fn characters_alike(a: Seq<Character>, b: Seq<Character>) -> bool {
    a.len() == b.len() && forall|i: int|
        0 <= i < a.len() ==> character_words(#[trigger] a[i]) == character_words(b[i])
}

/// Characters with the same rows are written alike.
pub proof fn lemma_characters_alike(a: Seq<Character>, b: Seq<Character>)
    requires
        characters_alike(a, b),
    ensures
        characters_data(a) == characters_data(b),
    decreases a.len(),
{
    if a.len() > 0 {
        assert(character_words(a[a.len() - 1]) == character_words(b[a.len() - 1]));
        assert(characters_alike(a.drop_last(), b.drop_last())) by {
            assert forall|i: int| 0 <= i < a.len() - 1 implies character_words(
                #[trigger] a.drop_last()[i],
            ) == character_words(b.drop_last()[i]) by {
                assert(character_words(a[i]) == character_words(b[i]));
            }
        }
        lemma_characters_alike(a.drop_last(), b.drop_last());
    }
}

/// Whether two lists of frames stand for the same layers.
pub open spec fn frames_alike(a: Seq<Frame>, b: Seq<Frame>) -> bool {
    a.len() == b.len() && forall|i: int|
        0 <= i < a.len() ==> frame_view(#[trigger] a[i]) == frame_view(b[i])
}

/// Frames that stand for the same layers are written alike.
pub proof fn lemma_frames_alike(a: Seq<Frame>, b: Seq<Frame>)
    requires
        frames_alike(a, b),
    ensures
        frames_layers(a) == frames_layers(b),
        frame_words(a) == frame_words(b),
    decreases a.len(),
{
    if a.len() > 0 {
        assert(frame_view(a[a.len() - 1]) == frame_view(b[a.len() - 1]));
        assert(frames_alike(a.drop_last(), b.drop_last())) by {
            assert forall|i: int| 0 <= i < a.len() - 1 implies frame_view(
                #[trigger] a.drop_last()[i],
            ) == frame_view(b.drop_last()[i]) by {
                assert(frame_view(a[i]) == frame_view(b[i]));
            }
        }
        lemma_frames_alike(a.drop_last(), b.drop_last());
    }
}

/// Whether two lists of groups hold frames that stand for the same layers.
pub open spec fn groups_alike(a: Seq<FrameGroup>, b: Seq<FrameGroup>) -> bool {
    a.len() == b.len() && forall|g: int|
        0 <= g < a.len() ==> frames_alike((#[trigger] a[g]).frames@, b[g].frames@)
}

/// The frames of groups that are alike are alike.
pub proof fn lemma_groups_alike(a: Seq<FrameGroup>, b: Seq<FrameGroup>)
    requires
        groups_alike(a, b),
    ensures
        frames_alike(flat_frames(a), flat_frames(b)),
    decreases a.len(),
{
    if a.len() > 0 {
        let n = a.len() - 1;
        assert(frames_alike(a[n].frames@, b[n].frames@));
        assert(groups_alike(a.drop_last(), b.drop_last())) by {
            assert forall|g: int| 0 <= g < n implies frames_alike(
                (#[trigger] a.drop_last()[g]).frames@,
                b.drop_last()[g].frames@,
            ) by {
                assert(frames_alike(a[g].frames@, b[g].frames@));
            }
        }
        lemma_groups_alike(a.drop_last(), b.drop_last());
        let x = flat_frames(a.drop_last());
        let y = flat_frames(b.drop_last());
        assert forall|i: int| 0 <= i < flat_frames(a).len() implies frame_view(
            #[trigger] flat_frames(a)[i],
        ) == frame_view(flat_frames(b)[i]) by {
            if i < x.len() {
                assert(frame_view(x[i]) == frame_view(y[i]));
            } else {
                assert(frame_view(a[n].frames@[i - x.len()]) == frame_view(
                    b[n].frames@[i - x.len()],
                ));
            }
        }
    }
}

/// Two data packs that the same bytes hold are written alike, table by
/// table.
pub proof fn lemma_same_pack_same_tables(a: DataPack, b: DataPack, s: Seq<u8>, codes: Seq<CharEncoding>)
    requires
        data_pack_is(a, s, codes),
        data_pack_is(b, s, codes),
    ensures
        pack_tables(a) == pack_tables(b),
{
    assert(word_parts(a.table1@) =~= word_parts(b.table1@));
    assert(emitter_parts(a.particle_emitters@) =~= emitter_parts(b.particle_emitters@));
    assert(scenes_alike(a.scenes@, b.scenes@)) by {
        assert forall|i: int| 0 <= i < a.scenes@.len() implies (#[trigger] a.scenes@[i]).layers@
            == b.scenes@[i].layers@ by {
            assert(a.scenes@[i].layers@.len() == b.scenes@[i].layers@.len());
            assert(a.scenes@[i].layers@ =~= b.scenes@[i].layers@);
        }
    }
    lemma_scenes_alike(a.scenes@, b.scenes@);
    let t6 = table_bytes(s, 6);
    let n = a.tamastrings@.len() as int;
    let m = b.tamastrings@.len() as int;
    if n < m {
        assert(string_offset(t6, n) + 10 <= t6.len());
    }
    if m < n {
        assert(string_offset(t6, m) + 10 <= t6.len());
    }
    assert(string_parts(a.tamastrings@) =~= string_parts(b.tamastrings@)) by {
        assert forall|k: int| 0 <= k < n implies tamastring_words(a.tamastrings@[k])
            == tamastring_words(b.tamastrings@[k]) by {
            assert(tamastring_is(a.tamastrings@[k], t6, string_offset(t6, k), codes));
            assert(tamastring_is(b.tamastrings@[k], t6, string_offset(t6, k), codes));
        }
    }
    assert(word_parts(a.table9@) =~= word_parts(b.table9@));
    assert(items_alike(a.items@, b.items@)) by {
        assert forall|i: int| 0 <= i < a.items@.len() implies item_words(#[trigger] a.items@[i])
            == item_words(b.items@[i]) by {
            assert(item_is(a.items@[i], item_row(table_bytes(s, 10), i), codes));
            assert(item_is(b.items@[i], item_row(table_bytes(s, 10), i), codes));
        }
    }
    lemma_items_alike(a.items@, b.items@);
    assert(characters_alike(a.characters@, b.characters@)) by {
        assert forall|i: int| 0 <= i < a.characters@.len() implies character_words(
            #[trigger] a.characters@[i],
        ) == character_words(b.characters@[i]) by {
            assert(character_is(a.characters@[i], character_row(table_bytes(s, 11), i), codes));
            assert(character_is(b.characters@[i], character_row(table_bytes(s, 11), i), codes));
        }
    }
    lemma_characters_alike(a.characters@, b.characters@);
    assert(node_parts(a.graphics_nodes@) =~= node_parts(b.graphics_nodes@));
    lemma_same_frames(a.frame_groups@, b.frame_groups@, table_bytes(s, 15), table_bytes(s, 18));
    lemma_groups_alike(a.frame_groups@, b.frame_groups@);
    lemma_frames_alike(flat_frames(a.frame_groups@), flat_frames(b.frame_groups@));
    assert(pack_tables(a) =~= pack_tables(b));
}

/// Two lists of groups that the same tables hold are alike.
pub proof fn lemma_same_frames(a: Seq<FrameGroup>, b: Seq<FrameGroup>, layers: Seq<u8>, frames: Seq<u8>)
    requires
        frame_groups_are(a, layers, frames),
        frame_groups_are(b, layers, frames),
    ensures
        groups_alike(a, b),
{
    let n = choose|n: nat| #[trigger]
        frame_layers_end(layers, n) && {
            &&& a.len() == (frames.len() / 4) / (GROUP_SIZE as nat)
            &&& forall|g: int| 0 <= g < a.len() ==> (#[trigger] a[g]).frames@.len() == GROUP_SIZE
            &&& forall|g: int, f: int|
                0 <= g < a.len() && 0 <= f < GROUP_SIZE ==> frame_view(
                    #[trigger] a[g].frames@[f],
                ) == frame_of(frames, frame_layers_of(layers, n), GROUP_SIZE * g + f)
        };
    let m = choose|m: nat| #[trigger]
        frame_layers_end(layers, m) && {
            &&& b.len() == (frames.len() / 4) / (GROUP_SIZE as nat)
            &&& forall|g: int| 0 <= g < b.len() ==> (#[trigger] b[g]).frames@.len() == GROUP_SIZE
            &&& forall|g: int, f: int|
                0 <= g < b.len() && 0 <= f < GROUP_SIZE ==> frame_view(
                    #[trigger] b[g].frames@[f],
                ) == frame_of(frames, frame_layers_of(layers, m), GROUP_SIZE * g + f)
        };
    lemma_frame_layers_end_unique(layers, n, m);
    assert forall|g: int| 0 <= g < a.len() implies frames_alike(
        (#[trigger] a[g]).frames@,
        b[g].frames@,
    ) by {
        assert(b[g].frames@.len() == GROUP_SIZE);
        assert forall|f: int| 0 <= f < a[g].frames@.len() implies frame_view(
            #[trigger] a[g].frames@[f],
        ) == frame_view(b[g].frames@[f]) by {
            assert(frame_view(b[g].frames@[f]) == frame_of(
                frames,
                frame_layers_of(layers, m),
                GROUP_SIZE * g + f,
            ));
        }
    }
}

/// Opening what was saved and saving it again gives the same bytes: where
/// `read` is what the bytes written for a well-formed data pack hold, the
/// bytes written for `read` are those bytes.
pub proof fn lemma_data_pack_save_open_save(
    pack: DataPack,
    read: DataPack,
    codes: Seq<CharEncoding>,
    offset: int,
)
    requires
        pack_wf(pack, codes),
        pack_fits(pack),
        directory_fits(laid_parts(pack_tables(pack), offset, TABLE_COUNT as int)),
        0 <= offset,
        offset % 2 == 0,
        data_pack_is(read, assembled(pack_tables(pack), offset), codes),
    ensures
        assembled(pack_tables(read), offset) == assembled(pack_tables(pack), offset),
{
    lemma_data_pack_round_trip(pack, codes, offset);
    lemma_same_pack_same_tables(pack, read, assembled(pack_tables(pack), offset), codes);
}

/// Bytes behind a data pack leave its tables as they are, but for the last,
/// which they stand behind.
pub proof fn lemma_tables_with_tail(s: Seq<u8>, tail: Seq<u8>, t: int)
    requires
        directory_ok(s),
        0 <= t < TABLE_COUNT,
    ensures
        table_offset(s + tail, t) == table_offset(s, t),
        t < TABLE_COUNT - 1 ==> table_bytes(s + tail, t) == table_bytes(s, t),
        t == TABLE_COUNT - 1 ==> table_bytes(s + tail, t) == table_bytes(s, t) + tail,
{
    let whole = s + tail;
    assert forall|k: int| 0 <= k < TABLE_COUNT implies table_offset(whole, k) == table_offset(
        s,
        k,
    ) by {
        assert(whole[4 * k] == s[4 * k]);
        assert(whole[4 * k + 1] == s[4 * k + 1]);
        assert(whole[4 * k + 2] == s[4 * k + 2]);
        assert(whole[4 * k + 3] == s[4 * k + 3]);
    }
    crate::data_pack::lemma_tables_in_range(s, t);
    assert(!table_is_bad(s, t));
    assert(table_offset(whole, t) == table_offset(s, t));
    let from = table_offset(s, t);
    if t < TABLE_COUNT - 1 {
        assert(table_offset(whole, t + 1) == table_offset(s, t + 1));
        let to = table_offset(s, t + 1);
        assert(table_size(whole, t) == to - from);
        assert(table_size(s, t) == to - from);
        assert(whole.subrange(from, to) =~= s.subrange(from, to));
    } else {
        assert(table_size(whole, t) == whole.len() - from);
        assert(table_size(s, t) == s.len() - from);
        assert(whole.subrange(from, whole.len() as int) =~= s.subrange(from, s.len() as int)
            + tail);
    }
}

/// What the tables of a data pack hold, they hold with any bytes behind the
/// data pack, where its last table has the two bytes of the number of the
/// card; and with zero bytes behind it, where its last table is empty.
pub proof fn lemma_data_pack_with_tail(
    pack: DataPack,
    s: Seq<u8>,
    tail: Seq<u8>,
    codes: Seq<CharEncoding>,
)
    requires
        directory_ok(s),
        table_bytes(s, TABLE_COUNT - 1).len() >= 2 || (table_bytes(s, TABLE_COUNT - 1).len() == 0
            && tail == zeros(tail.len())),
        data_pack_is(pack, s + tail, codes),
    ensures
        data_pack_is(pack, s, codes),
{
    lemma_tables_with_tail(s, tail, 0);
    lemma_tables_with_tail(s, tail, 1);
    lemma_tables_with_tail(s, tail, 2);
    lemma_tables_with_tail(s, tail, 3);
    lemma_tables_with_tail(s, tail, 4);
    lemma_tables_with_tail(s, tail, 5);
    lemma_tables_with_tail(s, tail, 6);
    lemma_tables_with_tail(s, tail, 8);
    lemma_tables_with_tail(s, tail, 9);
    lemma_tables_with_tail(s, tail, 10);
    lemma_tables_with_tail(s, tail, 11);
    lemma_tables_with_tail(s, tail, 13);
    lemma_tables_with_tail(s, tail, 14);
    lemma_tables_with_tail(s, tail, 15);
    lemma_tables_with_tail(s, tail, 18);
    lemma_tables_with_tail(s, tail, 19);
    let last = table_bytes(s, 19);
    if last.len() >= 2 {
        assert((last + tail)[0] == last[0]);
        assert((last + tail)[1] == last[1]);
    } else {
        assert(last + tail =~= tail);
        if tail.len() >= 2 {
            assert(tail[0] == 0 && tail[1] == 0);
        }
    }
}

/// What is read of the bytes written for a well-formed data pack would be
/// written in the same tables, whatever stands behind those bytes; where
/// the number of the card is zero, and so is not written, zero bytes stand
/// behind them.
pub proof fn lemma_data_pack_read_back(
    pack: DataPack,
    read: DataPack,
    codes: Seq<CharEncoding>,
    offset: int,
    tail: Seq<u8>,
)
    requires
        pack_wf(pack, codes),
        pack_fits(pack),
        directory_fits(laid_parts(pack_tables(pack), offset, TABLE_COUNT as int)),
        0 <= offset,
        offset % 2 == 0,
        pack.card_id != 0 || tail == zeros(tail.len()),
        data_pack_is(read, assembled(pack_tables(pack), offset) + tail, codes),
    ensures
        pack_tables(read) == pack_tables(pack),
{
    let s = assembled(pack_tables(pack), offset);
    lemma_data_pack_round_trip(pack, codes, offset);
    lemma_pack_directory(pack, offset);
    assert(table_bytes(s, TABLE_COUNT - 1) == pack_tables(pack)[TABLE_COUNT - 1]);
    lemma_data_pack_with_tail(read, s, tail, codes);
    lemma_same_pack_same_tables(pack, read, s, codes);
}

/// Whether a data pack has no records, and the card number zero.
pub open spec fn pack_empty(pack: DataPack) -> bool {
    &&& pack.table1@.len() == 0
    &&& pack.particle_emitters@.len() == 0
    &&& pack.scenes@.len() == 0
    &&& pack.tamastrings@.len() == 0
    &&& pack.table9@.len() == 0
    &&& pack.items@.len() == 0
    &&& pack.characters@.len() == 0
    &&& pack.graphics_nodes@.len() == 0
    &&& pack.frame_groups@.len() == 0
    &&& pack.card_id == 0
}

/// `n` empty parts.
pub open spec fn empty_parts(n: int) -> Seq<Seq<u8>> {
    Seq::new(n as nat, |k: int| Seq::<u8>::empty())
}

/// Empty parts joined are empty.
pub proof fn lemma_joined_empty(n: int)
    requires
        0 <= n,
    ensures
        joined(empty_parts(n)).len() == 0,
    decreases n,
{
    if n > 0 {
        lemma_joined_empty(n - 1);
        assert(empty_parts(n).drop_last() =~= empty_parts(n - 1));
    }
}

/// Empty tables are laid out in empty parts, where the data pack stands at
/// a multiple of eight.
pub proof fn lemma_laid_empty(tables: Seq<Seq<u8>>, offset: int, n: int)
    requires
        0 <= n <= tables.len(),
        forall|t: int| 0 <= t < tables.len() ==> (#[trigger] tables[t]).len() == 0,
        0 <= offset,
        offset % 8 == 0,
    ensures
        laid_parts(tables, offset, n) == empty_parts(n),
    decreases n,
{
    if n > 0 {
        lemma_laid_empty(tables, offset, n - 1);
        lemma_joined_empty(n - 1);
        assert(tables[n - 1] =~= Seq::<u8>::empty());
        assert(zeros(crate::data_pack::gap_size(offset + DIRECTORY_SIZE)) =~= Seq::<u8>::empty());
        assert(laid_parts(tables, offset, n) =~= empty_parts(n));
    } else {
        assert(laid_parts(tables, offset, n) =~= empty_parts(n));
    }
}

/// A data pack without records and with the card number zero is written as
/// its directory alone: twenty times the word 40, in eighty bytes.
pub proof fn lemma_empty_pack(pack: DataPack, offset: int)
    requires
        pack_empty(pack),
        0 <= offset,
        offset % 8 == 0,
    ensures
        pack_fits(pack),
        directory_fits(laid_parts(pack_tables(pack), offset, TABLE_COUNT as int)),
        assembled(pack_tables(pack), offset) == bytes_of_u32s(Seq::new(20, |k: int| 40u32)),
        assembled(pack_tables(pack), offset).len() == 80,
{
    let tables = pack_tables(pack);
    assert(word_parts(pack.table1@) =~= Seq::<Seq<u8>>::empty());
    assert(emitter_parts(pack.particle_emitters@) =~= Seq::<Seq<u8>>::empty());
    assert(string_parts(pack.tamastrings@) =~= Seq::<Seq<u8>>::empty());
    assert(word_parts(pack.table9@) =~= Seq::<Seq<u8>>::empty());
    assert(node_parts(pack.graphics_nodes@) =~= Seq::<Seq<u8>>::empty());
    let frames = flat_frames(pack.frame_groups@);
    assert(frames.len() == 0);
    assert(frames_layers(frames).len() == 0);
    assert(layer_parts(frames_layers(frames)) =~= Seq::<Seq<u8>>::empty());
    assert forall|t: int| 0 <= t < tables.len() implies (#[trigger] tables[t]).len() == 0 by {
        if t == 0 {
        } else if t == 1 {
        } else if t == 2 {
        } else if t == 3 {
        } else if t == 4 {
        } else if t == 5 {
        } else if t == 6 {
        } else if t == 7 {
        } else if t == 8 {
        } else if t == 9 {
        } else if t == 10 {
        } else if t == 11 {
        } else if t == 12 {
        } else if t == 13 {
        } else if t == 14 {
        } else if t == 15 {
        } else if t == 16 {
        } else if t == 17 {
        } else if t == 18 {
        } else {
        }
    }
    lemma_laid_empty(tables, offset, TABLE_COUNT as int);
    let parts = laid_parts(tables, offset, TABLE_COUNT as int);
    lemma_joined_empty(TABLE_COUNT as int);
    assert forall|k: int| 0 <= k < parts.len() implies #[trigger] part_start(parts, k) == 0 by {
        assert(parts.subrange(0, k) =~= empty_parts(k));
        lemma_joined_empty(k);
    }
    assert(directory_words(parts) =~= Seq::new(20, |k: int| 40u32));
    assert(joined(parts) =~= Seq::<u8>::empty());
    assert(assembled(tables, offset) =~= bytes_of_u32s(Seq::new(20, |k: int| 40u32)));
}

} // verus!
