//! The data pack: a directory of twenty tables, and the records in them.

use vstd::prelude::*;
use crate::data_view::{
    DataView, bytes_of_u32s, bytes_of_words, le_u16, le_u32, push_all, push_fill, push_u16,
    u16_bytes, u32s_to_bytes, words_of_bytes, words_to_bytes,
};
use crate::data_pack::blocks::{joined, part_start};
use crate::data_pack::character::{
    Character, character_is, character_row, characters_data, get_characters, save_characters,
    CHARACTER_SIZE,
};
use crate::data_pack::frame::{
    FrameGroup, flat_frames, frame_groups_are, frame_words, frames_fit, frames_layers,
    frames_readable, layer_offset_words, layer_offsets_fit, layer_parts, read_frame_tables,
    save_frame_groups,
};
use crate::data_pack::graphics_node::{
    GraphicsNode, into_nodes, node_parts, save_graphics_nodes,
};
use crate::data_pack::item::{Item, get_items, item_is, item_row, items_data, push_words, save_items, ITEM_SIZE};
use crate::data_pack::particle_emitter::{
    ParticleEmitter, emitter_parts, emitter_row, get_particle_emitters, save_particle_emitters,
    EMITTER_SIZE,
};
use crate::data_pack::scene::{
    Scene, all_layer_starts, as_words, read_scene_tables, save_scenes, scene_starts, scenes_are,
    scenes_data, scenes_fit, scenes_readable, sized_count,
};
use crate::data_pack::tamastring::{
    TamaString, get_tamastrings, save_tamastrings, string_offset, string_parts, tamastring_is,
    OFFSETS_END,
};
use crate::text::CharEncoding;
use crate::error::Error;

pub mod bitmask;
pub mod blocks;
pub mod character;
pub mod frame;
pub mod graphics_node;
pub mod item;
pub mod particle_emitter;
pub mod round_trip;
pub mod table1;
pub mod table9;
pub mod tamastring;
pub mod scene;

verus! {

/// The number of tables in a data pack.
pub const TABLE_COUNT: usize = 20;

/// The length in bytes of the directory in front of the tables.
pub const DIRECTORY_SIZE: usize = 80;

/// A reference to a record: one of the device's own, or one of a card.
#[derive(Clone, Copy, Debug, PartialEq, Eq, Structural)]
pub struct EntityId {
    pub card_id: Option<u8>,
    pub entity_id: u16,
}

/// The reference that a word holds: with the top bit set, the card in bits 8
/// to 14 and the record in the low byte; else the record in the low 15 bits.
pub open spec fn entity_of_word(word: u16) -> EntityId {
    if (word >> 15) > 0 {
        EntityId { card_id: Some(((word >> 8) & 0x7f) as u8), entity_id: word & 0xff }
    } else {
        EntityId { card_id: None, entity_id: word & 0x7fff }
    }
}

/// The word that holds a reference.
pub open spec fn word_of_entity(id: EntityId) -> u16 {
    match id.card_id {
        Some(card_id) => 0x8000u16 | ((card_id as u16) << 8) | id.entity_id,
        None => id.entity_id,
    }
}

impl EntityId {
    /// A reference that a word can hold exactly.
    pub open spec fn wf(self) -> bool {
        match self.card_id {
            Some(card_id) => card_id < 0x80 && self.entity_id < 0x100,
            None => self.entity_id < 0x8000,
        }
    }

    /// The reference that a word holds.
    pub fn new(word: u16) -> (id: EntityId)
        ensures
            id == entity_of_word(word),
            id.wf(),
    {
        let is_card = (word >> 15) > 0;
        if is_card {
            assert(((word >> 8) & 0x7f) < 0x80 && (word & 0xff) < 0x100) by (bit_vector);
            EntityId { card_id: Some(((word >> 8) & 0x7f) as u8), entity_id: word & 0xff }
        } else {
            assert((word & 0x7fff) < 0x8000) by (bit_vector);
            EntityId { card_id: None, entity_id: word & 0x7fff }
        }
    }

    /// The word that holds the reference.
    pub fn to_word(&self) -> (word: u16)
        ensures
            word == word_of_entity(*self),
    {
        match self.card_id {
            Some(card_id) => 0x8000u16 | ((card_id as u16) << 8) | self.entity_id,
            None => self.entity_id,
        }
    }

    /// Moves a reference into card `old_card_id` over to card `new_card_id`.
    pub fn set_card_id(&mut self, old_card_id: u8, new_card_id: u8)
        ensures
            *final(self) == moved_entity(*old(self), old_card_id, new_card_id),
    {
        match self.card_id {
            Some(card_id) => {
                if card_id == old_card_id {
                    self.card_id = Some(new_card_id);
                }
            },
            None => {},
        }
    }
}

/// `id`, in card `new_card_id` if it was in card `old_card_id`.
pub open spec fn moved_entity(id: EntityId, old_card_id: u8, new_card_id: u8) -> EntityId {
    if id.card_id == Some(old_card_id) {
        EntityId { card_id: Some(new_card_id), entity_id: id.entity_id }
    } else {
        id
    }
}

/// `id` where there is one, moved as [`moved_entity`] does.
pub open spec fn moved_option(id: Option<EntityId>, old_card_id: u8, new_card_id: u8) -> Option<
    EntityId,
> {
    match id {
        Some(id) => Some(moved_entity(id, old_card_id, new_card_id)),
        None => None,
    }
}

/// Every word holds a reference, and writing that reference gives the word
/// back.
pub proof fn lemma_entity_word_round_trip(word: u16)
    ensures
        word_of_entity(entity_of_word(word)) == word,
{
    assert((word >> 15) > 0 ==> (0x8000u16 | (((((word >> 8) & 0x7f) as u8) as u16) << 8) | (word
        & 0xff)) == word) by (bit_vector);
    assert(!((word >> 15) > 0) ==> (word & 0x7fff) == word) by (bit_vector);
}

/// A well-formed reference is read back from the word that holds it.
pub proof fn lemma_word_entity_round_trip(id: EntityId)
    requires
        id.wf(),
    ensures
        entity_of_word(word_of_entity(id)) == id,
{
    let e = id.entity_id;
    match id.card_id {
        Some(c) => {
            assert(c < 0x80 && e < 0x100 ==> {
                let w = 0x8000u16 | ((c as u16) << 8) | e;
                (w >> 15) > 0 && ((w >> 8) & 0x7f) as u8 == c && (w & 0xff) == e
            }) by (bit_vector);
        },
        None => {
            assert(e < 0x8000 ==> !((e >> 15) > 0) && (e & 0x7fff) == e) by (bit_vector);
        },
    }
}

/// The byte offset that entry `table` of the directory in `s` gives: twice the
/// 32-bit word at that entry.
pub open spec fn table_offset(s: Seq<u8>, table: int) -> int {
    2 * (le_u32(s, 4 * table) as int)
}

/// The size of table `table`: up to the next table, or for the last one up to
/// the end.
pub open spec fn table_size(s: Seq<u8>, table: int) -> int {
    if table < TABLE_COUNT - 1 {
        table_offset(s, table + 1) - table_offset(s, table)
    } else {
        s.len() - table_offset(s, table)
    }
}

/// Whether table `table` ends before it starts.
pub open spec fn table_is_bad(s: Seq<u8>, table: int) -> bool {
    table_size(s, table) < 0
}

/// A readable directory: long enough, and no table ends before it starts.
pub open spec fn directory_ok(s: Seq<u8>) -> bool {
    &&& s.len() >= DIRECTORY_SIZE
    &&& forall|t: int| 0 <= t < TABLE_COUNT ==> !table_is_bad(s, t)
}

/// The byte offset and the size of each of the twenty tables.
pub fn get_table_offsets(data: &DataView) -> (result: Result<(Vec<usize>, Vec<usize>), Error>)
    ensures
        match result {
            Ok((offsets, sizes)) => {
                &&& directory_ok(data@)
                &&& offsets@.len() == TABLE_COUNT
                &&& sizes@.len() == TABLE_COUNT
                &&& forall|t: int|
                    0 <= t < TABLE_COUNT ==> #[trigger] offsets@[t] == table_offset(data@, t)
                &&& forall|t: int|
                    0 <= t < TABLE_COUNT ==> #[trigger] sizes@[t] == table_size(data@, t)
                &&& forall|t: int|
                    0 <= t < TABLE_COUNT ==> #[trigger] offsets@[t] + sizes@[t] <= data@.len()
            },
            Err(Error::DirectoryTooShort) => data@.len() < DIRECTORY_SIZE,
            Err(Error::InvalidTableOffset { table }) => {
                &&& data@.len() >= DIRECTORY_SIZE
                &&& table < TABLE_COUNT
                &&& table_is_bad(data@, table as int)
                &&& forall|t: int| 0 <= t < table ==> !table_is_bad(data@, t)
            },
            Err(_) => false,
        },
{
    let len = data.len();
    if len < DIRECTORY_SIZE {
        return Err(Error::DirectoryTooShort);
    }
    let mut wide: Vec<u64> = Vec::new();
    let mut i: usize = 0;
    while i < TABLE_COUNT
        invariant
            i <= TABLE_COUNT,
            data.data.len() >= DIRECTORY_SIZE,
            wide@.len() == i,
            forall|t: int| 0 <= t < i ==> #[trigger] wide@[t] == table_offset(data@, t),
        decreases TABLE_COUNT - i,
    {
        let word = data.get_u32(i * 4);
        wide.push(2 * (word as u64));
        i += 1;
    }
    let mut t: usize = 0;
    while t < TABLE_COUNT
        invariant
            t <= TABLE_COUNT,
            len == data@.len(),
            len >= DIRECTORY_SIZE,
            wide@.len() == TABLE_COUNT,
            forall|k: int| 0 <= k < TABLE_COUNT ==> #[trigger] wide@[k] == table_offset(data@, k),
            forall|k: int| 0 <= k < t ==> !table_is_bad(data@, k),
        decreases TABLE_COUNT - t,
    {
        let end: u64 = if t + 1 < TABLE_COUNT {
            wide[t + 1]
        } else {
            len as u64
        };
        if end < wide[t] {
            return Err(Error::InvalidTableOffset { table: t });
        }
        t += 1;
    }
    let mut offsets: Vec<usize> = Vec::new();
    let mut sizes: Vec<usize> = Vec::new();
    let mut t: usize = 0;
    while t < TABLE_COUNT
        invariant
            t <= TABLE_COUNT,
            len == data@.len(),
            directory_ok(data@),
            wide@.len() == TABLE_COUNT,
            forall|k: int| 0 <= k < TABLE_COUNT ==> #[trigger] wide@[k] == table_offset(data@, k),
            offsets@.len() == t,
            sizes@.len() == t,
            forall|k: int| 0 <= k < t ==> #[trigger] offsets@[k] == table_offset(data@, k),
            forall|k: int| 0 <= k < t ==> #[trigger] sizes@[k] == table_size(data@, k),
            forall|k: int| 0 <= k < t ==> #[trigger] offsets@[k] + sizes@[k] <= len,
        decreases TABLE_COUNT - t,
    {
        let end: u64 = if t + 1 < TABLE_COUNT {
            wide[t + 1]
        } else {
            len as u64
        };
        proof {
            lemma_tables_in_range(data@, t as int);
            assert(!table_is_bad(data@, t as int));
        }
        offsets.push(wide[t] as usize);
        sizes.push((end - wide[t]) as usize);
        t += 1;
    }
    Ok((offsets, sizes))
}

/// In a readable directory every table lies inside the data.
pub proof fn lemma_tables_in_range(s: Seq<u8>, table: int)
    requires
        directory_ok(s),
        0 <= table < TABLE_COUNT,
    ensures
        0 <= table_offset(s, table),
        table_offset(s, table) + table_size(s, table) <= s.len(),
    decreases TABLE_COUNT - table,
{
    assert(!table_is_bad(s, table));
    if table < TABLE_COUNT - 1 {
        lemma_tables_in_range(s, table + 1);
        assert(!table_is_bad(s, table + 1));
    }
}

/// Entry `i` of a table of 16-bit words.
pub open spec fn entry_at(s: Seq<u8>, i: int) -> u16 {
    le_u16(s, 2 * i)
}

/// The offsets that a table of 16-bit entries gives, each entry times `stride`.
pub fn read_offsets(data: &DataView, stride: usize) -> (offsets: Vec<usize>)
    requires
        stride <= 4,
    ensures
        offsets@.len() == data@.len() / 2,
        forall|i: int|
            0 <= i < offsets@.len() ==> #[trigger] offsets@[i] == stride * entry_at(data@, i),
{
    let count = data.len() / 2;
    let mut offsets: Vec<usize> = Vec::new();
    let mut i: usize = 0;
    while i < count
        invariant
            i <= count,
            stride <= 4,
            count == data.data.len() / 2,
            offsets@.len() == i,
            forall|k: int|
                0 <= k < i ==> #[trigger] offsets@[k] == stride * entry_at(data@, k),
        decreases count - i,
    {
        let word = data.get_u16(i * 2);
        assert(stride * word <= 4 * 0xffff) by (nonlinear_arith)
            requires
                stride <= 4,
                word <= 0xffff,
        ;
        offsets.push(stride * (word as usize));
        i += 1;
    }
    offsets
}

/// Whether block `block` ends before it starts, where each block ends at the
/// start of the next.
pub open spec fn block_is_bad(offsets: Seq<usize>, block: int) -> bool {
    offsets[block + 1] < offsets[block]
}

/// Blocks from the starts of `n + 1` places: the starts of the first `n`, and
/// the size of each, up to the next start.
pub fn split_offsets(offsets: Vec<usize>) -> (result: Result<(Vec<usize>, Vec<usize>), Error>)
    ensures
        match result {
            Ok((starts, sizes)) => {
                &&& forall|b: int| 0 <= b < offsets@.len() - 1 ==> !block_is_bad(offsets@, b)
                &&& starts@.len() == sizes@.len()
                &&& starts@.len() == if offsets@.len() == 0 {
                    0
                } else {
                    offsets@.len() - 1
                }
                &&& forall|b: int| 0 <= b < starts@.len() ==> #[trigger] starts@[b] == offsets@[b]
                &&& forall|b: int|
                    0 <= b < sizes@.len() ==> #[trigger] sizes@[b] == offsets@[b + 1] - offsets@[b]
            },
            Err(Error::InvalidBlockOffset { block }) => {
                &&& block < offsets@.len() - 1
                &&& block_is_bad(offsets@, block as int)
                &&& forall|b: int| 0 <= b < block ==> !block_is_bad(offsets@, b)
            },
            Err(_) => false,
        },
{
    let mut starts: Vec<usize> = Vec::new();
    let mut sizes: Vec<usize> = Vec::new();
    let n = offsets.len();
    let mut i: usize = 0;
    while i < n && 1 < n - i
        invariant
            i <= n,
            n == offsets@.len(),
            n == 0 ==> i == 0,
            n > 0 ==> i <= n - 1,
            starts@.len() == i,
            sizes@.len() == i,
            forall|b: int| 0 <= b < i ==> !block_is_bad(offsets@, b),
            forall|b: int| 0 <= b < i ==> #[trigger] starts@[b] == offsets@[b],
            forall|b: int| 0 <= b < i ==> #[trigger] sizes@[b] == offsets@[b + 1] - offsets@[b],
        decreases n - i,
    {
        if offsets[i + 1] < offsets[i] {
            return Err(Error::InvalidBlockOffset { block: i });
        }
        starts.push(offsets[i]);
        sizes.push(offsets[i + 1] - offsets[i]);
        i += 1;
    }
    Ok((starts, sizes))
}

/// The words of the `size` bytes from `start` on.
pub fn read_words(data: &DataView, start: usize, size: usize) -> (words: Vec<u16>)
    requires
        start + size <= data.data.len(),
    ensures
        words@ == words_of_bytes(data@.subrange(start as int, start + size)),
{
    let count = size / 2;
    let mut words: Vec<u16> = Vec::new();
    let mut j: usize = 0;
    let ghost part = data@.subrange(start as int, start + size);
    while j < count
        invariant
            j <= count,
            count == size / 2,
            start + size <= data.data.len(),
            part == data@.subrange(start as int, start + size),
            words@.len() == j,
            forall|k: int| 0 <= k < j ==> #[trigger] words@[k] == le_u16(part, 2 * k),
        decreases count - j,
    {
        let word = data.get_u16(start + j * 2);
        assert(word == le_u16(part, 2 * j)) by {
            assert(part[2 * j] == data@[start + 2 * j]);
            assert(part[2 * j + 1] == data@[start + 2 * j + 1]);
        }
        words.push(word);
        j += 1;
    }
    assert(words@ =~= words_of_bytes(part));
    words
}

/// Where block `k` ends if each block runs up to the next and the last up to
/// the end of the data.
pub open spec fn block_end(offsets: Seq<usize>, len: int, k: int) -> int {
    if k + 1 < offsets.len() {
        offsets[k + 1] as int
    } else {
        len
    }
}

/// Whether block `k` starts before it ends and ends inside the data.
pub open spec fn block_ok(offsets: Seq<usize>, len: int, k: int) -> bool {
    offsets[k] <= block_end(offsets, len, k) <= len
}

/// The words of each block, where a block runs from its offset up to the next
/// one, and the last up to the end of the data.
pub fn read_blocks(data: &DataView, offsets: &Vec<usize>) -> (result: Result<Vec<Vec<u16>>, Error>)
    ensures
        match result {
            Ok(blocks) => {
                &&& blocks@.len() == offsets@.len()
                &&& forall|k: int|
                    0 <= k < offsets@.len() ==> block_ok(offsets@, data@.len() as int, k)
                &&& forall|k: int|
                    0 <= k < blocks@.len() ==> (#[trigger] blocks@[k])@ == words_of_bytes(
                        data@.subrange(
                            offsets@[k] as int,
                            block_end(offsets@, data@.len() as int, k),
                        ),
                    )
            },
            Err(Error::InvalidBlockOffset { block }) => {
                &&& block < offsets@.len()
                &&& !block_ok(offsets@, data@.len() as int, block as int)
                &&& forall|k: int| 0 <= k < block ==> block_ok(offsets@, data@.len() as int, k)
            },
            Err(_) => false,
        },
{
    let mut blocks: Vec<Vec<u16>> = Vec::new();
    let n = offsets.len();
    let len = data.len();
    let mut i: usize = 0;
    while i < n
        invariant
            i <= n,
            n == offsets@.len(),
            len == data.data.len(),
            blocks@.len() == i,
            forall|k: int| 0 <= k < i ==> block_ok(offsets@, data@.len() as int, k),
            forall|k: int|
                0 <= k < i ==> (#[trigger] blocks@[k])@ == words_of_bytes(
                    data@.subrange(offsets@[k] as int, block_end(offsets@, data@.len() as int, k)),
                ),
        decreases n - i,
    {
        let start = offsets[i];
        let end = if i + 1 < n {
            offsets[i + 1]
        } else {
            len
        };
        if start > end || end > len {
            return Err(Error::InvalidBlockOffset { block: i });
        }
        blocks.push(read_words(data, start, end - start));
        i += 1;
    }
    Ok(blocks)
}

/// The words of each block, where block `k` holds `sizes[k]` bytes from
/// `offsets[k]` on.
pub fn read_sized_blocks(data: &DataView, offsets: &Vec<usize>, sizes: &Vec<usize>) -> (result:
    Result<Vec<Vec<u16>>, Error>)
    requires
        offsets@.len() <= sizes@.len(),
    ensures
        match result {
            Ok(blocks) => {
                &&& blocks@.len() == offsets@.len()
                &&& forall|k: int|
                    0 <= k < offsets@.len() ==> offsets@[k] + sizes@[k] <= data@.len()
                &&& forall|k: int|
                    0 <= k < blocks@.len() ==> (#[trigger] blocks@[k])@ == words_of_bytes(
                        data@.subrange(offsets@[k] as int, offsets@[k] + sizes@[k]),
                    )
            },
            Err(Error::InvalidBlockOffset { block }) => {
                &&& block < offsets@.len()
                &&& offsets@[block as int] + sizes@[block as int] > data@.len()
                &&& forall|k: int| 0 <= k < block ==> offsets@[k] + sizes@[k] <= data@.len()
            },
            Err(_) => false,
        },
{
    let mut blocks: Vec<Vec<u16>> = Vec::new();
    let n = offsets.len();
    let len = data.len();
    let mut i: usize = 0;
    while i < n
        invariant
            i <= n,
            n == offsets@.len(),
            n <= sizes@.len(),
            len == data.data.len(),
            blocks@.len() == i,
            forall|k: int| 0 <= k < i ==> offsets@[k] + sizes@[k] <= data@.len(),
            forall|k: int|
                0 <= k < i ==> (#[trigger] blocks@[k])@ == words_of_bytes(
                    data@.subrange(offsets@[k] as int, offsets@[k] + sizes@[k]),
                ),
        decreases n - i,
    {
        let start = offsets[i];
        let size = sizes[i];
        if start > len || size > len - start {
            return Err(Error::InvalidBlockOffset { block: i });
        }
        blocks.push(read_words(data, start, size));
        i += 1;
    }
    Ok(blocks)
}

/// The bytes of each block of words.
pub open spec fn word_parts(blocks: Seq<Vec<u16>>) -> Seq<Seq<u8>> {
    Seq::new(blocks.len(), |k: int| bytes_of_words(blocks[k]@))
}

/// Whether the first `count` starts of `parts`, in units of `unit` bytes, fit
/// a 16-bit word each.
pub open spec fn starts_fit(parts: Seq<Seq<u8>>, unit: int, count: int) -> bool {
    forall|k: int| 0 <= k < count ==> #[trigger] part_start(parts, k) / unit <= 0xffff
}

/// The first `count` starts of `parts`, in units of `unit` bytes.
pub open spec fn start_words(parts: Seq<Seq<u8>>, unit: int, count: int) -> Seq<u16> {
    Seq::new(count as nat, |k: int| (part_start(parts, k) / unit) as u16)
}

/// A table of blocks and the table of their starts, in units of `unit` bytes;
/// with `with_end`, the place where the last block ends comes behind the
/// starts.
pub fn save_blocks(blocks: &[Vec<u16>], unit: usize, with_end: bool) -> (result: Result<
    (Vec<u8>, Vec<u8>),
    Error,
>)
    requires
        unit == 2 || unit == 4,
    ensures
        match result {
            Ok((offsets, data)) => {
                let parts = word_parts(blocks@);
                let count = blocks@.len() + if with_end {
                    1int
                } else {
                    0int
                };
                &&& starts_fit(parts, unit as int, count)
                &&& offsets@ == bytes_of_words(start_words(parts, unit as int, count))
                &&& data@ == joined(parts)
            },
            Err(Error::SizeExceeded { size, limit }) => {
                let parts = word_parts(blocks@);
                let count = blocks@.len() + if with_end {
                    1int
                } else {
                    0int
                };
                &&& !starts_fit(parts, unit as int, count)
                &&& limit == 0xffff
                &&& size > limit
            },
            Err(_) => false,
        },
{
    let ghost parts = word_parts(blocks@);
    let mut starts: Vec<u16> = Vec::new();
    let mut data: Vec<u8> = Vec::new();
    let n = blocks.len();
    let mut i: usize = 0;
    assert(parts.subrange(0, 0) =~= Seq::<Seq<u8>>::empty());
    while i < n
        invariant
            i <= n,
            n == blocks@.len(),
            unit == 2 || unit == 4,
            parts == word_parts(blocks@),
            data@ == joined(parts.subrange(0, i as int)),
            starts@.len() == i,
            forall|k: int|
                0 <= k < i ==> #[trigger] part_start(parts, k) / (unit as int) <= 0xffff
                    && starts@[k] == part_start(parts, k) / (unit as int),
        decreases n - i,
    {
        let start = data.len() / unit;
        if start > 0xffff {
            proof {
                assert(part_start(parts, i as int) / (unit as int) > 0xffff);
            }
            return Err(Error::SizeExceeded { size: start, limit: 0xffff });
        }
        starts.push(start as u16);
        push_words(&mut data, blocks[i].as_slice());
        proof {
            assert(parts.subrange(0, i + 1).drop_last() =~= parts.subrange(0, i as int));
            assert(parts.subrange(0, i + 1).last() == bytes_of_words(blocks@[i as int]@));
        }
        i += 1;
    }
    if with_end {
        let end = data.len() / unit;
        if end > 0xffff {
            proof {
                assert(part_start(parts, n as int) / (unit as int) > 0xffff);
            }
            return Err(Error::SizeExceeded { size: end, limit: 0xffff });
        }
        starts.push(end as u16);
    }
    proof {
        assert(parts.subrange(0, n as int) =~= parts);
        let count = n + if with_end {
            1int
        } else {
            0int
        };
        assert(starts@ =~= start_words(parts, unit as int, count));
    }
    Ok((words_to_bytes(starts.as_slice()), data))
}

/// The byte at which block `k` starts, by the entries of a table of starts.
pub open spec fn offset_entry(offsets: Seq<u8>, stride: int, k: int) -> int {
    stride * entry_at(offsets, k)
}

/// The byte at which block `k` ends: the start of the next, or for the last
/// the end of the data.
pub open spec fn entry_end(offsets: Seq<u8>, stride: int, len: int, k: int) -> int {
    if k + 1 < offsets.len() / 2 {
        offset_entry(offsets, stride, k + 1)
    } else {
        len
    }
}

/// Whether every block of a table starts before it ends and ends inside the
/// data.
pub open spec fn blocks_readable(offsets: Seq<u8>, data: Seq<u8>, stride: int) -> bool {
    forall|k: int|
        0 <= k < offsets.len() / 2 ==> offset_entry(offsets, stride, k) <= #[trigger] entry_end(
            offsets,
            stride,
            data.len() as int,
            k,
        ) <= data.len()
}

/// The words of block `k`.
pub open spec fn block_words(offsets: Seq<u8>, data: Seq<u8>, stride: int, k: int) -> Seq<u16> {
    words_of_bytes(
        data.subrange(
            offset_entry(offsets, stride, k),
            entry_end(offsets, stride, data.len() as int, k),
        ),
    )
}

/// Whether block `k` of a table of starts with the end behind them lies inside
/// the data.
pub open spec fn sized_block_ok(offsets: Seq<u8>, data: Seq<u8>, k: int) -> bool {
    entry_at(offsets, k) <= entry_at(offsets, k + 1) && 2 * entry_at(offsets, k + 1) <= data.len()
}

/// Whether every block of a table of blocks with their sizes can be read.
pub open spec fn sized_readable(offsets: Seq<u8>, data: Seq<u8>) -> bool {
    forall|k: int| 0 <= k < sized_count(offsets) ==> sized_block_ok(offsets, data, k)
}

/// The words of block `k`, from its start up to the next.
pub open spec fn sized_words(offsets: Seq<u8>, data: Seq<u8>, k: int) -> Seq<u16> {
    words_of_bytes(data.subrange(2 * entry_at(offsets, k), 2 * entry_at(offsets, k + 1)))
}

/// The blocks that a table of starts and a table of words hold, each up to the
/// next start and the last up to the end.
pub fn read_block_tables(offsets: &DataView, data: &DataView, stride: usize) -> (result: Result<
    Vec<Vec<u16>>,
    Error,
>)
    requires
        stride <= 4,
    ensures
        match result {
            Ok(blocks) => {
                &&& blocks_readable(offsets@, data@, stride as int)
                &&& blocks@.len() == offsets@.len() / 2
                &&& forall|k: int|
                    0 <= k < blocks@.len() ==> (#[trigger] blocks@[k])@ == block_words(
                        offsets@,
                        data@,
                        stride as int,
                        k,
                    )
            },
            Err(Error::InvalidBlockOffset { block }) => !blocks_readable(
                offsets@,
                data@,
                stride as int,
            ),
            Err(_) => false,
        },
{
    let starts = read_offsets(offsets, stride);
    let result = read_blocks(data, &starts);
    proof {
        let len = data@.len() as int;
        assert forall|k: int| 0 <= k < starts@.len() implies block_end(starts@, len, k)
            == entry_end(offsets@, stride as int, len, k) && starts@[k] == offset_entry(
            offsets@,
            stride as int,
            k,
        ) by {
            if k + 1 < starts@.len() {
                assert(starts@[k + 1] == stride * entry_at(offsets@, k + 1));
            }
        }
        if let Err(Error::InvalidBlockOffset { block }) = result {
            assert(!block_ok(starts@, len, block as int));
            assert(block_end(starts@, len, block as int) == entry_end(
                offsets@,
                stride as int,
                len,
                block as int,
            ));
        }
        if result is Ok {
            assert forall|k: int| 0 <= k < offsets@.len() / 2 implies offset_entry(
                offsets@,
                stride as int,
                k,
            ) <= #[trigger] entry_end(offsets@, stride as int, len, k) <= len by {
                assert(block_ok(starts@, len, k));
            }
        }
    }
    result
}

/// The blocks that a table of starts with the end behind them and a table of
/// words hold.
pub fn read_sized_tables(offsets: &DataView, data: &DataView) -> (result: Result<
    Vec<Vec<u16>>,
    Error,
>)
    ensures
        match result {
            Ok(blocks) => {
                &&& sized_readable(offsets@, data@)
                &&& blocks@.len() == sized_count(offsets@)
                &&& forall|k: int|
                    0 <= k < blocks@.len() ==> (#[trigger] blocks@[k])@ == sized_words(
                        offsets@,
                        data@,
                        k,
                    )
            },
            Err(Error::InvalidBlockOffset { block }) => !sized_readable(offsets@, data@),
            Err(_) => false,
        },
{
    let (starts, sizes) = match crate::data_pack::table9::get_entity_offsets(offsets) {
        Ok(found) => found,
        Err(e) => {
            proof {
                if let Error::InvalidBlockOffset { block } = e {
                    assert(!sized_block_ok(offsets@, data@, block as int));
                }
            }
            return Err(e);
        },
    };
    let result = read_sized_blocks(data, &starts, &sizes);
    proof {
        assert forall|k: int| 0 <= k < starts@.len() implies starts@[k] == 2 * entry_at(
            offsets@,
            k,
        ) && starts@[k] + sizes@[k] == 2 * entry_at(offsets@, k + 1) by {
            assert(sizes@[k] == 2 * entry_at(offsets@, k + 1) - 2 * entry_at(offsets@, k));
        }
        if let Err(Error::InvalidBlockOffset { block }) = result {
            assert(!sized_block_ok(offsets@, data@, block as int));
        }
        if result is Ok {
            assert forall|k: int| 0 <= k < sized_count(offsets@) implies sized_block_ok(
                offsets@,
                data@,
                k,
            ) by {
                assert(starts@[k] + sizes@[k] <= data@.len());
                assert(sizes@[k] >= 0);
            }
        }
    }
    result
}

/// The records of a data pack, table by table.
#[derive(Clone)]
pub struct DataPack {
    pub table1: Vec<Vec<u16>>,
    pub particle_emitters: Vec<ParticleEmitter>,
    pub scenes: Vec<Scene>,
    pub tamastrings: Vec<TamaString>,
    pub table9: Vec<Vec<u16>>,
    pub items: Vec<Item>,
    pub characters: Vec<Character>,
    pub graphics_nodes: Vec<GraphicsNode>,
    pub frame_groups: Vec<FrameGroup>,
    pub card_id: u16,
}

/// The bytes of table `t` of the data pack `s`.
pub open spec fn table_bytes(s: Seq<u8>, t: int) -> Seq<u8> {
    s.subrange(table_offset(s, t), table_offset(s, t) + table_size(s, t))
}

/// Whether table `t` can be read, together with the tables that tell where
/// its records stand.
pub open spec fn table_readable(s: Seq<u8>, t: int) -> bool {
    if t == 1 {
        blocks_readable(table_bytes(s, 0), table_bytes(s, 1), 2)
    } else if t == 5 {
        scenes_readable(table_bytes(s, 3), table_bytes(s, 4), table_bytes(s, 5))
    } else if t == 9 {
        sized_readable(table_bytes(s, 8), table_bytes(s, 9))
    } else if t == 14 {
        blocks_readable(table_bytes(s, 13), table_bytes(s, 14), 4)
    } else if t == 18 {
        frames_readable(table_bytes(s, 15), table_bytes(s, 18))
    } else {
        true
    }
}

/// Whether every table can be read.
pub open spec fn tables_readable(s: Seq<u8>) -> bool {
    forall|t: int| 0 <= t < TABLE_COUNT ==> table_readable(s, t)
}

/// Whether `pack` is what the tables of the data pack `s` hold.
pub open spec fn data_pack_is(pack: DataPack, s: Seq<u8>, codes: Seq<CharEncoding>) -> bool {
    &&& pack.table1@.len() == table_bytes(s, 0).len() / 2
    &&& forall|k: int|
        0 <= k < pack.table1@.len() ==> (#[trigger] pack.table1@[k])@ == block_words(
            table_bytes(s, 0),
            table_bytes(s, 1),
            2,
            k,
        )
    &&& pack.particle_emitters@.len() == table_bytes(s, 2).len() / EMITTER_SIZE as nat
    &&& forall|r: int|
        0 <= r < pack.particle_emitters@.len() ==> (#[trigger] pack.particle_emitters@[r]).data@
            == emitter_row(table_bytes(s, 2), r)
    &&& scenes_are(pack.scenes@, table_bytes(s, 3), table_bytes(s, 4), table_bytes(s, 5))
    &&& forall|k: int|
        0 <= k < pack.tamastrings@.len() ==> #[trigger] string_offset(table_bytes(s, 6), k) + 10
            <= table_bytes(s, 6).len()
    &&& forall|k: int|
        0 <= k < pack.tamastrings@.len() ==> tamastring_is(
            #[trigger] pack.tamastrings@[k],
            table_bytes(s, 6),
            string_offset(table_bytes(s, 6), k),
            codes,
        )
    &&& string_offset(table_bytes(s, 6), pack.tamastrings@.len() as int) + 10 > table_bytes(
        s,
        6,
    ).len()
    &&& pack.table9@.len() == sized_count(table_bytes(s, 8))
    &&& forall|k: int|
        0 <= k < pack.table9@.len() ==> (#[trigger] pack.table9@[k])@ == sized_words(
            table_bytes(s, 8),
            table_bytes(s, 9),
            k,
        )
    &&& pack.items@.len() == table_bytes(s, 10).len() / ITEM_SIZE as nat
    &&& forall|r: int|
        0 <= r < pack.items@.len() ==> item_is(
            #[trigger] pack.items@[r],
            item_row(table_bytes(s, 10), r),
            codes,
        )
    &&& pack.characters@.len() == table_bytes(s, 11).len() / CHARACTER_SIZE as nat
    &&& forall|r: int|
        0 <= r < pack.characters@.len() ==> character_is(
            #[trigger] pack.characters@[r],
            character_row(table_bytes(s, 11), r),
            codes,
        )
    &&& pack.graphics_nodes@.len() == table_bytes(s, 13).len() / 2
    &&& forall|k: int|
        0 <= k < pack.graphics_nodes@.len() ==> (#[trigger] pack.graphics_nodes@[k]).data@
            == block_words(table_bytes(s, 13), table_bytes(s, 14), 4, k)
    &&& frame_groups_are(pack.frame_groups@, table_bytes(s, 15), table_bytes(s, 18))
    &&& pack.card_id == card_id_of(table_bytes(s, 19))
}

/// The error of a table, with the table's number.
fn table_error(table: usize, e: Error) -> (mapped: Error)
    ensures
        mapped matches Error::TableInvalid { table: t, .. } && t == table,
{
    match e {
        Error::InvalidBlockOffset { block } => Error::TableInvalid { table, record: block },
        Error::RecordTruncated { record } => Error::TableInvalid { table, record },
        Error::LayersNotFound { frame } => Error::TableInvalid { table, record: frame },
        _ => Error::TableInvalid { table, record: 0 },
    }
}

/// Whether reading the data pack `s` fails as `error` says: the directory is
/// cut off; or `table` is the first whose place is bad; or the places are
/// good and `table` is the first that cannot be read.
pub open spec fn data_pack_fails(s: Seq<u8>, error: Error) -> bool {
    match error {
        Error::DirectoryTooShort => s.len() < DIRECTORY_SIZE,
        Error::InvalidTableOffset { table } => {
            &&& s.len() >= DIRECTORY_SIZE
            &&& table < TABLE_COUNT
            &&& table_is_bad(s, table as int)
            &&& forall|t: int| 0 <= t < table ==> !table_is_bad(s, t)
        },
        Error::TableInvalid { table, record } => {
            &&& directory_ok(s)
            &&& table < TABLE_COUNT
            &&& !table_readable(s, table as int)
            &&& forall|t: int| 0 <= t < table ==> table_readable(s, t)
        },
        _ => false,
    }
}

/// Whether the data pack `s` can be read.
pub open spec fn data_pack_readable(s: Seq<u8>) -> bool {
    directory_ok(s) && tables_readable(s)
}

/// A data pack whose reading fails in any way cannot be read.
pub proof fn lemma_data_pack_fails(s: Seq<u8>, error: Error)
    requires
        data_pack_fails(s, error),
    ensures
        !data_pack_readable(s),
{
}

/// The records of a data pack. Fails where the directory is malformed, and
/// with the number of the first table that cannot be read.
pub fn get_data_pack(char_codes: &[CharEncoding], data: &DataView) -> (result: Result<
    DataPack,
    Error,
>)
    ensures
        match result {
            Ok(pack) => {
                &&& directory_ok(data@)
                &&& tables_readable(data@)
                &&& data_pack_is(pack, data@, char_codes@)
            },
            Err(error) => data_pack_fails(data@, error),
        },
{
    let (offsets, sizes) = match get_table_offsets(data) {
        Ok(found) => found,
        Err(e) => {
            return Err(e);
        },
    };
    let ghost s = data@;
    let t0 = data.chunk(offsets[0], sizes[0]);
    let t1 = data.chunk(offsets[1], sizes[1]);
    let t2 = data.chunk(offsets[2], sizes[2]);
    let t3 = data.chunk(offsets[3], sizes[3]);
    let t4 = data.chunk(offsets[4], sizes[4]);
    let t5 = data.chunk(offsets[5], sizes[5]);
    let t6 = data.chunk(offsets[6], sizes[6]);
    let t8 = data.chunk(offsets[8], sizes[8]);
    let t9 = data.chunk(offsets[9], sizes[9]);
    let t10 = data.chunk(offsets[10], sizes[10]);
    let t11 = data.chunk(offsets[11], sizes[11]);
    let t13 = data.chunk(offsets[13], sizes[13]);
    let t14 = data.chunk(offsets[14], sizes[14]);
    let t15 = data.chunk(offsets[15], sizes[15]);
    let t18 = data.chunk(offsets[18], sizes[18]);
    let t19 = data.chunk(offsets[19], sizes[19]);
    proof {
        assert(t0@ == table_bytes(s, 0));
        assert(t1@ == table_bytes(s, 1));
        assert(t2@ == table_bytes(s, 2));
        assert(t3@ == table_bytes(s, 3));
        assert(t4@ == table_bytes(s, 4));
        assert(t5@ == table_bytes(s, 5));
        assert(t6@ == table_bytes(s, 6));
        assert(t8@ == table_bytes(s, 8));
        assert(t9@ == table_bytes(s, 9));
        assert(t10@ == table_bytes(s, 10));
        assert(t11@ == table_bytes(s, 11));
        assert(t13@ == table_bytes(s, 13));
        assert(t14@ == table_bytes(s, 14));
        assert(t15@ == table_bytes(s, 15));
        assert(t18@ == table_bytes(s, 18));
        assert(t19@ == table_bytes(s, 19));
    }
    let table1 = match read_block_tables(&t0, &t1, 2) {
        Ok(found) => found,
        Err(e) => {
            return Err(table_error(1, e));
        },
    };
    let particle_emitters = get_particle_emitters(&t2);
    let scenes = match read_scene_tables(&t3, &t4, &t5) {
        Ok(found) => found,
        Err(e) => {
            return Err(table_error(5, e));
        },
    };
    let tamastrings = get_tamastrings(char_codes, &t6);
    let table9 = match read_sized_tables(&t8, &t9) {
        Ok(found) => found,
        Err(e) => {
            return Err(table_error(9, e));
        },
    };
    let items = get_items(char_codes, &t10);
    let characters = get_characters(char_codes, &t11);
    let graphics_nodes = match read_block_tables(&t13, &t14, 4) {
        Ok(found) => into_nodes(found),
        Err(e) => {
            return Err(table_error(14, e));
        },
    };
    let frame_groups = match read_frame_tables(&t15, &t18) {
        Ok(found) => found,
        Err(e) => {
            return Err(table_error(18, e));
        },
    };
    let card_id = if t19.len() < 2 {
        0
    } else {
        t19.get_u16(0)
    };
    Ok(
        DataPack {
            table1,
            particle_emitters,
            scenes,
            tamastrings,
            table9,
            items,
            characters,
            graphics_nodes,
            frame_groups,
            card_id,
        },
    )
}

/// The tables in front of which a gap is left in place of a table.
pub open spec fn is_gap(table: int) -> bool {
    table == 12 || table == 17
}

/// The number of bytes from `at` up to the next multiple of eight.
pub open spec fn gap_size(at: int) -> nat {
    ((8 - at % 8) % 8) as nat
}

/// `n` zero bytes.
pub open spec fn zeros(n: nat) -> Seq<u8> {
    Seq::new(n, |k: int| 0u8)
}

/// The first `n` tables as they are laid out in a data pack that stands at
/// byte `offset` of its container: each table as it is, but in place of
/// tables 12 and 17 zero bytes up to the next place that is a multiple of
/// eight in the container.
pub open spec fn laid_parts(tables: Seq<Seq<u8>>, offset: int, n: int) -> Seq<Seq<u8>>
    decreases n,
{
    if n <= 0 {
        Seq::empty()
    } else {
        let before = laid_parts(tables, offset, n - 1);
        before.push(
            if is_gap(n - 1) {
                zeros(gap_size(offset + DIRECTORY_SIZE + joined(before).len()))
            } else {
                tables[n - 1]
            },
        )
    }
}

/// The entries of the directory: for each part the word at which it starts,
/// counted from the start of the directory.
pub open spec fn directory_words(parts: Seq<Seq<u8>>) -> Seq<u32> {
    Seq::new(parts.len(), |k: int| ((DIRECTORY_SIZE + part_start(parts, k)) / 2) as u32)
}

/// Whether every entry of the directory fits its 32 bits.
pub open spec fn directory_fits(parts: Seq<Seq<u8>>) -> bool {
    forall|k: int|
        0 <= k < parts.len() ==> (DIRECTORY_SIZE + #[trigger] part_start(parts, k)) / 2
            <= u32::MAX
}

/// The bytes of a data pack: the directory, then the tables as laid out.
pub open spec fn assembled(tables: Seq<Seq<u8>>, offset: int) -> Seq<u8> {
    let parts = laid_parts(tables, offset, TABLE_COUNT as int);
    bytes_of_u32s(directory_words(parts)) + joined(parts)
}

/// The first `n` tables are laid out in `n` parts.
pub proof fn lemma_laid_parts_len(tables: Seq<Seq<u8>>, offset: int, n: int)
    requires
        0 <= n,
    ensures
        laid_parts(tables, offset, n).len() == n,
    decreases n,
{
    if n > 0 {
        lemma_laid_parts_len(tables, offset, n - 1);
    }
}

/// The views of tables held as vectors.
pub open spec fn table_views(tables: Seq<Vec<u8>>) -> Seq<Seq<u8>> {
    Seq::new(tables.len(), |k: int| tables[k]@)
}

/// A data pack of the twenty tables given, for a place at byte `offset` of
/// its container.
pub fn assemble_tables(tables: &Vec<Vec<u8>>, offset: usize) -> (result: Result<Vec<u8>, Error>)
    requires
        tables@.len() == TABLE_COUNT,
    ensures
        match result {
            Ok(data) => {
                &&& directory_fits(
                    laid_parts(table_views(tables@), offset as int, TABLE_COUNT as int),
                )
                &&& data@ == assembled(table_views(tables@), offset as int)
            },
            Err(Error::SizeExceeded { size, limit }) => {
                &&& !directory_fits(
                    laid_parts(table_views(tables@), offset as int, TABLE_COUNT as int),
                )
                &&& size > limit
            },
            Err(_) => false,
        },
{
    let ghost views = table_views(tables@);
    let ghost all = laid_parts(views, offset as int, TABLE_COUNT as int);
    let mut entries: Vec<u32> = Vec::new();
    let mut body: Vec<u8> = Vec::new();
    let mut t: usize = 0;
    while t < TABLE_COUNT
        invariant
            t <= TABLE_COUNT,
            tables@.len() == TABLE_COUNT,
            views == table_views(tables@),
            all == laid_parts(views, offset as int, TABLE_COUNT as int),
            body@ == joined(laid_parts(views, offset as int, t as int)),
            entries@.len() == t,
            forall|k: int|
                0 <= k < t ==> (DIRECTORY_SIZE + joined(
                    #[trigger] laid_parts(views, offset as int, k),
                ).len()) / 2 <= u32::MAX,
            forall|k: int|
                0 <= k < t ==> #[trigger] entries@[k] == (DIRECTORY_SIZE + joined(
                    laid_parts(views, offset as int, k),
                ).len()) / 2,
        decreases TABLE_COUNT - t,
    {
        let len = body.len();
        let start = len / 2 + DIRECTORY_SIZE / 2;
        if start > 0xffff_ffff {
            proof {
                lemma_laid_prefix(views, offset as int, t as int, TABLE_COUNT as int);
                assert(part_start(all, t as int) == len);
            }
            return Err(Error::SizeExceeded { size: start, limit: 0xffff_ffff });
        }
        entries.push(start as u32);
        if t == 12 || t == 17 {
            let gap = gap_after(offset, len);
            push_fill(&mut body, 0, gap);
        } else {
            push_all(&mut body, tables[t].as_slice());
        }
        proof {
            let before = laid_parts(views, offset as int, t as int);
            let next = laid_parts(views, offset as int, t + 1);
            assert(next.drop_last() =~= before);
            assert(body@ == joined(next));
        }
        t += 1;
    }
    proof {
        lemma_laid_parts_len(views, offset as int, TABLE_COUNT as int);
        assert forall|k: int| 0 <= k < TABLE_COUNT implies #[trigger] part_start(all, k) == joined(
            laid_parts(views, offset as int, k),
        ).len() by {
            lemma_laid_prefix(views, offset as int, k, TABLE_COUNT as int);
        }
        assert(entries@ =~= directory_words(all));
    }
    let mut data = u32s_to_bytes(entries.as_slice());
    push_all(&mut data, body.as_slice());
    Ok(data)
}

/// The number of bytes from byte `len` of a data pack's tables, which start
/// behind the directory at byte `offset` of the container, up to the next
/// place that is a multiple of eight in the container.
fn gap_after(offset: usize, len: usize) -> (gap: usize)
    ensures
        gap == gap_size(offset + DIRECTORY_SIZE + len),
{
    let at = (offset % 8 + len % 8) % 8;
    proof {
        let sum = offset % 8 + len % 8;
        let whole = offset / 8 + len / 8 + 10;
        assert(offset + DIRECTORY_SIZE + len == 8 * whole + sum);
        vstd::arithmetic::div_mod::lemma_mod_multiples_vanish(whole as int, sum as int, 8);
    }
    (8 - at) % 8
}

/// The first `n` tables laid out are the first `n` of the first `m` laid out.
pub proof fn lemma_laid_prefix(tables: Seq<Seq<u8>>, offset: int, n: int, m: int)
    requires
        0 <= n <= m,
    ensures
        laid_parts(tables, offset, m).len() == m,
        laid_parts(tables, offset, m).subrange(0, n) == laid_parts(tables, offset, n),
    decreases m,
{
    lemma_laid_parts_len(tables, offset, m);
    lemma_laid_parts_len(tables, offset, n);
    if n == m {
        assert(laid_parts(tables, offset, m).subrange(0, n) =~= laid_parts(tables, offset, n));
    } else {
        lemma_laid_prefix(tables, offset, n, m - 1);
        assert(laid_parts(tables, offset, m).subrange(0, n) =~= laid_parts(
            tables,
            offset,
            m - 1,
        ).subrange(0, n));
    }
}

/// A table that tells where records stand: nothing where there are no
/// records.
pub open spec fn table_for(count: int, table: Seq<u8>) -> Seq<u8> {
    if count == 0 {
        Seq::empty()
    } else {
        table
    }
}

/// The number of the card that the last table holds: zero where the table
/// has not the two bytes of a number.
pub open spec fn card_id_of(table: Seq<u8>) -> u16 {
    if table.len() >= 2 {
        le_u16(table, 0)
    } else {
        0
    }
}

/// The last table: the two bytes of the number of the card, and nothing for
/// the number zero.
pub open spec fn card_id_bytes(card_id: u16) -> Seq<u8> {
    if card_id == 0 {
        Seq::empty()
    } else {
        u16_bytes(card_id)
    }
}

/// The twenty tables of a data pack, as its records are written. Tables 12
/// and 17 are empty, and so is every table of a pack without records and
/// with the card number zero.
pub open spec fn pack_tables(pack: DataPack) -> Seq<Seq<u8>> {
    let frames = flat_frames(pack.frame_groups@);
    seq![
        bytes_of_words(start_words(word_parts(pack.table1@), 2, pack.table1@.len() as int)),
        joined(word_parts(pack.table1@)),
        joined(emitter_parts(pack.particle_emitters@)),
        table_for(pack.scenes@.len() as int, bytes_of_words(as_words(scene_starts(pack.scenes@)))),
        bytes_of_words(as_words(all_layer_starts(pack.scenes@))),
        scenes_data(pack.scenes@),
        joined(string_parts(pack.tamastrings@)),
        table_for(
            pack.tamastrings@.len() as int,
            bytes_of_words(
                start_words(
                    string_parts(pack.tamastrings@),
                    2,
                    pack.tamastrings@.len() as int,
                ).push(OFFSETS_END),
            ),
        ),
        table_for(
            pack.table9@.len() as int,
            bytes_of_words(
                start_words(word_parts(pack.table9@), 2, (pack.table9@.len() + 1) as int),
            ),
        ),
        joined(word_parts(pack.table9@)),
        items_data(pack.items@),
        characters_data(pack.characters@),
        Seq::empty(),
        bytes_of_words(
            start_words(node_parts(pack.graphics_nodes@), 4, pack.graphics_nodes@.len() as int),
        ),
        joined(node_parts(pack.graphics_nodes@)),
        joined(layer_parts(frames_layers(frames))),
        table_for(
            pack.frame_groups@.len() as int,
            bytes_of_u32s(layer_offset_words(frames_layers(frames))),
        ),
        Seq::empty(),
        bytes_of_words(frame_words(frames)),
        card_id_bytes(pack.card_id),
    ]
}

/// Whether the records of a data pack can be written: every offset fits the
/// field that holds it.
pub open spec fn pack_fits(pack: DataPack) -> bool {
    let frames = flat_frames(pack.frame_groups@);
    &&& starts_fit(word_parts(pack.table1@), 2, pack.table1@.len() as int)
    &&& scenes_fit(pack.scenes@)
    &&& starts_fit(string_parts(pack.tamastrings@), 2, pack.tamastrings@.len() as int)
    &&& starts_fit(word_parts(pack.table9@), 2, (pack.table9@.len() + 1) as int)
    &&& starts_fit(node_parts(pack.graphics_nodes@), 4, pack.graphics_nodes@.len() as int)
    &&& frames_fit(frames)
    &&& layer_offsets_fit(frames_layers(frames))
}

/// Whether writing `pack`, to stand `offset` bytes into an image, fails as
/// `error` says: a table or a place in the directory is over its limit.
pub open spec fn data_pack_unsaved(pack: DataPack, offset: int, error: Error) -> bool {
    match error {
        Error::SizeExceeded { size, limit } => {
            &&& !(pack_fits(pack) && directory_fits(
                laid_parts(pack_tables(pack), offset, TABLE_COUNT as int),
            ))
            &&& size > limit
        },
        _ => false,
    }
}

/// The bytes of a data pack that stands at byte `offset` of its container.
pub fn save_data_pack(data_pack: &DataPack, offset: usize) -> (result: Result<Vec<u8>, Error>)
    ensures
        match result {
            Ok(data) => {
                &&& pack_fits(*data_pack)
                &&& directory_fits(
                    laid_parts(pack_tables(*data_pack), offset as int, TABLE_COUNT as int),
                )
                &&& data@ == assembled(pack_tables(*data_pack), offset as int)
            },
            Err(error) => data_pack_unsaved(*data_pack, offset as int, error),
        },
{
    let (t0, t1) = match crate::data_pack::table1::save_entities(data_pack.table1.as_slice()) {
        Ok(found) => found,
        Err(e) => {
            return Err(e);
        },
    };
    let t2 = match save_particle_emitters(data_pack.particle_emitters.as_slice()) {
        Ok(found) => found,
        Err(e) => {
            return Err(e);
        },
    };
    let (t3, t4, t5) = match save_scenes(data_pack.scenes.as_slice()) {
        Ok(found) => found,
        Err(e) => {
            return Err(e);
        },
    };
    let (t7, t6) = match save_tamastrings(data_pack.tamastrings.as_slice()) {
        Ok(found) => found,
        Err(e) => {
            return Err(e);
        },
    };
    let (t8, t9) = match crate::data_pack::table9::save_entities(data_pack.table9.as_slice()) {
        Ok(found) => found,
        Err(e) => {
            return Err(e);
        },
    };
    let t10 = match save_items(data_pack.items.as_slice()) {
        Ok(found) => found,
        Err(e) => {
            return Err(e);
        },
    };
    let t11 = match save_characters(data_pack.characters.as_slice()) {
        Ok(found) => found,
        Err(e) => {
            return Err(e);
        },
    };
    let (t13, t14) = match save_graphics_nodes(data_pack.graphics_nodes.as_slice()) {
        Ok(found) => found,
        Err(e) => {
            return Err(e);
        },
    };
    let (t16, t15, t18) = match save_frame_groups(data_pack.frame_groups.as_slice()) {
        Ok(found) => found,
        Err(e) => {
            return Err(e);
        },
    };
    let mut t19: Vec<u8> = Vec::new();
    if data_pack.card_id != 0 {
        push_u16(&mut t19, data_pack.card_id);
    }
    let t3 = if data_pack.scenes.len() == 0 {
        Vec::new()
    } else {
        t3
    };
    let t7 = if data_pack.tamastrings.len() == 0 {
        Vec::new()
    } else {
        t7
    };
    let t8 = if data_pack.table9.len() == 0 {
        Vec::new()
    } else {
        t8
    };
    let t16 = if data_pack.frame_groups.len() == 0 {
        Vec::new()
    } else {
        t16
    };
    let mut tables: Vec<Vec<u8>> = Vec::new();
    tables.push(t0);
    tables.push(t1);
    tables.push(t2);
    tables.push(t3);
    tables.push(t4);
    tables.push(t5);
    tables.push(t6);
    tables.push(t7);
    tables.push(t8);
    tables.push(t9);
    tables.push(t10);
    tables.push(t11);
    tables.push(Vec::new());
    tables.push(t13);
    tables.push(t14);
    tables.push(t15);
    tables.push(t16);
    tables.push(Vec::new());
    tables.push(t18);
    tables.push(t19);
    assert(table_views(tables@) =~= pack_tables(*data_pack));
    assemble_tables(&tables, offset)
}

} // verus!
