//! Scenes: lists of layers, each a row of optional fields.

use vstd::prelude::*;
use crate::data_view::{
    DataView, bytes_of_words, le_u16, signed_of, unsigned_of, to_signed, to_unsigned, push_all,
    push_u16, lemma_signed_round_trip,
};
use crate::data_pack::{
    entry_at, EntityId, entity_of_word, word_of_entity, lemma_word_entity_round_trip, read_offsets,
    split_offsets,
};
use crate::data_pack::bitmask::{
    bit_set, read_row, row_fits, row_size, row_slots, row_words, save_row, lemma_row_round_trip,
    lemma_read_slots_len,
};
use crate::error::Error;

verus! {

/// A scene: its layers, in the order of the table.
#[derive(Clone)]
pub struct Scene {
    pub layers: Vec<SceneLayer>,
}

/// One layer of a scene. A field that the row does not hold is `None`; zero is
/// a value like any other.
#[derive(Clone, Copy, Debug, PartialEq, Eq, Structural)]
pub struct SceneLayer {
    pub x: Option<i16>,
    pub y: Option<i16>,
    pub image_id: Option<EntityId>,
    pub subimage_index: Option<u16>,
    pub unknown1: Option<i16>,
    pub unknown2: Option<u16>,
    pub unknown3: Option<u16>,
    pub unknown4: Option<u16>,
    pub unknown5: Option<u16>,
    pub unknown6: Option<u16>,
    pub unknown7: Option<u16>,
    pub unknown8: Option<u16>,
    pub flag1: bool,
    pub flag2: bool,
    pub flag3: bool,
    pub flag4: bool,
}

/// The number of fields that a layer's mask announces.
pub const SCENE_FIELDS: usize = 12;

/// The word of a signed field.
pub open spec fn signed_slot(v: Option<i16>) -> Option<u16> {
    match v {
        Some(v) => Some(unsigned_of(v)),
        None => None,
    }
}

/// The word of a reference.
pub open spec fn entity_slot(id: Option<EntityId>) -> Option<u16> {
    match id {
        Some(id) => Some(word_of_entity(id)),
        None => None,
    }
}

/// The signed field that a word holds.
pub open spec fn slot_signed(w: Option<u16>) -> Option<i16> {
    match w {
        Some(w) => Some(signed_of(w)),
        None => None,
    }
}

/// The reference that a word holds.
pub open spec fn slot_entity(w: Option<u16>) -> Option<EntityId> {
    match w {
        Some(w) => Some(entity_of_word(w)),
        None => None,
    }
}

/// The fields of a layer in the order of their bits.
pub open spec fn layer_slots(layer: SceneLayer) -> Seq<Option<u16>> {
    seq![
        signed_slot(layer.x),
        signed_slot(layer.y),
        entity_slot(layer.image_id),
        signed_slot(layer.unknown1),
        layer.unknown2,
        layer.unknown3,
        layer.subimage_index,
        layer.unknown4,
        layer.unknown5,
        layer.unknown6,
        layer.unknown7,
        layer.unknown8,
    ]
}

/// The flags of a layer: bits 12 to 15 of its mask.
pub open spec fn layer_flags(layer: SceneLayer) -> Seq<bool> {
    seq![layer.flag1, layer.flag2, layer.flag3, layer.flag4]
}

/// The bytes of a layer.
pub open spec fn layer_bytes(layer: SceneLayer) -> Seq<u8> {
    bytes_of_words(row_words(layer_slots(layer), layer_flags(layer)))
}

/// The layer that a mask and twelve fields make.
pub open spec fn layer_of_row(mask: u16, slots: Seq<Option<u16>>) -> SceneLayer {
    SceneLayer {
        x: slot_signed(slots[0]),
        y: slot_signed(slots[1]),
        image_id: slot_entity(slots[2]),
        unknown1: slot_signed(slots[3]),
        unknown2: slots[4],
        unknown3: slots[5],
        subimage_index: slots[6],
        unknown4: slots[7],
        unknown5: slots[8],
        unknown6: slots[9],
        unknown7: slots[10],
        unknown8: slots[11],
        flag1: bit_set(mask as nat, 12),
        flag2: bit_set(mask as nat, 13),
        flag3: bit_set(mask as nat, 14),
        flag4: bit_set(mask as nat, 15),
    }
}

/// Every one of the twelve fields may stand in a row.
pub open spec fn scene_carried() -> Seq<bool> {
    Seq::new(SCENE_FIELDS as nat, |k: int| true)
}

/// Whether a layer stands at `offset` and ends inside `s`.
pub open spec fn layer_fits(s: Seq<u8>, offset: int) -> bool {
    row_fits(s, offset, scene_carried())
}

/// The layer at `offset`.
pub open spec fn layer_at(s: Seq<u8>, offset: int) -> SceneLayer {
    layer_of_row(le_u16(s, offset), row_slots(s, offset, scene_carried()))
}

impl SceneLayer {
    /// A layer whose reference a word can hold exactly.
    pub open spec fn wf(self) -> bool {
        match self.image_id {
            Some(id) => id.wf(),
            None => true,
        }
    }
}

fn signed_word(v: Option<i16>) -> (w: Option<u16>)
    ensures
        w == signed_slot(v),
{
    match v {
        Some(v) => Some(to_unsigned(v)),
        None => None,
    }
}

fn word_signed(w: Option<u16>) -> (v: Option<i16>)
    ensures
        v == slot_signed(w),
{
    match w {
        Some(w) => Some(to_signed(w)),
        None => None,
    }
}

/// The bytes of one layer: its mask, then the fields it holds.
pub fn save_scene_layer(layer: &SceneLayer) -> (bytes: Vec<u8>)
    ensures
        bytes@ == layer_bytes(*layer),
{
    let mut slots: Vec<Option<u16>> = Vec::new();
    slots.push(signed_word(layer.x));
    slots.push(signed_word(layer.y));
    slots.push(
        match layer.image_id {
            Some(id) => Some(id.to_word()),
            None => None,
        },
    );
    slots.push(signed_word(layer.unknown1));
    slots.push(layer.unknown2);
    slots.push(layer.unknown3);
    slots.push(layer.subimage_index);
    slots.push(layer.unknown4);
    slots.push(layer.unknown5);
    slots.push(layer.unknown6);
    slots.push(layer.unknown7);
    slots.push(layer.unknown8);
    let mut flags: Vec<bool> = Vec::new();
    flags.push(layer.flag1);
    flags.push(layer.flag2);
    flags.push(layer.flag3);
    flags.push(layer.flag4);
    assert(slots@ =~= layer_slots(*layer));
    assert(flags@ =~= layer_flags(*layer));
    save_row(slots.as_slice(), flags.as_slice())
}

/// The layer at `offset`, if one ends inside the data.
pub fn read_scene_layer(data: &DataView, offset: usize) -> (layer: Option<SceneLayer>)
    ensures
        match layer {
            Some(layer) => layer_fits(data@, offset as int) && layer == layer_at(
                data@,
                offset as int,
            ) && layer.wf(),
            None => !layer_fits(data@, offset as int),
        },
{
    let mut carried: Vec<bool> = Vec::new();
    let mut k: usize = 0;
    while k < SCENE_FIELDS
        invariant
            k <= SCENE_FIELDS,
            carried@ == Seq::new(k as nat, |j: int| true),
        decreases SCENE_FIELDS - k,
    {
        carried.push(true);
        k += 1;
        assert(carried@ =~= Seq::new(k as nat, |j: int| true));
    }
    match read_row(data, offset, carried.as_slice()) {
        Some((mask, slots, _)) => {
            proof {
                lemma_read_slots_len(
                    data@,
                    offset + 2,
                    mask as nat,
                    scene_carried(),
                    SCENE_FIELDS as nat,
                );
                crate::data_view::lemma_two_pow_bound(0, 30);
                reveal_with_fuel(crate::data_view::two_pow, 17);
            }
            let mask = mask as u32;
            Some(
                SceneLayer {
                    x: word_signed(slots[0]),
                    y: word_signed(slots[1]),
                    image_id: match slots[2] {
                        Some(w) => Some(EntityId::new(w)),
                        None => None,
                    },
                    unknown1: word_signed(slots[3]),
                    unknown2: slots[4],
                    unknown3: slots[5],
                    subimage_index: slots[6],
                    unknown4: slots[7],
                    unknown5: slots[8],
                    unknown6: slots[9],
                    unknown7: slots[10],
                    unknown8: slots[11],
                    flag1: (mask / 0x1000) % 2 == 1,
                    flag2: (mask / 0x2000) % 2 == 1,
                    flag3: (mask / 0x4000) % 2 == 1,
                    flag4: (mask / 0x8000) % 2 == 1,
                },
            )
        },
        None => None,
    }
}

/// A well-formed layer that was written reads back as it was.
pub proof fn lemma_scene_layer_round_trip(s: Seq<u8>, offset: int, layer: SceneLayer)
    requires
        layer.wf(),
        0 <= offset,
        offset + layer_bytes(layer).len() <= s.len(),
        s.subrange(offset, offset + layer_bytes(layer).len()) == layer_bytes(layer),
    ensures
        layer_fits(s, offset),
        layer_at(s, offset) == layer,
        row_size(s, offset, scene_carried()) == layer_bytes(layer).len(),
{
    let slots = layer_slots(layer);
    let flags = layer_flags(layer);
    lemma_row_round_trip(s, offset, slots, flags, scene_carried());
    let mask = le_u16(s, offset);
    assert(bit_set(mask as nat, (slots.len() + 0) as nat) == flags[0]);
    assert(bit_set(mask as nat, (slots.len() + 1) as nat) == flags[1]);
    assert(bit_set(mask as nat, (slots.len() + 2) as nat) == flags[2]);
    assert(bit_set(mask as nat, (slots.len() + 3) as nat) == flags[3]);
    match layer.x {
        Some(v) => lemma_signed_round_trip(0, v),
        None => {},
    }
    match layer.y {
        Some(v) => lemma_signed_round_trip(0, v),
        None => {},
    }
    match layer.unknown1 {
        Some(v) => lemma_signed_round_trip(0, v),
        None => {},
    }
    match layer.image_id {
        Some(id) => lemma_word_entity_round_trip(id),
        None => {},
    }
}

/// The bytes of the layers of one scene, in order.
pub open spec fn layers_data(layers: Seq<SceneLayer>) -> Seq<u8>
    decreases layers.len(),
{
    if layers.len() == 0 {
        Seq::empty()
    } else {
        layers_data(layers.drop_last()) + layer_bytes(layers.last())
    }
}

/// The bytes of all scenes: the layers of each, then a zero word.
pub open spec fn scenes_data(scenes: Seq<Scene>) -> Seq<u8>
    decreases scenes.len(),
{
    if scenes.len() == 0 {
        Seq::empty()
    } else {
        scenes_data(scenes.drop_last()) + layers_data(scenes.last().layers@) + seq![0u8, 0u8]
    }
}

/// Where each layer of one scene starts, in words, if the scene's first layer
/// starts at byte `base`.
pub open spec fn layer_starts(layers: Seq<SceneLayer>, base: int) -> Seq<int>
    decreases layers.len(),
{
    if layers.len() == 0 {
        Seq::empty()
    } else {
        layer_starts(layers.drop_last(), base).push(
            (base + layers_data(layers.drop_last()).len()) / 2,
        )
    }
}

/// Where each layer of all scenes starts, in words.
pub open spec fn all_layer_starts(scenes: Seq<Scene>) -> Seq<int>
    decreases scenes.len(),
{
    if scenes.len() == 0 {
        Seq::empty()
    } else {
        all_layer_starts(scenes.drop_last()) + layer_starts(
            scenes.last().layers@,
            scenes_data(scenes.drop_last()).len() as int,
        )
    }
}

/// For each scene the number of layers in front of it, and last the number
/// of all layers.
pub open spec fn scene_starts(scenes: Seq<Scene>) -> Seq<int>
    decreases scenes.len(),
{
    if scenes.len() == 0 {
        seq![0int]
    } else {
        scene_starts(scenes.drop_last()).push(all_layer_starts(scenes).len() as int)
    }
}

/// Whether each of `starts` fits a 16-bit word.
pub open spec fn words_fit(starts: Seq<int>) -> bool {
    forall|i: int| 0 <= i < starts.len() ==> 0 <= #[trigger] starts[i] <= 0xffff
}

/// `starts` as 16-bit words.
pub open spec fn as_words(starts: Seq<int>) -> Seq<u16> {
    Seq::new(starts.len(), |i: int| starts[i] as u16)
}

/// Whether the scenes can be written: every offset fits its word.
pub open spec fn scenes_fit(scenes: Seq<Scene>) -> bool {
    words_fit(all_layer_starts(scenes)) && words_fit(scene_starts(scenes))
}

/// Each layer has a start.
pub proof fn lemma_layer_starts_len(layers: Seq<SceneLayer>, base: int)
    ensures
        layer_starts(layers, base).len() == layers.len(),
    decreases layers.len(),
{
    if layers.len() > 0 {
        lemma_layer_starts_len(layers.drop_last(), base);
    }
}

/// The starts of the first `j` layers are the first `j` starts of all.
pub proof fn lemma_layer_starts_prefix(layers: Seq<SceneLayer>, base: int, j: int)
    requires
        0 <= j <= layers.len(),
    ensures
        layer_starts(layers, base).len() == layers.len(),
        layer_starts(layers.subrange(0, j), base) == layer_starts(layers, base).subrange(0, j),
    decreases layers.len(),
{
    lemma_layer_starts_len(layers, base);
    if j == layers.len() {
        assert(layers.subrange(0, j) =~= layers);
        assert(layer_starts(layers, base).subrange(0, j) =~= layer_starts(layers, base));
    } else {
        let init = layers.drop_last();
        assert(init.subrange(0, j) =~= layers.subrange(0, j));
        lemma_layer_starts_prefix(init, base, j);
        assert(layer_starts(layers, base).subrange(0, j) =~= layer_starts(init, base).subrange(
            0,
            j,
        ));
    }
}

/// The layer starts of the first `i` scenes are the first of the starts of all.
pub proof fn lemma_all_layer_starts_prefix(scenes: Seq<Scene>, i: int)
    requires
        0 <= i <= scenes.len(),
    ensures
        all_layer_starts(scenes.subrange(0, i)).len() <= all_layer_starts(scenes).len(),
        all_layer_starts(scenes.subrange(0, i)) == all_layer_starts(scenes).subrange(
            0,
            all_layer_starts(scenes.subrange(0, i)).len() as int,
        ),
    decreases scenes.len(),
{
    if i == scenes.len() {
        assert(scenes.subrange(0, i) =~= scenes);
        assert(all_layer_starts(scenes).subrange(0, all_layer_starts(scenes).len() as int)
            =~= all_layer_starts(scenes));
    } else {
        let init = scenes.drop_last();
        assert(init.subrange(0, i) =~= scenes.subrange(0, i));
        lemma_all_layer_starts_prefix(init, i);
        let part = all_layer_starts(scenes.subrange(0, i));
        assert(all_layer_starts(scenes).subrange(0, part.len() as int) =~= all_layer_starts(
            init,
        ).subrange(0, part.len() as int));
    }
}

/// Entry `i` of the scene starts is the number of layers of the first `i`
/// scenes.
pub proof fn lemma_scene_starts_entry(scenes: Seq<Scene>, i: int)
    requires
        0 <= i <= scenes.len(),
    ensures
        scene_starts(scenes).len() == scenes.len() + 1,
        scene_starts(scenes)[i] == all_layer_starts(scenes.subrange(0, i)).len(),
    decreases scenes.len(),
{
    if scenes.len() == 0 {
        assert(scenes.subrange(0, 0) =~= scenes);
    } else {
        let init = scenes.drop_last();
        lemma_scene_starts_entry(init, if i < scenes.len() {
            i
        } else {
            0
        });
        if i == scenes.len() {
            assert(scenes.subrange(0, i) =~= scenes);
        } else {
            assert(init.subrange(0, i) =~= scenes.subrange(0, i));
        }
    }
}

/// The byte at which the starts of the layers of each scene begin, and how
/// many bytes they take.
pub fn get_scene_offsets(data: &DataView) -> (result: Result<(Vec<usize>, Vec<usize>), Error>)
    ensures
        match result {
            Ok((starts, sizes)) => {
                &&& starts@.len() == sizes@.len()
                &&& starts@.len() == if data@.len() / 2 == 0 {
                    0
                } else {
                    data@.len() / 2 - 1
                }
                &&& forall|b: int|
                    0 <= b < starts@.len() ==> #[trigger] starts@[b] == 2 * entry_at(data@, b)
                &&& forall|b: int|
                    0 <= b < sizes@.len() ==> #[trigger] sizes@[b] == 2 * entry_at(data@, b + 1)
                        - 2 * entry_at(data@, b)
            },
            Err(Error::InvalidBlockOffset { block }) => {
                &&& block + 1 < data@.len() / 2
                &&& entry_at(data@, block + 1) < entry_at(data@, block as int)
                &&& forall|b: int|
                    0 <= b < block ==> #[trigger] entry_at(data@, b) <= entry_at(data@, b + 1)
            },
            Err(_) => false,
        },
{
    let offsets = read_offsets(data, 2);
    let ghost all = offsets@;
    match split_offsets(offsets) {
        Ok((starts, sizes)) => {
            proof {
                assert forall|b: int| 0 <= b < sizes@.len() implies #[trigger] sizes@[b] == 2
                    * entry_at(data@, b + 1) - 2 * entry_at(data@, b) by {
                    assert(all[b + 1] == 2 * entry_at(data@, b + 1));
                    assert(all[b] == 2 * entry_at(data@, b));
                }
            }
            Ok((starts, sizes))
        },
        Err(e) => {
            proof {
                if let Error::InvalidBlockOffset { block } = e {
                    assert(all[block + 1] == 2 * entry_at(data@, block + 1));
                    assert(all[block as int] == 2 * entry_at(data@, block as int));
                    assert forall|b: int| 0 <= b < block implies #[trigger] entry_at(data@, b)
                        <= entry_at(data@, b + 1) by {
                        assert(!crate::data_pack::block_is_bad(all, b));
                        assert(all[b + 1] == 2 * entry_at(data@, b + 1));
                        assert(all[b] == 2 * entry_at(data@, b));
                    }
                }
            }
            Err(e)
        },
    }
}

/// For each scene the byte offsets of its layers: the entries of the block of
/// `sizes[i]` bytes at `offsets[i]`, each times two.
pub fn get_scene_layer_offsets(data: &DataView, offsets: Vec<usize>, sizes: Vec<usize>) -> (result:
    Result<Vec<Vec<usize>>, Error>)
    requires
        offsets@.len() <= sizes@.len(),
    ensures
        match result {
            Ok(all) => {
                &&& all@.len() == offsets@.len()
                &&& forall|i: int|
                    0 <= i < offsets@.len() ==> offsets@[i] + sizes@[i] <= data@.len()
                &&& forall|i: int|
                    0 <= i < all@.len() ==> (#[trigger] all@[i])@.len() == sizes@[i] / 2
                &&& forall|i: int, j: int|
                    0 <= i < all@.len() && 0 <= j < all@[i]@.len() ==> #[trigger] all@[i]@[j] == 2
                        * le_u16(data@, offsets@[i] + 2 * j)
            },
            Err(Error::InvalidBlockOffset { block }) => {
                &&& block < offsets@.len()
                &&& offsets@[block as int] + sizes@[block as int] > data@.len()
                &&& forall|i: int| 0 <= i < block ==> offsets@[i] + sizes@[i] <= data@.len()
            },
            Err(_) => false,
        },
{
    let mut all: Vec<Vec<usize>> = Vec::new();
    let n = offsets.len();
    let len = data.len();
    let mut i: usize = 0;
    while i < n
        invariant
            i <= n,
            n == offsets@.len(),
            n <= sizes@.len(),
            len == data.data.len(),
            all@.len() == i,
            forall|k: int| 0 <= k < i ==> offsets@[k] + sizes@[k] <= data@.len(),
            forall|k: int| 0 <= k < i ==> (#[trigger] all@[k])@.len() == sizes@[k] / 2,
            forall|k: int, j: int|
                0 <= k < i && 0 <= j < all@[k]@.len() ==> #[trigger] all@[k]@[j] == 2 * le_u16(
                    data@,
                    offsets@[k] + 2 * j,
                ),
        decreases n - i,
    {
        let start = offsets[i];
        let size = sizes[i];
        if start > len || size > len - start {
            return Err(Error::InvalidBlockOffset { block: i });
        }
        let count = size / 2;
        let mut layer_offsets: Vec<usize> = Vec::new();
        let mut j: usize = 0;
        while j < count
            invariant
                j <= count,
                count == size / 2,
                start + size <= len,
                len == data.data.len(),
                layer_offsets@.len() == j,
                forall|k: int|
                    0 <= k < j ==> #[trigger] layer_offsets@[k] == 2 * le_u16(data@, start + 2 * k),
            decreases count - j,
        {
            let word = data.get_u16(start + j * 2);
            layer_offsets.push(2 * (word as usize));
            j += 1;
        }
        all.push(layer_offsets);
        i += 1;
    }
    Ok(all)
}

/// Whether every layer of scene `scene` ends inside the data.
pub open spec fn scene_fits(s: Seq<u8>, offsets: Seq<Vec<usize>>, scene: int) -> bool {
    forall|j: int| 0 <= j < offsets[scene]@.len() ==> layer_fits(s, #[trigger] offsets[scene]@[j] as int)
}

/// The scenes whose layers stand at the offsets given.
pub fn get_scenes(data: &DataView, offsets: Vec<Vec<usize>>) -> (result: Result<Vec<Scene>, Error>)
    ensures
        match result {
            Ok(scenes) => {
                &&& scenes@.len() == offsets@.len()
                &&& forall|i: int| 0 <= i < offsets@.len() ==> scene_fits(data@, offsets@, i)
                &&& forall|i: int|
                    0 <= i < scenes@.len() ==> (#[trigger] scenes@[i]).layers@.len()
                        == offsets@[i]@.len()
                &&& forall|i: int, j: int|
                    0 <= i < scenes@.len() && 0 <= j < scenes@[i].layers@.len()
                        ==> #[trigger] scenes@[i].layers@[j] == layer_at(
                        data@,
                        offsets@[i]@[j] as int,
                    )
            },
            Err(Error::RecordTruncated { record }) => {
                &&& record < offsets@.len()
                &&& !scene_fits(data@, offsets@, record as int)
                &&& forall|i: int| 0 <= i < record ==> scene_fits(data@, offsets@, i)
            },
            Err(_) => false,
        },
{
    let mut scenes: Vec<Scene> = Vec::new();
    let n = offsets.len();
    let mut i: usize = 0;
    while i < n
        invariant
            i <= n,
            n == offsets@.len(),
            scenes@.len() == i,
            forall|k: int| 0 <= k < i ==> scene_fits(data@, offsets@, k),
            forall|k: int|
                0 <= k < i ==> (#[trigger] scenes@[k]).layers@.len() == offsets@[k]@.len(),
            forall|k: int, j: int|
                0 <= k < i && 0 <= j < scenes@[k].layers@.len()
                    ==> #[trigger] scenes@[k].layers@[j] == layer_at(
                    data@,
                    offsets@[k]@[j] as int,
                ),
        decreases n - i,
    {
        let m = offsets[i].len();
        let mut layers: Vec<SceneLayer> = Vec::new();
        let mut j: usize = 0;
        while j < m
            invariant
                j <= m,
                i < n,
                n == offsets@.len(),
                m == offsets@[i as int]@.len(),
                layers@.len() == j,
                forall|k: int|
                    0 <= k < j ==> layer_fits(data@, #[trigger] offsets@[i as int]@[k] as int),
                forall|k: int|
                    0 <= k < j ==> #[trigger] layers@[k] == layer_at(
                        data@,
                        offsets@[i as int]@[k] as int,
                    ),
                forall|k: int| 0 <= k < i ==> scene_fits(data@, offsets@, k),
            decreases m - j,
        {
            match read_scene_layer(data, offsets[i][j]) {
                Some(layer) => {
                    layers.push(layer);
                },
                None => {
                    return Err(Error::RecordTruncated { record: i });
                },
            }
            j += 1;
        }
        scenes.push(Scene { layers });
        i += 1;
    }
    Ok(scenes)
}

/// The three tables of the scenes: for each scene the number of layers in
/// front of it; for each layer the word at which it starts; and the layers.
pub fn save_scenes(scenes: &[Scene]) -> (result: Result<(Vec<u8>, Vec<u8>, Vec<u8>), Error>)
    ensures
        match result {
            Ok((scene_offsets, layer_offsets, layer_data)) => {
                &&& scenes_fit(scenes@)
                &&& scene_offsets@ == bytes_of_words(as_words(scene_starts(scenes@)))
                &&& layer_offsets@ == bytes_of_words(as_words(all_layer_starts(scenes@)))
                &&& layer_data@ == scenes_data(scenes@)
            },
            Err(Error::SizeExceeded { size, limit }) => {
                &&& !scenes_fit(scenes@)
                &&& limit == 0xffff
                &&& size > limit
            },
            Err(_) => false,
        },
{
    let mut scene_words: Vec<u16> = Vec::new();
    let mut layer_words: Vec<u16> = Vec::new();
    let mut layer_data: Vec<u8> = Vec::new();
    let n = scenes.len();
    scene_words.push(0);
    let mut i: usize = 0;
    proof {
        assert(scenes@.subrange(0, 0) =~= Seq::<Scene>::empty());
        assert(scene_words@ =~= as_words(scene_starts(scenes@.subrange(0, 0))));
        assert(layer_words@ =~= as_words(all_layer_starts(scenes@.subrange(0, 0))));
    }
    while i < n
        invariant
            i <= n,
            n == scenes@.len(),
            layer_data@ == scenes_data(scenes@.subrange(0, i as int)),
            layer_words@ == as_words(all_layer_starts(scenes@.subrange(0, i as int))),
            words_fit(all_layer_starts(scenes@.subrange(0, i as int))),
            scene_words@ == as_words(scene_starts(scenes@.subrange(0, i as int))),
            words_fit(scene_starts(scenes@.subrange(0, i as int))),
        decreases n - i,
    {
        let ghost done = scenes@.subrange(0, i as int);
        let ghost next = scenes@.subrange(0, i + 1);
        let ghost layers = scenes@[i as int].layers@;
        let ghost base = layer_data@.len() as int;
        proof {
            assert(next.drop_last() =~= done);
            assert(next.last() == scenes@[i as int]);
        }
        let m = scenes[i].layers.len();
        let mut j: usize = 0;
        proof {
            assert(layers.subrange(0, 0) =~= Seq::<SceneLayer>::empty());
            assert(layer_data@ =~= scenes_data(done) + layers_data(layers.subrange(0, 0)));
            assert(all_layer_starts(done) + layer_starts(layers.subrange(0, 0), base)
                =~= all_layer_starts(done));
        }
        while j < m
            invariant
                j <= m,
                i < n,
                n == scenes@.len(),
                layers == scenes@[i as int].layers@,
                m == layers.len(),
                done == scenes@.subrange(0, i as int),
                next == scenes@.subrange(0, i + 1),
                next.drop_last() == done,
                next.last() == scenes@[i as int],
                base == scenes_data(done).len(),
                layer_data@ == scenes_data(done) + layers_data(layers.subrange(0, j as int)),
                layer_words@ == as_words(
                    all_layer_starts(done) + layer_starts(layers.subrange(0, j as int), base),
                ),
                words_fit(
                    all_layer_starts(done) + layer_starts(layers.subrange(0, j as int), base),
                ),
            decreases m - j,
        {
            let ghost some = layers.subrange(0, j as int);
            let ghost more = layers.subrange(0, j + 1);
            proof {
                assert(more.drop_last() =~= some);
                assert(more.last() == layers[j as int]);
                lemma_layer_starts_prefix(layers, base, j + 1);
                lemma_all_layer_starts_prefix(scenes@, i + 1);
                lemma_layer_starts_len(more, base);
            }
            let start = layer_data.len() / 2;
            if start > 0xffff {
                proof {
                    // this start is one of the starts of all scenes
                    let mine = all_layer_starts(done) + layer_starts(more, base);
                    let at = all_layer_starts(done).len() + j;
                    assert(mine[at] == start);
                    let whole = all_layer_starts(next);
                    assert(whole.subrange(0, mine.len() as int) =~= mine) by {
                        assert(layer_starts(layers, base).subrange(0, j + 1) == layer_starts(
                            more,
                            base,
                        ));
                    }
                    assert(whole[at] == start);
                    let full = all_layer_starts(scenes@);
                    assert(full.subrange(0, whole.len() as int) == whole);
                    assert(full[at] == full.subrange(0, whole.len() as int)[at]);
                    assert(!words_fit(full));
                }
                return Err(Error::SizeExceeded { size: start, limit: 0xffff });
            }
            layer_words.push(start as u16);
            let bytes = save_scene_layer(&scenes[i].layers[j]);
            push_all(&mut layer_data, bytes.as_slice());
            proof {
                let old_starts = all_layer_starts(done) + layer_starts(some, base);
                let new_starts = all_layer_starts(done) + layer_starts(more, base);
                assert(layer_starts(more, base) =~= layer_starts(some, base).push(start as int));
                assert(new_starts =~= old_starts.push(start as int));
                assert forall|k: int| 0 <= k < new_starts.len() implies 0
                    <= #[trigger] new_starts[k] <= 0xffff by {
                    if k < old_starts.len() {
                        assert(new_starts[k] == old_starts[k]);
                    }
                }
                assert(layer_data@ =~= scenes_data(done) + layers_data(more));
                assert(layer_words@ =~= as_words(
                    all_layer_starts(done) + layer_starts(more, base),
                ));
            }
            j += 1;
        }
        proof {
            assert(layers.subrange(0, m as int) =~= layers);
        }
        push_u16(&mut layer_data, 0);
        let count = layer_words.len();
        proof {
            assert(layer_data@ =~= scenes_data(next));
            assert(all_layer_starts(next) == all_layer_starts(done) + layer_starts(layers, base));
            lemma_scene_starts_entry(scenes@, i + 1);
        }
        if count > 0xffff {
            proof {
                assert(scene_starts(scenes@)[i + 1] == count);
                assert(!words_fit(scene_starts(scenes@)));
            }
            return Err(Error::SizeExceeded { size: count, limit: 0xffff });
        }
        scene_words.push(count as u16);
        proof {
            assert(scene_words@ =~= as_words(scene_starts(next)));
        }
        i += 1;
    }
    proof {
        assert(scenes@.subrange(0, n as int) =~= scenes@);
    }
    let scene_offsets = crate::data_view::words_to_bytes(scene_words.as_slice());
    let layer_offsets = crate::data_view::words_to_bytes(layer_words.as_slice());
    Ok((scene_offsets, layer_offsets, layer_data))
}

/// The number of blocks that a table of starts with the end behind them
/// tells of.
pub open spec fn sized_count(starts: Seq<u8>) -> int {
    if starts.len() / 2 == 0 {
        0
    } else {
        starts.len() / 2 - 1
    }
}

/// The number of layers of scene `i`.
pub open spec fn scene_size(scenes: Seq<u8>, i: int) -> int {
    entry_at(scenes, i + 1) - entry_at(scenes, i)
}

/// The byte offset of layer `j` of scene `i`.
pub open spec fn scene_layer_offset(scenes: Seq<u8>, layers: Seq<u8>, i: int, j: int) -> int {
    2 * entry_at(layers, entry_at(scenes, i) + j)
}

/// Whether scene `i` can be read: its layers are listed inside the table of
/// the layers, and each of them ends inside the data.
pub open spec fn scene_readable(scenes: Seq<u8>, layers: Seq<u8>, data: Seq<u8>, i: int) -> bool {
    &&& scene_size(scenes, i) >= 0
    &&& 2 * entry_at(scenes, i + 1) <= layers.len()
    &&& forall|j: int|
        0 <= j < scene_size(scenes, i) ==> layer_fits(
            data,
            #[trigger] scene_layer_offset(scenes, layers, i, j),
        )
}

/// Whether the three tables of the scenes can be read.
pub open spec fn scenes_readable(scenes: Seq<u8>, layers: Seq<u8>, data: Seq<u8>) -> bool {
    forall|i: int| 0 <= i < sized_count(scenes) ==> scene_readable(scenes, layers, data, i)
}

/// Whether `found` are the scenes that the three tables hold.
pub open spec fn scenes_are(found: Seq<Scene>, scenes: Seq<u8>, layers: Seq<u8>, data: Seq<u8>) -> bool {
    &&& found.len() == sized_count(scenes)
    &&& forall|i: int|
        0 <= i < found.len() ==> (#[trigger] found[i]).layers@.len() == scene_size(scenes, i)
    &&& forall|i: int, j: int|
        0 <= i < found.len() && 0 <= j < found[i].layers@.len() ==> #[trigger] found[i].layers@[j]
            == layer_at(data, scene_layer_offset(scenes, layers, i, j))
}

/// The scenes that the three tables hold.
pub fn read_scene_tables(scenes: &DataView, layers: &DataView, data: &DataView) -> (result: Result<
    Vec<Scene>,
    Error,
>)
    ensures
        match result {
            Ok(found) => scenes_readable(scenes@, layers@, data@) && scenes_are(
                found@,
                scenes@,
                layers@,
                data@,
            ),
            Err(Error::InvalidBlockOffset { block }) => !scenes_readable(
                scenes@,
                layers@,
                data@,
            ),
            Err(Error::RecordTruncated { record }) => !scenes_readable(scenes@, layers@, data@),
            Err(_) => false,
        },
{
    let (starts, sizes) = match get_scene_offsets(scenes) {
        Ok(found) => found,
        Err(e) => {
            proof {
                if let Error::InvalidBlockOffset { block } = e {
                    assert(!scene_readable(scenes@, layers@, data@, block as int));
                }
            }
            return Err(e);
        },
    };
    let ghost starts_view = starts@;
    let ghost sizes_view = sizes@;
    let offsets = match get_scene_layer_offsets(layers, starts, sizes) {
        Ok(found) => found,
        Err(e) => {
            proof {
                if let Error::InvalidBlockOffset { block } = e {
                    assert(starts_view[block as int] == 2 * entry_at(scenes@, block as int));
                    assert(sizes_view[block as int] == 2 * entry_at(scenes@, block + 1) - 2
                        * entry_at(scenes@, block as int));
                    assert(!scene_readable(scenes@, layers@, data@, block as int));
                }
            }
            return Err(e);
        },
    };
    proof {
        assert forall|i: int, j: int|
            0 <= i < offsets@.len() && 0 <= j < offsets@[i]@.len() implies #[trigger] offsets@[i]@[j]
            == scene_layer_offset(scenes@, layers@, i, j) by {
            assert(starts_view[i] == 2 * entry_at(scenes@, i));
            assert(offsets@[i]@[j] == 2 * le_u16(layers@, starts_view[i] + 2 * j));
        }
        assert forall|i: int| 0 <= i < offsets@.len() implies (#[trigger] offsets@[i])@.len()
            == scene_size(scenes@, i) by {
            assert(sizes_view[i] == 2 * entry_at(scenes@, i + 1) - 2 * entry_at(scenes@, i));
        }
    }
    let ghost offsets_view = offsets@;
    match get_scenes(data, offsets) {
        Ok(found) => {
            proof {
                assert forall|i: int| 0 <= i < sized_count(scenes@) implies scene_readable(
                    scenes@,
                    layers@,
                    data@,
                    i,
                ) by {
                    assert(scene_fits(data@, offsets_view, i));
                    assert(starts_view[i] == 2 * entry_at(scenes@, i));
                    assert(sizes_view[i] == 2 * entry_at(scenes@, i + 1) - 2 * entry_at(
                        scenes@,
                        i,
                    ));
                    assert(offsets_view[i]@.len() == scene_size(scenes@, i));
                    assert forall|j: int| 0 <= j < scene_size(scenes@, i) implies layer_fits(
                        data@,
                        #[trigger] scene_layer_offset(scenes@, layers@, i, j),
                    ) by {
                        assert(offsets_view[i]@[j] == scene_layer_offset(scenes@, layers@, i, j));
                    }
                }
                assert forall|i: int, j: int|
                    0 <= i < found@.len() && 0 <= j < found@[i].layers@.len()
                    implies #[trigger] found@[i].layers@[j] == layer_at(
                    data@,
                    scene_layer_offset(scenes@, layers@, i, j),
                ) by {
                    assert(offsets_view[i]@[j] == scene_layer_offset(scenes@, layers@, i, j));
                }
            }
            Ok(found)
        },
        Err(e) => {
            proof {
                if let Error::RecordTruncated { record } = e {
                    let i = record as int;
                    assert(!scene_fits(data@, offsets_view, i));
                    let j = choose|j: int|
                        0 <= j < offsets_view[i]@.len() && !layer_fits(
                            data@,
                            #[trigger] offsets_view[i]@[j] as int,
                        );
                    assert(offsets_view[i]@[j] == scene_layer_offset(scenes@, layers@, i, j));
                    assert(offsets_view[i]@.len() == scene_size(scenes@, i));
                    assert(!scene_readable(scenes@, layers@, data@, i));
                }
            }
            Err(e)
        },
    }
}

} // verus!
