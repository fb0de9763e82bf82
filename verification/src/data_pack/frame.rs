//! Frames of animation: groups of 53 frames, each either implicit or a list
//! of layers, and the layers as rows of optional fields.

use vstd::prelude::*;
use crate::data_view::{
    DataView, bytes_of_u32s, bytes_of_words, le_u16, push_all, to_signed, to_unsigned,
    u32s_to_bytes, words_to_bytes, lemma_signed_round_trip,
};
use crate::data_pack::blocks::{joined, part_start};
use crate::data_pack::{EntityId, lemma_word_entity_round_trip};
use crate::data_pack::bitmask::{
    read_row, row_fits, row_size, row_slots, row_words, save_row, lemma_row_round_trip,
    lemma_read_slots_len,
};
use crate::data_pack::scene::{entity_slot, signed_slot, slot_entity, slot_signed};
use crate::error::Error;

verus! {

/// What a layer of a frame shows.
#[derive(Clone, Copy, Debug, PartialEq, Eq, Structural)]
pub enum FrameLayerType {
    Unknown,
    Face,
    Npc,
    Body,
    HeadAccessory,
    FaceAccessory,
    BodyAccessory,
    DirtClouds,
    HandAccessory,
}

/// One layer of a frame. A field that the row does not hold is `None`.
#[derive(Clone, Copy, Debug, Default, PartialEq, Eq, Structural)]
pub struct FrameLayer {
    pub x: Option<i16>,
    pub y: Option<i16>,
    pub subimage_index: Option<u16>,
    pub layer_type: Option<FrameLayerType>,
    pub image_id: Option<EntityId>,
    pub unknown1: Option<u16>,
    pub unknown2: Option<u16>,
    pub unknown3: Option<u16>,
}

/// A frame: an implicit one, which has no layers of its own, or one with
/// its layers.
#[derive(Clone)]
pub enum Frame {
    Implicit,
    Explicit(Vec<FrameLayer>),
}

/// The frames of one animation.
#[derive(Clone)]
pub struct FrameGroup {
    pub frames: Vec<Frame>,
}

/// The number of frames in a group.
pub const GROUP_SIZE: usize = 53;

/// The number of bits of a layer's mask that a field may stand behind.
pub const FRAME_FIELDS: usize = 11;

/// The word that marks a frame as implicit.
pub const IMPLICIT_FRAME: u16 = 0xffff;

/// The word of a layer type.
pub open spec fn layer_type_word(layer_type: FrameLayerType) -> u16 {
    match layer_type {
        FrameLayerType::Face => 1,
        FrameLayerType::Npc => 2,
        FrameLayerType::Body => 3,
        FrameLayerType::HeadAccessory => 4,
        FrameLayerType::FaceAccessory => 6,
        FrameLayerType::BodyAccessory => 8,
        FrameLayerType::DirtClouds => 9,
        FrameLayerType::HandAccessory => 10,
        FrameLayerType::Unknown => 0,
    }
}

/// The layer type that a word holds.
pub open spec fn word_layer_type(word: u16) -> FrameLayerType {
    if word == 1 {
        FrameLayerType::Face
    } else if word == 2 {
        FrameLayerType::Npc
    } else if word == 3 {
        FrameLayerType::Body
    } else if word == 4 {
        FrameLayerType::HeadAccessory
    } else if word == 6 {
        FrameLayerType::FaceAccessory
    } else if word == 8 {
        FrameLayerType::BodyAccessory
    } else if word == 9 {
        FrameLayerType::DirtClouds
    } else if word == 10 {
        FrameLayerType::HandAccessory
    } else {
        FrameLayerType::Unknown
    }
}

/// The word of the layer type of a slot, if the slot holds one.
pub open spec fn type_slot(layer_type: Option<FrameLayerType>) -> Option<u16> {
    match layer_type {
        Some(t) => Some(layer_type_word(t)),
        None => None,
    }
}

/// The layer type that a slot holds, if it holds one.
pub open spec fn slot_type(word: Option<u16>) -> Option<FrameLayerType> {
    match word {
        Some(w) => Some(word_layer_type(w)),
        None => None,
    }
}

/// The fields of a layer at the bits that announce them; nothing is written
/// for bits 3, 6 and 7.
pub open spec fn frame_layer_slots(layer: FrameLayer) -> Seq<Option<u16>> {
    seq![
        signed_slot(layer.x),
        signed_slot(layer.y),
        layer.subimage_index,
        None,
        layer.unknown1,
        layer.unknown2,
        None,
        None,
        layer.unknown3,
        type_slot(layer.layer_type),
        entity_slot(layer.image_id),
    ]
}

/// The bits above the fields, which are never set.
pub open spec fn frame_layer_flags() -> Seq<bool> {
    seq![false, false, false, false, false]
}

/// The bits behind which a word stands: all eleven. The words behind bits 3,
/// 6 and 7 are taken and dropped.
pub open spec fn frame_carried() -> Seq<bool> {
    seq![true, true, true, true, true, true, true, true, true, true, true]
}

/// The bytes of a layer.
pub open spec fn frame_layer_bytes(layer: FrameLayer) -> Seq<u8> {
    bytes_of_words(row_words(frame_layer_slots(layer), frame_layer_flags()))
}

/// The layer that eleven fields make.
pub open spec fn frame_layer_of_slots(slots: Seq<Option<u16>>) -> FrameLayer {
    FrameLayer {
        x: slot_signed(slots[0]),
        y: slot_signed(slots[1]),
        subimage_index: slots[2],
        unknown1: slots[4],
        unknown2: slots[5],
        unknown3: slots[8],
        layer_type: slot_type(slots[9]),
        image_id: slot_entity(slots[10]),
    }
}

/// Whether a layer that stands at `offset` ends inside `s`.
pub open spec fn frame_layer_fits(s: Seq<u8>, offset: int) -> bool {
    row_fits(s, offset, frame_carried())
}

/// The layer at `offset`.
pub open spec fn frame_layer_at(s: Seq<u8>, offset: int) -> FrameLayer {
    frame_layer_of_slots(row_slots(s, offset, frame_carried()))
}

/// The offset of layer `k`, where the layers stand one behind the other from
/// the start of `s`.
pub open spec fn frame_layer_offset(s: Seq<u8>, k: int) -> int
    decreases k,
{
    if k <= 0 {
        0
    } else {
        let before = frame_layer_offset(s, k - 1);
        before + row_size(s, before, frame_carried())
    }
}

impl FrameLayer {
    /// A layer whose reference a word can hold exactly.
    pub open spec fn wf(self) -> bool {
        match self.image_id {
            Some(id) => id.wf(),
            None => true,
        }
    }
}

fn signed_word(v: Option<i16>) -> (w: Option<u16>)
    ensures
        w == signed_slot(v),
{
    match v {
        Some(v) => Some(to_unsigned(v)),
        None => None,
    }
}

fn word_signed(w: Option<u16>) -> (v: Option<i16>)
    ensures
        v == slot_signed(w),
{
    match w {
        Some(w) => Some(to_signed(w)),
        None => None,
    }
}

fn type_to_word(layer_type: FrameLayerType) -> (word: u16)
    ensures
        word == layer_type_word(layer_type),
{
    match layer_type {
        FrameLayerType::Face => 1,
        FrameLayerType::Npc => 2,
        FrameLayerType::Body => 3,
        FrameLayerType::HeadAccessory => 4,
        FrameLayerType::FaceAccessory => 6,
        FrameLayerType::BodyAccessory => 8,
        FrameLayerType::DirtClouds => 9,
        FrameLayerType::HandAccessory => 10,
        FrameLayerType::Unknown => 0,
    }
}

fn word_to_type(word: u16) -> (layer_type: FrameLayerType)
    ensures
        layer_type == word_layer_type(word),
{
    match word {
        1 => FrameLayerType::Face,
        2 => FrameLayerType::Npc,
        3 => FrameLayerType::Body,
        4 => FrameLayerType::HeadAccessory,
        6 => FrameLayerType::FaceAccessory,
        8 => FrameLayerType::BodyAccessory,
        9 => FrameLayerType::DirtClouds,
        10 => FrameLayerType::HandAccessory,
        _ => FrameLayerType::Unknown,
    }
}

/// The bytes of one layer: its mask, then the fields it holds. This never
/// fails.
pub fn save_frame_layer(frame_layer: &FrameLayer) -> (result: Result<Vec<u8>, Error>)
    ensures
        result matches Ok(bytes) && bytes@ == frame_layer_bytes(*frame_layer),
{
    let mut slots: Vec<Option<u16>> = Vec::new();
    slots.push(signed_word(frame_layer.x));
    slots.push(signed_word(frame_layer.y));
    slots.push(frame_layer.subimage_index);
    slots.push(None);
    slots.push(frame_layer.unknown1);
    slots.push(frame_layer.unknown2);
    slots.push(None);
    slots.push(None);
    slots.push(frame_layer.unknown3);
    slots.push(
        match frame_layer.layer_type {
            Some(t) => Some(type_to_word(t)),
            None => None,
        },
    );
    slots.push(
        match frame_layer.image_id {
            Some(id) => Some(id.to_word()),
            None => None,
        },
    );
    let mut flags: Vec<bool> = Vec::new();
    let mut k: usize = 0;
    while k < 5
        invariant
            k <= 5,
            flags@ == Seq::new(k as nat, |j: int| false),
        decreases 5 - k,
    {
        flags.push(false);
        k += 1;
        assert(flags@ =~= Seq::new(k as nat, |j: int| false));
    }
    assert(slots@ =~= frame_layer_slots(*frame_layer));
    assert(flags@ =~= frame_layer_flags());
    Ok(save_row(slots.as_slice(), flags.as_slice()))
}

/// The layer at `offset` and the offset behind it, if the layer ends inside
/// the data.
pub fn read_frame_layer(data: &DataView, offset: usize) -> (found: Option<(FrameLayer, usize)>)
    ensures
        match found {
            Some((layer, next)) => {
                &&& frame_layer_fits(data@, offset as int)
                &&& layer == frame_layer_at(data@, offset as int)
                &&& layer.wf()
                &&& next == offset + row_size(data@, offset as int, frame_carried())
                &&& next >= offset + 2
            },
            None => !frame_layer_fits(data@, offset as int),
        },
{
    let mut carried: Vec<bool> = Vec::new();
    carried.push(true);
    carried.push(true);
    carried.push(true);
    carried.push(true);
    carried.push(true);
    carried.push(true);
    carried.push(true);
    carried.push(true);
    carried.push(true);
    carried.push(true);
    carried.push(true);
    assert(carried@ =~= frame_carried());
    match read_row(data, offset, carried.as_slice()) {
        Some((mask, slots, next)) => {
            proof {
                lemma_read_slots_len(
                    data@,
                    offset + 2,
                    mask as nat,
                    frame_carried(),
                    FRAME_FIELDS as nat,
                );
            }
            let layer = FrameLayer {
                x: word_signed(slots[0]),
                y: word_signed(slots[1]),
                subimage_index: slots[2],
                unknown1: slots[4],
                unknown2: slots[5],
                unknown3: slots[8],
                layer_type: match slots[9] {
                    Some(w) => Some(word_to_type(w)),
                    None => None,
                },
                image_id: match slots[10] {
                    Some(w) => Some(EntityId::new(w)),
                    None => None,
                },
            };
            Some((layer, next))
        },
        None => None,
    }
}

/// A well-formed layer that was written reads back as it was.
pub proof fn lemma_frame_layer_round_trip(s: Seq<u8>, offset: int, layer: FrameLayer)
    requires
        layer.wf(),
        0 <= offset,
        offset + frame_layer_bytes(layer).len() <= s.len(),
        s.subrange(offset, offset + frame_layer_bytes(layer).len()) == frame_layer_bytes(layer),
    ensures
        frame_layer_fits(s, offset),
        frame_layer_at(s, offset) == layer,
        row_size(s, offset, frame_carried()) == frame_layer_bytes(layer).len(),
{
    let slots = frame_layer_slots(layer);
    lemma_row_round_trip(s, offset, slots, frame_layer_flags(), frame_carried());
    match layer.x {
        Some(v) => lemma_signed_round_trip(0, v),
        None => {},
    }
    match layer.y {
        Some(v) => lemma_signed_round_trip(0, v),
        None => {},
    }
    match layer.image_id {
        Some(id) => lemma_word_entity_round_trip(id),
        None => {},
    }
}

/// The layers that stand one behind the other in the data. An odd last byte
/// is left out.
pub fn get_frame_layers(data: &DataView) -> (result: Result<Vec<FrameLayer>, Error>)
    ensures
        match result {
            Ok(layers) => {
                &&& forall|k: int|
                    0 <= k < layers@.len() ==> frame_layer_fits(
                        data@,
                        #[trigger] frame_layer_offset(data@, k),
                    )
                &&& forall|k: int|
                    0 <= k < layers@.len() ==> #[trigger] layers@[k] == frame_layer_at(
                        data@,
                        frame_layer_offset(data@, k),
                    )
                &&& frame_layer_offset(data@, layers@.len() as int) + 2 > data@.len()
            },
            Err(Error::RecordTruncated { record }) => {
                &&& forall|k: int|
                    0 <= k < record ==> frame_layer_fits(
                        data@,
                        #[trigger] frame_layer_offset(data@, k),
                    )
                &&& frame_layer_offset(data@, record as int) + 2 <= data@.len()
                &&& !frame_layer_fits(data@, frame_layer_offset(data@, record as int))
            },
            Err(_) => false,
        },
{
    let mut layers: Vec<FrameLayer> = Vec::new();
    let len = data.len();
    let mut i: usize = 0;
    while len >= 2 && i <= len - 2
        invariant
            len == data.data.len(),
            i == frame_layer_offset(data@, layers@.len() as int),
            i <= len,
            forall|k: int|
                0 <= k < layers@.len() ==> frame_layer_fits(
                    data@,
                    #[trigger] frame_layer_offset(data@, k),
                ),
            forall|k: int|
                0 <= k < layers@.len() ==> #[trigger] layers@[k] == frame_layer_at(
                    data@,
                    frame_layer_offset(data@, k),
                ),
        decreases len - i,
    {
        match read_frame_layer(data, i) {
            Some((layer, next)) => {
                layers.push(layer);
                i = next;
            },
            None => {
                return Err(Error::RecordTruncated { record: layers.len() });
            },
        }
    }
    Ok(layers)
}

/// The layers of a frame, where it names any.
pub open spec fn frame_view(frame: Frame) -> Option<Seq<FrameLayer>> {
    match frame {
        Frame::Implicit => None,
        Frame::Explicit(layers) => Some(layers@),
    }
}

/// The place of the first layer that frame `k` of the table names.
pub open spec fn frame_first(s: Seq<u8>, k: int) -> u16 {
    le_u16(s, 4 * k)
}

/// The number of layers that frame `k` of the table names.
pub open spec fn frame_count(s: Seq<u8>, k: int) -> u16 {
    le_u16(s, 4 * k + 2)
}

/// Whether the layers that frame `k` names exist.
pub open spec fn frame_found(s: Seq<u8>, layers: Seq<FrameLayer>, k: int) -> bool {
    frame_first(s, k) == IMPLICIT_FRAME || frame_first(s, k) + frame_count(s, k) <= layers.len()
}

/// What frame `k` of the table stands for.
pub open spec fn frame_of(s: Seq<u8>, layers: Seq<FrameLayer>, k: int) -> Option<Seq<FrameLayer>> {
    if frame_first(s, k) == IMPLICIT_FRAME {
        None
    } else {
        Some(
            layers.subrange(
                frame_first(s, k) as int,
                frame_first(s, k) + frame_count(s, k),
            ),
        )
    }
}

fn read_frame(data: &DataView, layers: &Vec<FrameLayer>, k: usize) -> (frame: Option<Frame>)
    requires
        4 * k + 4 <= data.data.len(),
    ensures
        match frame {
            Some(frame) => frame_found(data@, layers@, k as int) && frame_view(frame) == frame_of(
                data@,
                layers@,
                k as int,
            ),
            None => !frame_found(data@, layers@, k as int),
        },
{
    let first = data.get_u16(4 * k) as usize;
    if first == 0xffff {
        return Some(Frame::Implicit);
    }
    let count = data.get_u16(4 * k + 2) as usize;
    if first + count > layers.len() {
        return None;
    }
    let mut own: Vec<FrameLayer> = Vec::new();
    let mut t: usize = 0;
    while t < count
        invariant
            t <= count,
            first + count <= layers.len(),
            own@ == layers@.subrange(first as int, first + t),
        decreases count - t,
    {
        own.push(layers[first + t]);
        t += 1;
        assert(own@ =~= layers@.subrange(first as int, first + t));
    }
    Some(Frame::Explicit(own))
}

/// The groups of 53 frames that the table holds, four bytes a frame. Frames
/// behind the last whole group are checked and left out.
pub fn get_frame_groups(data: &DataView, layers: Vec<FrameLayer>) -> (result: Result<
    Vec<FrameGroup>,
    Error,
>)
    ensures
        match result {
            Ok(groups) => {
                &&& forall|k: int| 0 <= k < data@.len() / 4 ==> frame_found(data@, layers@, k)
                &&& groups@.len() == (data@.len() / 4) / (GROUP_SIZE as nat)
                &&& forall|g: int|
                    0 <= g < groups@.len() ==> (#[trigger] groups@[g]).frames@.len() == GROUP_SIZE
                &&& forall|g: int, f: int|
                    0 <= g < groups@.len() && 0 <= f < GROUP_SIZE ==> frame_view(
                        #[trigger] groups@[g].frames@[f],
                    ) == frame_of(data@, layers@, GROUP_SIZE * g + f)
            },
            Err(Error::LayersNotFound { frame }) => {
                &&& frame < data@.len() / 4
                &&& !frame_found(data@, layers@, frame as int)
                &&& forall|k: int| 0 <= k < frame ==> frame_found(data@, layers@, k)
            },
            Err(_) => false,
        },
{
    let total = data.len() / 4;
    let group_count = total / GROUP_SIZE;
    let mut groups: Vec<FrameGroup> = Vec::new();
    let mut g: usize = 0;
    while g < group_count
        invariant
            g <= group_count,
            total == data.data.len() / 4,
            group_count == total / GROUP_SIZE,
            groups@.len() == g,
            forall|k: int| 0 <= k < GROUP_SIZE * g ==> frame_found(data@, layers@, k),
            forall|h: int|
                0 <= h < g ==> (#[trigger] groups@[h]).frames@.len() == GROUP_SIZE,
            forall|h: int, f: int|
                0 <= h < g && 0 <= f < GROUP_SIZE ==> frame_view(
                    #[trigger] groups@[h].frames@[f],
                ) == frame_of(data@, layers@, GROUP_SIZE * h + f),
        decreases group_count - g,
    {
        let mut frames: Vec<Frame> = Vec::new();
        let mut f: usize = 0;
        while f < GROUP_SIZE
            invariant
                f <= GROUP_SIZE,
                g < group_count,
                total == data.data.len() / 4,
                group_count == total / GROUP_SIZE,
                frames@.len() == f,
                forall|k: int| 0 <= k < GROUP_SIZE * g + f ==> frame_found(data@, layers@, k),
                forall|e: int|
                    0 <= e < f ==> frame_view(#[trigger] frames@[e]) == frame_of(
                        data@,
                        layers@,
                        GROUP_SIZE * g + e,
                    ),
            decreases GROUP_SIZE - f,
        {
            let k = GROUP_SIZE * g + f;
            match read_frame(data, &layers, k) {
                Some(frame) => {
                    frames.push(frame);
                },
                None => {
                    return Err(Error::LayersNotFound { frame: k });
                },
            }
            f += 1;
        }
        groups.push(FrameGroup { frames });
        g += 1;
    }
    let mut k: usize = GROUP_SIZE * group_count;
    while k < total
        invariant
            GROUP_SIZE * group_count <= k <= total,
            total == data.data.len() / 4,
            forall|j: int| 0 <= j < k ==> frame_found(data@, layers@, j),
        decreases total - k,
    {
        match read_frame(data, &layers, k) {
            Some(_) => {},
            None => {
                return Err(Error::LayersNotFound { frame: k });
            },
        }
        k += 1;
    }
    Ok(groups)
}

/// The frames of all groups, in order.
pub open spec fn flat_frames(groups: Seq<FrameGroup>) -> Seq<Frame>
    decreases groups.len(),
{
    if groups.len() == 0 {
        Seq::empty()
    } else {
        flat_frames(groups.drop_last()) + groups.last().frames@
    }
}

/// The layers that a frame names: none where it is implicit.
pub open spec fn frame_layers(frame: Frame) -> Seq<FrameLayer> {
    match frame {
        Frame::Implicit => Seq::empty(),
        Frame::Explicit(layers) => layers@,
    }
}

/// The layers of all frames, in order.
pub open spec fn frames_layers(frames: Seq<Frame>) -> Seq<FrameLayer>
    decreases frames.len(),
{
    if frames.len() == 0 {
        Seq::empty()
    } else {
        frames_layers(frames.drop_last()) + frame_layers(frames.last())
    }
}

/// The two words of a frame in front of which `before` layers stand: the
/// place of its first layer and the number of its layers, or the mark of an
/// implicit frame and zero.
pub open spec fn frame_entry(frame: Frame, before: nat) -> Seq<u16> {
    match frame {
        Frame::Implicit => seq![IMPLICIT_FRAME, 0u16],
        Frame::Explicit(layers) => seq![before as u16, layers@.len() as u16],
    }
}

/// The table of the frames: two words each.
pub open spec fn frame_words(frames: Seq<Frame>) -> Seq<u16>
    decreases frames.len(),
{
    if frames.len() == 0 {
        Seq::empty()
    } else {
        frame_words(frames.drop_last()) + frame_entry(
            frames.last(),
            frames_layers(frames.drop_last()).len(),
        )
    }
}

/// Whether the two words of frame `k` can hold it: the place of its first
/// layer is below the mark of an implicit frame, and the number of its layers
/// fits a word.
pub open spec fn frame_fits(frames: Seq<Frame>, k: int) -> bool {
    frames[k] is Explicit ==> frames_layers(frames.subrange(0, k)).len() < IMPLICIT_FRAME
        && frame_layers(frames[k]).len() <= 0xffff
}

/// Whether the two words of each frame can hold it.
pub open spec fn frames_fit(frames: Seq<Frame>) -> bool {
    forall|k: int| 0 <= k < frames.len() ==> frame_fits(frames, k)
}

/// The bytes of each layer.
pub open spec fn layer_parts(layers: Seq<FrameLayer>) -> Seq<Seq<u8>> {
    Seq::new(layers.len(), |k: int| frame_layer_bytes(layers[k]))
}

/// Whether the word at which each layer starts, and that at which the last
/// ends, fits 32 bits.
pub open spec fn layer_offsets_fit(layers: Seq<FrameLayer>) -> bool {
    forall|k: int|
        0 <= k <= layers.len() ==> #[trigger] part_start(layer_parts(layers), k) / 2 <= u32::MAX
}

/// The word at which each layer starts, and last that at which the last ends.
pub open spec fn layer_offset_words(layers: Seq<FrameLayer>) -> Seq<u32> {
    Seq::new(layers.len() + 1, |k: int| (part_start(layer_parts(layers), k) / 2) as u32)
}

/// The frames of the first `g` groups and the first `f` of the next are the
/// first frames of all.
pub proof fn lemma_flat_frames_prefix(groups: Seq<FrameGroup>, g: int, f: int)
    requires
        0 <= g < groups.len(),
        0 <= f <= groups[g].frames@.len(),
    ensures
        flat_frames(groups.subrange(0, g)).len() + f <= flat_frames(groups).len(),
        flat_frames(groups).subrange(0, flat_frames(groups.subrange(0, g)).len() + f)
            == flat_frames(groups.subrange(0, g)) + groups[g].frames@.subrange(0, f),
    decreases groups.len(),
{
    let init = groups.drop_last();
    let head = flat_frames(groups.subrange(0, g));
    if g == groups.len() - 1 {
        assert(groups.subrange(0, g) =~= init);
        assert(flat_frames(groups).subrange(0, head.len() + f) =~= head
            + groups[g].frames@.subrange(0, f));
    } else {
        assert(init.subrange(0, g) =~= groups.subrange(0, g));
        lemma_flat_frames_prefix(init, g, f);
        assert(flat_frames(groups).subrange(0, head.len() + f) =~= flat_frames(init).subrange(
            0,
            head.len() + f,
        ));
    }
}

fn append_layers(flat: &mut Vec<FrameLayer>, more: &Vec<FrameLayer>)
    ensures
        final(flat)@ == old(flat)@ + more@,
{
    let n = more.len();
    let mut i: usize = 0;
    while i < n
        invariant
            i <= n,
            n == more@.len(),
            flat@ == old(flat)@ + more@.subrange(0, i as int),
        decreases n - i,
    {
        flat.push(more[i]);
        i += 1;
        assert(flat@ =~= old(flat)@ + more@.subrange(0, i as int));
    }
    assert(more@.subrange(0, n as int) =~= more@);
}

/// The layers of all frames and the table of the frames.
fn flatten_frames(groups: &[FrameGroup]) -> (result: Result<(Vec<FrameLayer>, Vec<u16>), Error>)
    ensures
        match result {
            Ok((layers, words)) => {
                &&& frames_fit(flat_frames(groups@))
                &&& layers@ == frames_layers(flat_frames(groups@))
                &&& words@ == frame_words(flat_frames(groups@))
            },
            Err(Error::SizeExceeded { size, limit }) => {
                &&& !frames_fit(flat_frames(groups@))
                &&& size > limit
            },
            Err(_) => false,
        },
{
    let mut flat: Vec<FrameLayer> = Vec::new();
    let mut words: Vec<u16> = Vec::new();
    let n = groups.len();
    let mut g: usize = 0;
    assert(groups@.subrange(0, 0) =~= Seq::<FrameGroup>::empty());
    while g < n
        invariant
            g <= n,
            n == groups@.len(),
            flat@ == frames_layers(flat_frames(groups@.subrange(0, g as int))),
            words@ == frame_words(flat_frames(groups@.subrange(0, g as int))),
            frames_fit(flat_frames(groups@.subrange(0, g as int))),
        decreases n - g,
    {
        let ghost head = flat_frames(groups@.subrange(0, g as int));
        let ghost frames = groups@[g as int].frames@;
        let m = groups[g].frames.len();
        let mut f: usize = 0;
        assert(head + frames.subrange(0, 0) =~= head);
        while f < m
            invariant
                f <= m,
                g < n,
                n == groups@.len(),
                frames == groups@[g as int].frames@,
                m == frames.len(),
                head == flat_frames(groups@.subrange(0, g as int)),
                flat@ == frames_layers(head + frames.subrange(0, f as int)),
                words@ == frame_words(head + frames.subrange(0, f as int)),
                frames_fit(head + frames.subrange(0, f as int)),
            decreases m - f,
        {
            let ghost cur = head + frames.subrange(0, f as int);
            let ghost next = head + frames.subrange(0, f + 1);
            let ghost full = flat_frames(groups@);
            proof {
                assert(next =~= cur.push(frames[f as int]));
                assert(next.drop_last() =~= cur);
                assert(next.subrange(0, cur.len() as int) =~= cur);
                lemma_flat_frames_prefix(groups@, g as int, f + 1);
                assert(full.subrange(0, next.len() as int) == next);
                assert(full[cur.len() as int] == full.subrange(0, next.len() as int)[cur.len() as int]);
                assert(full.subrange(0, cur.len() as int) =~= cur);
            }
            match &groups[g].frames[f] {
                Frame::Implicit => {
                    words.push(IMPLICIT_FRAME);
                    words.push(0);
                    proof {
                        assert(flat@ + Seq::<FrameLayer>::empty() =~= flat@);
                    }
                },
                Frame::Explicit(layers) => {
                    let before = flat.len();
                    if before >= 0xffff {
                        proof {
                            assert(!frame_fits(full, cur.len() as int));
                        }
                        return Err(Error::SizeExceeded { size: before, limit: 0xfffe });
                    }
                    let count = layers.len();
                    if count > 0xffff {
                        proof {
                            assert(!frame_fits(full, cur.len() as int));
                        }
                        return Err(Error::SizeExceeded { size: count, limit: 0xffff });
                    }
                    words.push(before as u16);
                    words.push(count as u16);
                    append_layers(&mut flat, layers);
                },
            }
            proof {
                assert(words@ =~= frame_words(cur) + frame_entry(
                    frames[f as int],
                    frames_layers(cur).len(),
                ));
                assert forall|k: int| 0 <= k < next.len() implies frame_fits(next, k) by {
                    if k < cur.len() {
                        assert(frame_fits(cur, k));
                        assert(next.subrange(0, k) =~= cur.subrange(0, k));
                    }
                }
            }
            f += 1;
        }
        proof {
            assert(frames.subrange(0, m as int) =~= frames);
            assert(groups@.subrange(0, g + 1).drop_last() =~= groups@.subrange(0, g as int));
        }
        g += 1;
    }
    assert(groups@.subrange(0, n as int) =~= groups@);
    Ok((flat, words))
}

/// The three tables of the frames: the word at which each layer starts and
/// that at which the last ends, 32 bits each; the layers; and two words for
/// each frame.
pub fn save_frame_groups(frame_groups: &[FrameGroup]) -> (result: Result<
    (Vec<u8>, Vec<u8>, Vec<u8>),
    Error,
>)
    ensures
        match result {
            Ok((frame_layer_offsets, frame_layer_data, frame_group_data)) => {
                let frames = flat_frames(frame_groups@);
                let layers = frames_layers(frames);
                &&& frames_fit(frames)
                &&& layer_offsets_fit(layers)
                &&& frame_layer_offsets@ == bytes_of_u32s(layer_offset_words(layers))
                &&& frame_layer_data@ == joined(layer_parts(layers))
                &&& frame_group_data@ == bytes_of_words(frame_words(frames))
            },
            Err(Error::SizeExceeded { size, limit }) => {
                let frames = flat_frames(frame_groups@);
                &&& !(frames_fit(frames) && layer_offsets_fit(frames_layers(frames)))
                &&& size > limit
            },
            Err(_) => false,
        },
{
    let (layers, words) = match flatten_frames(frame_groups) {
        Ok(found) => found,
        Err(e) => {
            return Err(e);
        },
    };
    let ghost parts = layer_parts(layers@);
    let mut offsets: Vec<u32> = Vec::new();
    let mut data: Vec<u8> = Vec::new();
    let n = layers.len();
    let mut k: usize = 0;
    assert(parts.subrange(0, 0) =~= Seq::<Seq<u8>>::empty());
    while k < n
        invariant
            k <= n,
            n == layers@.len(),
            parts == layer_parts(layers@),
            layers@ == frames_layers(flat_frames(frame_groups@)),
            data@ == joined(parts.subrange(0, k as int)),
            offsets@.len() == k,
            forall|j: int|
                0 <= j < k ==> #[trigger] part_start(parts, j) / 2 <= u32::MAX && offsets@[j]
                    == part_start(parts, j) / 2,
        decreases n - k,
    {
        let start = data.len() / 2;
        if start > 0xffff_ffff {
            proof {
                assert(part_start(parts, k as int) / 2 > u32::MAX);
            }
            return Err(Error::SizeExceeded { size: start, limit: 0xffff_ffff });
        }
        offsets.push(start as u32);
        match save_frame_layer(&layers[k]) {
            Ok(bytes) => {
                push_all(&mut data, bytes.as_slice());
            },
            Err(e) => {
                return Err(e);
            },
        }
        proof {
            assert(parts.subrange(0, k + 1).drop_last() =~= parts.subrange(0, k as int));
            assert(parts.subrange(0, k + 1).last() == frame_layer_bytes(layers@[k as int]));
        }
        k += 1;
    }
    let end = data.len() / 2;
    if end > 0xffff_ffff {
        proof {
            assert(part_start(parts, n as int) / 2 > u32::MAX);
        }
        return Err(Error::SizeExceeded { size: end, limit: 0xffff_ffff });
    }
    offsets.push(end as u32);
    proof {
        assert(parts.subrange(0, n as int) =~= parts);
        assert(offsets@ =~= layer_offset_words(layers@));
    }
    Ok((u32s_to_bytes(offsets.as_slice()), data, words_to_bytes(words.as_slice())))
}

/// Whether exactly `n` layers stand one behind the other in `s`: each of them
/// ends inside `s`, and behind them not even a mask has room.
pub open spec fn frame_layers_end(s: Seq<u8>, n: nat) -> bool {
    &&& forall|k: int|
        0 <= k < n ==> frame_layer_fits(s, #[trigger] frame_layer_offset(s, k))
    &&& frame_layer_offset(s, n as int) + 2 > s.len()
}

/// The first `n` layers that stand in `s`.
pub open spec fn frame_layers_of(s: Seq<u8>, n: nat) -> Seq<FrameLayer> {
    Seq::new(n, |k: int| frame_layer_at(s, frame_layer_offset(s, k)))
}

/// At most one number of layers stands in `s`.
pub proof fn lemma_frame_layers_end_unique(s: Seq<u8>, n: nat, m: nat)
    requires
        frame_layers_end(s, n),
        frame_layers_end(s, m),
    ensures
        n == m,
{
    if n < m {
        assert(frame_layer_fits(s, frame_layer_offset(s, n as int)));
    }
    if m < n {
        assert(frame_layer_fits(s, frame_layer_offset(s, m as int)));
    }
}

/// Where layer `r` has room for its mask and yet does not end inside `s`, no
/// number of layers stands in `s`.
pub proof fn lemma_frame_layers_cut(s: Seq<u8>, r: nat, n: nat)
    requires
        forall|k: int|
            0 <= k < r ==> frame_layer_fits(s, #[trigger] frame_layer_offset(s, k)),
        frame_layer_offset(s, r as int) + 2 <= s.len(),
        !frame_layer_fits(s, frame_layer_offset(s, r as int)),
    ensures
        !frame_layers_end(s, n),
{
    if n < r {
        assert(frame_layer_fits(s, frame_layer_offset(s, n as int)));
    }
}

/// Whether the tables of the frames can be read: layers stand one behind the
/// other in `layers`, and each frame of `frames` names layers among them.
pub open spec fn frames_readable(layers: Seq<u8>, frames: Seq<u8>) -> bool {
    exists|n: nat| #[trigger]
        frame_layers_end(layers, n) && forall|k: int|
            0 <= k < frames.len() / 4 ==> frame_found(frames, frame_layers_of(layers, n), k)
}

/// Whether `groups` are what the tables of the frames hold.
pub open spec fn frame_groups_are(groups: Seq<FrameGroup>, layers: Seq<u8>, frames: Seq<u8>) -> bool {
    exists|n: nat| #[trigger]
        frame_layers_end(layers, n) && {
            &&& groups.len() == (frames.len() / 4) / (GROUP_SIZE as nat)
            &&& forall|g: int|
                0 <= g < groups.len() ==> (#[trigger] groups[g]).frames@.len() == GROUP_SIZE
            &&& forall|g: int, f: int|
                0 <= g < groups.len() && 0 <= f < GROUP_SIZE ==> frame_view(
                    #[trigger] groups[g].frames@[f],
                ) == frame_of(frames, frame_layers_of(layers, n), GROUP_SIZE * g + f)
        }
}

/// The groups of frames that the table of the layers and the table of the
/// frames hold.
pub fn read_frame_tables(layers: &DataView, frames: &DataView) -> (result: Result<
    Vec<FrameGroup>,
    Error,
>)
    ensures
        match result {
            Ok(groups) => frames_readable(layers@, frames@) && frame_groups_are(
                groups@,
                layers@,
                frames@,
            ),
            Err(Error::RecordTruncated { record }) => !frames_readable(layers@, frames@),
            Err(Error::LayersNotFound { frame }) => !frames_readable(layers@, frames@),
            Err(_) => false,
        },
{
    let found = match get_frame_layers(layers) {
        Ok(found) => found,
        Err(e) => {
            proof {
                if let Error::RecordTruncated { record } = e {
                    assert forall|n: nat| !frame_layers_end(layers@, n) by {
                        lemma_frame_layers_cut(layers@, record as nat, n);
                    }
                }
            }
            return Err(e);
        },
    };
    let ghost count = found@.len();
    proof {
        assert(frame_layers_end(layers@, count));
        assert(found@ =~= frame_layers_of(layers@, count));
    }
    match get_frame_groups(frames, found) {
        Ok(groups) => Ok(groups),
        Err(e) => {
            proof {
                if let Error::LayersNotFound { frame } = e {
                    assert forall|n: nat| #[trigger]
                        frame_layers_end(layers@, n) implies !(forall|k: int|
                        0 <= k < frames@.len() / 4 ==> frame_found(
                            frames@,
                            frame_layers_of(layers@, n),
                            k,
                        )) by {
                        lemma_frame_layers_end_unique(layers@, n, count);
                    }
                }
            }
            Err(e)
        },
    }
}

} // verus!
