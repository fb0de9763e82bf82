//! Changes to the records, one record at a time: each takes the place of the
//! record and its new values, and gives the record as it then stands, or
//! nothing where there is no such record.

use vstd::prelude::*;
use vstd::string::*;
use crate::data_pack::character::Character;
use crate::data_pack::frame::{Frame, FrameGroup, FrameLayer};
use crate::data_pack::item::Item;
use crate::data_pack::scene::{Scene, SceneLayer};
use crate::data_pack::tamastring::TamaString;
use crate::data_pack::DataPack;
use crate::sprite_pack::image_def::{ImageSet, ImageSummary};
use crate::text::{decoded, encoded, CharEncoding, Text};

verus! {

/// Whether a text has the string `string`, and the codes that it stands for.
pub open spec fn text_set(text: Text, codes: Seq<CharEncoding>, string: Seq<char>) -> bool {
    text.string@ == string && text.data@ == decoded(codes, string)
}

/// Whether `item` is `before` with the values of `given`: all but its id,
/// and its name as the string of the name of `given` reads.
pub open spec fn item_set(item: Item, before: Item, given: Item, codes: Seq<CharEncoding>) -> bool {
    &&& item.id == before.id
    &&& item.item_type == given.item_type
    &&& text_set(item.name, codes, given.name.string@)
    &&& item.image_id == given.image_id
    &&& item.worn_image_id == given.worn_image_id
    &&& item.close_image_id == given.close_image_id
    &&& item.animation_id == given.animation_id
    &&& item.price == given.price
    &&& item.unknown1 == given.unknown1
    &&& item.unknown2 == given.unknown2
    &&& item.unknown3 == given.unknown3
    &&& item.unlocked_character == given.unlocked_character
    &&& item.game_type == given.game_type
}

/// Gives item `index` the values of `new_item`, but for its id.
pub fn update_item(
    char_codes: &[CharEncoding],
    items: &mut Vec<Item>,
    index: usize,
    new_item: &Item,
) -> (updated: Option<Item>)
    ensures
        final(items)@.len() == old(items)@.len(),
        forall|k: int|
            0 <= k < old(items)@.len() && k != index ==> final(items)@[k] == old(items)@[k],
        match updated {
            Some(item) => {
                &&& index < old(items)@.len()
                &&& item_set(final(items)@[index as int], old(items)@[index as int], *new_item, char_codes@)
                &&& item_set(item, old(items)@[index as int], *new_item, char_codes@)
            },
            None => index >= old(items)@.len() && final(items)@ == old(items)@,
        },
{
    if index >= items.len() {
        return None;
    }
    let id = items[index].id;
    items[index].item_type = new_item.item_type;
    items[index].name.set_string(char_codes, new_item.name.string.as_str());
    items[index].image_id = new_item.image_id;
    items[index].worn_image_id = new_item.worn_image_id;
    items[index].close_image_id = new_item.close_image_id;
    items[index].animation_id = new_item.animation_id;
    items[index].price = new_item.price;
    items[index].unknown1 = new_item.unknown1;
    items[index].unknown2 = new_item.unknown2;
    items[index].unknown3 = new_item.unknown3;
    items[index].game_type = new_item.game_type;
    items[index].unlocked_character = new_item.unlocked_character;
    Some(
        Item {
            id,
            item_type: new_item.item_type,
            name: Text::from_string(char_codes, new_item.name.string.as_str()),
            image_id: new_item.image_id,
            worn_image_id: new_item.worn_image_id,
            close_image_id: new_item.close_image_id,
            animation_id: new_item.animation_id,
            price: new_item.price,
            unknown1: new_item.unknown1,
            unknown2: new_item.unknown2,
            unknown3: new_item.unknown3,
            unlocked_character: new_item.unlocked_character,
            game_type: new_item.game_type,
        },
    )
}

/// Whether `character` is `before` with the values of `given`: all but its
/// ids and its type, and each text as the string of that text of `given`
/// reads.
pub open spec fn character_set(
    character: Character,
    before: Character,
    given: Character,
    codes: Seq<CharEncoding>,
) -> bool {
    &&& character.id == before.id
    &&& character.character_type == before.character_type
    &&& character.unknown1 == before.unknown1
    &&& character.global_id == before.global_id
    &&& text_set(character.name, codes, given.name.string@)
    &&& character.profile_image_id == given.profile_image_id
    &&& character.icon_image_id == given.icon_image_id
    &&& character.composition_id == given.composition_id
    &&& text_set(character.pronoun, codes, given.pronoun.string@)
    &&& text_set(character.statement, codes, given.statement.string@)
    &&& text_set(character.question1, codes, given.question1.string@)
    &&& text_set(character.question2, codes, given.question2.string@)
    &&& character.unknown2 == given.unknown2
    &&& character.unknown3 == given.unknown3
    &&& character.unknown4 == given.unknown4
    &&& character.unknown5 == given.unknown5
    &&& character.unknown6 == given.unknown6
    &&& character.unknown7 == given.unknown7
    &&& character.gender == given.gender
}

/// Gives character `index` the values of `new_character`, but for its ids
/// and its type.
pub fn update_character(
    char_codes: &[CharEncoding],
    characters: &mut Vec<Character>,
    index: usize,
    new_character: &Character,
) -> (updated: Option<Character>)
    ensures
        final(characters)@.len() == old(characters)@.len(),
        forall|k: int|
            0 <= k < old(characters)@.len() && k != index ==> final(characters)@[k] == old(characters)@[k],
        match updated {
            Some(character) => {
                &&& index < old(characters)@.len()
                &&& character_set(
                    final(characters)@[index as int],
                    old(characters)@[index as int],
                    *new_character,
                    char_codes@,
                )
                &&& character_set(
                    character,
                    old(characters)@[index as int],
                    *new_character,
                    char_codes@,
                )
            },
            None => index >= old(characters)@.len() && final(characters)@ == old(characters)@,
        },
{
    if index >= characters.len() {
        return None;
    }
    let id = characters[index].id;
    let character_type = characters[index].character_type;
    let unknown1 = characters[index].unknown1;
    let global_id = characters[index].global_id;
    characters[index].name.set_string(char_codes, new_character.name.string.as_str());
    characters[index].profile_image_id = new_character.profile_image_id;
    characters[index].icon_image_id = new_character.icon_image_id;
    characters[index].composition_id = new_character.composition_id;
    characters[index].pronoun.set_string(char_codes, new_character.pronoun.string.as_str());
    characters[index].statement.set_string(char_codes, new_character.statement.string.as_str());
    characters[index].question1.set_string(char_codes, new_character.question1.string.as_str());
    characters[index].question2.set_string(char_codes, new_character.question2.string.as_str());
    characters[index].unknown2 = new_character.unknown2;
    characters[index].unknown3 = new_character.unknown3;
    characters[index].unknown4 = new_character.unknown4;
    characters[index].unknown5 = new_character.unknown5;
    characters[index].unknown6 = new_character.unknown6;
    characters[index].unknown7 = new_character.unknown7;
    characters[index].gender = new_character.gender;
    Some(
        Character {
            id,
            character_type,
            name: Text::from_string(char_codes, new_character.name.string.as_str()),
            profile_image_id: new_character.profile_image_id,
            icon_image_id: new_character.icon_image_id,
            composition_id: new_character.composition_id,
            unknown1,
            pronoun: Text::from_string(char_codes, new_character.pronoun.string.as_str()),
            statement: Text::from_string(char_codes, new_character.statement.string.as_str()),
            question1: Text::from_string(char_codes, new_character.question1.string.as_str()),
            question2: Text::from_string(char_codes, new_character.question2.string.as_str()),
            unknown2: new_character.unknown2,
            unknown3: new_character.unknown3,
            global_id,
            unknown4: new_character.unknown4,
            unknown5: new_character.unknown5,
            unknown6: new_character.unknown6,
            unknown7: new_character.unknown7,
            gender: new_character.gender,
        },
    )
}

/// Whether `string` is `before` with the values of `given`: all but its id,
/// and its value as the string of the value of `given` reads.
pub open spec fn tamastring_set(
    string: TamaString,
    before: TamaString,
    given: TamaString,
    codes: Seq<CharEncoding>,
) -> bool {
    &&& string.id == before.id
    &&& string.unknown1 == given.unknown1
    &&& string.unknown2 == given.unknown2
    &&& string.unknown3 == given.unknown3
    &&& text_set(string.value, codes, given.value.string@)
}

/// Gives string `index` the values of `new_tamastring`, but for its id.
pub fn update_tamastring(
    char_codes: &[CharEncoding],
    tamastrings: &mut Vec<TamaString>,
    index: usize,
    new_tamastring: &TamaString,
) -> (updated: Option<TamaString>)
    ensures
        final(tamastrings)@.len() == old(tamastrings)@.len(),
        forall|k: int|
            0 <= k < old(tamastrings)@.len() && k != index ==> final(tamastrings)@[k] == old(tamastrings)@[k],
        match updated {
            Some(string) => {
                &&& index < old(tamastrings)@.len()
                &&& tamastring_set(
                    final(tamastrings)@[index as int],
                    old(tamastrings)@[index as int],
                    *new_tamastring,
                    char_codes@,
                )
                &&& tamastring_set(
                    string,
                    old(tamastrings)@[index as int],
                    *new_tamastring,
                    char_codes@,
                )
            },
            None => index >= old(tamastrings)@.len() && final(tamastrings)@ == old(tamastrings)@,
        },
{
    if index >= tamastrings.len() {
        return None;
    }
    let id = tamastrings[index].id;
    tamastrings[index].unknown1 = new_tamastring.unknown1;
    tamastrings[index].unknown2 = new_tamastring.unknown2;
    tamastrings[index].unknown3 = new_tamastring.unknown3;
    tamastrings[index].value.set_string(char_codes, new_tamastring.value.string.as_str());
    Some(
        TamaString {
            id,
            unknown1: new_tamastring.unknown1,
            unknown2: new_tamastring.unknown2,
            unknown3: new_tamastring.unknown3,
            value: Text::from_string(char_codes, new_tamastring.value.string.as_str()),
        },
    )
}

/// Gives menu string `index` the string `new_menu_string`, and the codes
/// that it stands for.
pub fn update_menu_string(
    char_codes: &[CharEncoding],
    menu_strings: &mut Vec<Text>,
    index: usize,
    new_menu_string: &str,
) -> (updated: Option<Text>)
    ensures
        final(menu_strings)@.len() == old(menu_strings)@.len(),
        forall|k: int|
            0 <= k < old(menu_strings)@.len() && k != index ==> final(menu_strings)@[k] == old(menu_strings)@[k],
        match updated {
            Some(text) => {
                &&& index < old(menu_strings)@.len()
                &&& text_set(final(menu_strings)@[index as int], char_codes@, new_menu_string@)
                &&& text_set(text, char_codes@, new_menu_string@)
            },
            None => index >= old(menu_strings)@.len() && final(menu_strings)@ == old(menu_strings)@,
        },
{
    if index >= menu_strings.len() {
        return None;
    }
    menu_strings[index].set_string(char_codes, new_menu_string);
    Some(Text::from_string(char_codes, new_menu_string))
}

/// Puts `new_layer` in the place of layer `layer_index` of scene
/// `scene_index`.
pub fn update_scene_layer(
    scenes: &mut Vec<Scene>,
    scene_index: usize,
    layer_index: usize,
    new_layer: SceneLayer,
) -> (updated: Option<SceneLayer>)
    ensures
        final(scenes)@.len() == old(scenes)@.len(),
        forall|k: int|
            0 <= k < old(scenes)@.len() && k != scene_index ==> final(scenes)@[k] == old(scenes)@[k],
        match updated {
            Some(layer) => {
                &&& scene_index < old(scenes)@.len()
                &&& layer_index < old(scenes)@[scene_index as int].layers@.len()
                &&& layer == new_layer
                &&& final(scenes)@[scene_index as int].layers@ == old(scenes)@[scene_index as int].layers@.update(layer_index as int, new_layer)
            },
            None => {
                &&& scene_index >= old(scenes)@.len() || layer_index >= old(scenes)@[scene_index as int].layers@.len()
                &&& final(scenes)@ == old(scenes)@
            },
        },
{
    if scene_index >= scenes.len() {
        return None;
    }
    if layer_index >= scenes[scene_index].layers.len() {
        return None;
    }
    scenes[scene_index].layers[layer_index] = new_layer;
    Some(new_layer)
}

/// Whether two frames are the same: both implicit, or both explicit with
/// the same layers.
pub open spec fn same_frame(a: Frame, b: Frame) -> bool {
    match (a, b) {
        (Frame::Implicit, Frame::Implicit) => true,
        (Frame::Explicit(x), Frame::Explicit(y)) => x@ == y@,
        _ => false,
    }
}

/// A frame like `frame`.
pub fn copy_frame(frame: &Frame) -> (copy: Frame)
    ensures
        same_frame(copy, *frame),
{
    match frame {
        Frame::Implicit => Frame::Implicit,
        Frame::Explicit(layers) => {
            let mut copy: Vec<FrameLayer> = Vec::new();
            let n = layers.len();
            let mut i: usize = 0;
            while i < n
                invariant
                    i <= n,
                    n == layers@.len(),
                    copy@ == layers@.subrange(0, i as int),
                decreases n - i,
            {
                copy.push(layers[i]);
                i += 1;
                assert(copy@ =~= layers@.subrange(0, i as int));
            }
            assert(copy@ =~= layers@);
            Frame::Explicit(copy)
        },
    }
}

/// Puts `new_frame` in the place of frame `frame_index` of group
/// `group_index`.
pub fn update_frame(
    frame_groups: &mut Vec<FrameGroup>,
    group_index: usize,
    frame_index: usize,
    new_frame: Frame,
) -> (updated: Option<Frame>)
    ensures
        final(frame_groups)@.len() == old(frame_groups)@.len(),
        forall|k: int|
            0 <= k < old(frame_groups)@.len() && k != group_index ==> final(frame_groups)@[k]
                == old(frame_groups)@[k],
        match updated {
            Some(frame) => {
                &&& group_index < old(frame_groups)@.len()
                &&& frame_index < old(frame_groups)@[group_index as int].frames@.len()
                &&& same_frame(frame, new_frame)
                &&& final(frame_groups)@[group_index as int].frames@ == old(frame_groups)@[group_index as int].frames@.update(frame_index as int, new_frame)
            },
            None => {
                &&& group_index >= old(frame_groups)@.len() || frame_index >= old(frame_groups)@[group_index as int].frames@.len()
                &&& final(frame_groups)@ == old(frame_groups)@
            },
        },
{
    if group_index >= frame_groups.len() {
        return None;
    }
    if frame_index >= frame_groups[group_index].frames.len() {
        return None;
    }
    let copy = copy_frame(&new_frame);
    frame_groups[group_index].frames[frame_index] = new_frame;
    Some(copy)
}

/// The offset that a subimage is given: number `i` of `offsets`, or the one
/// it has where there is no such number.
pub open spec fn offset_given(offsets: Seq<i32>, i: int, before: i32) -> i32 {
    if i < offsets.len() {
        offsets[i]
    } else {
        before
    }
}

/// Whether `set` is `before` with the offsets given to its subimages.
pub open spec fn offsets_set(
    set: ImageSet,
    before: ImageSet,
    offsets_x: Seq<i32>,
    offsets_y: Seq<i32>,
    count: int,
) -> bool {
    &&& set.original_index == before.original_index
    &&& set.width == before.width
    &&& set.height == before.height
    &&& set.width_in_sprites == before.width_in_sprites
    &&& set.height_in_sprites == before.height_in_sprites
    &&& set.is_quadrupled == before.is_quadrupled
    &&& set.first_palette_index == before.first_palette_index
    &&& set.palettes == before.palettes
    &&& set.subimages@.len() == before.subimages@.len()
    &&& forall|i: int|
        0 <= i < set.subimages@.len() ==> (#[trigger] set.subimages@[i]).pixel_data
            == before.subimages@[i].pixel_data
    &&& forall|i: int|
        0 <= i < set.subimages@.len() && i < count ==> (#[trigger] set.subimages@[i]).offset_x
            == offset_given(offsets_x, i, before.subimages@[i].offset_x) && set.subimages@[i].offset_y
            == offset_given(offsets_y, i, before.subimages@[i].offset_y)
    &&& forall|i: int|
        0 <= i < set.subimages@.len() && i >= count ==> (#[trigger] set.subimages@[i]).offset_x
            == before.subimages@[i].offset_x && set.subimages@[i].offset_y
            == before.subimages@[i].offset_y
}

/// Gives the subimages of image `index` the offsets given, each subimage
/// those of its number, as far as there are any.
pub fn update_image_set(
    image_sets: &mut Vec<ImageSet>,
    index: usize,
    offsets_x: &[i32],
    offsets_y: &[i32],
) -> (updated: Option<ImageSummary>)
    ensures
        final(image_sets)@.len() == old(image_sets)@.len(),
        forall|k: int|
            0 <= k < old(image_sets)@.len() && k != index ==> final(image_sets)@[k] == old(image_sets)@[k],
        match updated {
            Some(summary) => {
                &&& index < old(image_sets)@.len()
                &&& offsets_set(
                    final(image_sets)@[index as int],
                    old(image_sets)@[index as int],
                    offsets_x@,
                    offsets_y@,
                    old(image_sets)@[index as int].subimages@.len() as int,
                )
                &&& summary.width == final(image_sets)@[index as int].width
                &&& summary.height == final(image_sets)@[index as int].height
                &&& summary.palette_count == final(image_sets)@[index as int].palettes@.len()
                &&& summary.subimages@.len() == final(image_sets)@[index as int].subimages@.len()
                &&& forall|i: int|
                    0 <= i < summary.subimages@.len() ==> (#[trigger] summary.subimages@[i]).offset_x
                        == final(image_sets)@[index as int].subimages@[i].offset_x
                        && summary.subimages@[i].offset_y == final(image_sets)@[index as int].subimages@[i].offset_y
            },
            None => index >= old(image_sets)@.len() && final(image_sets)@ == old(image_sets)@,
        },
{
    if index >= image_sets.len() {
        return None;
    }
    let n = image_sets[index].subimages.len();
    let mut i: usize = 0;
    while i < n
        invariant
            i <= n,
            index < image_sets@.len(),
            image_sets@.len() == old(image_sets)@.len(),
            n == old(image_sets)@[index as int].subimages@.len(),
            forall|k: int|
                0 <= k < old(image_sets)@.len() && k != index ==> image_sets@[k] == old(image_sets)@[k],
            offsets_set(
                image_sets@[index as int],
                old(image_sets)@[index as int],
                offsets_x@,
                offsets_y@,
                i as int,
            ),
        decreases n - i,
    {
        if i < offsets_x.len() {
            image_sets[index].subimages[i].offset_x = offsets_x[i];
        }
        if i < offsets_y.len() {
            image_sets[index].subimages[i].offset_y = offsets_y[i];
        }
        i += 1;
    }
    Some(image_sets[index].to_summary())
}

/// Whether `text` has the codes of `before`, and reads as they do.
pub open spec fn text_read(text: Text, before: Text, codes: Seq<CharEncoding>) -> bool {
    text.data@ == before.data@ && text.string@ == encoded(codes, before.data@)
}

/// Reads each text anew from its codes.
pub fn re_decode_texts(char_codes: &[CharEncoding], texts: &mut Vec<Text>)
    ensures
        final(texts)@.len() == old(texts)@.len(),
        forall|k: int|
            0 <= k < old(texts)@.len() ==> text_read(
                #[trigger] final(texts)@[k],
                old(texts)@[k],
                char_codes@,
            ),
{
    let n = texts.len();
    let mut i: usize = 0;
    while i < n
        invariant
            i <= n,
            n == texts@.len(),
            n == old(texts)@.len(),
            forall|k: int|
                0 <= k < i ==> text_read(#[trigger] texts@[k], old(texts)@[k], char_codes@),
            forall|k: int| i <= k < n ==> texts@[k] == old(texts)@[k],
        decreases n - i,
    {
        texts[i].update_string(char_codes);
        i += 1;
    }
}

/// Whether `string` is `before` with its value read anew.
pub open spec fn tamastring_read(
    string: TamaString,
    before: TamaString,
    codes: Seq<CharEncoding>,
) -> bool {
    &&& string.id == before.id
    &&& string.unknown1 == before.unknown1
    &&& string.unknown2 == before.unknown2
    &&& string.unknown3 == before.unknown3
    &&& text_read(string.value, before.value, codes)
}

/// Whether `item` is `before` with its name read anew.
pub open spec fn item_read(item: Item, before: Item, codes: Seq<CharEncoding>) -> bool {
    &&& item.id == before.id
    &&& item.item_type == before.item_type
    &&& text_read(item.name, before.name, codes)
    &&& item.image_id == before.image_id
    &&& item.worn_image_id == before.worn_image_id
    &&& item.close_image_id == before.close_image_id
    &&& item.animation_id == before.animation_id
    &&& item.price == before.price
    &&& item.unknown1 == before.unknown1
    &&& item.unknown2 == before.unknown2
    &&& item.unknown3 == before.unknown3
    &&& item.unlocked_character == before.unlocked_character
    &&& item.game_type == before.game_type
}

/// Whether `character` is `before` with its texts read anew.
pub open spec fn character_read(
    character: Character,
    before: Character,
    codes: Seq<CharEncoding>,
) -> bool {
    &&& character.id == before.id
    &&& character.character_type == before.character_type
    &&& text_read(character.name, before.name, codes)
    &&& character.profile_image_id == before.profile_image_id
    &&& character.icon_image_id == before.icon_image_id
    &&& character.composition_id == before.composition_id
    &&& character.unknown1 == before.unknown1
    &&& text_read(character.pronoun, before.pronoun, codes)
    &&& text_read(character.statement, before.statement, codes)
    &&& text_read(character.question1, before.question1, codes)
    &&& text_read(character.question2, before.question2, codes)
    &&& character.unknown2 == before.unknown2
    &&& character.unknown3 == before.unknown3
    &&& character.global_id == before.global_id
    &&& character.unknown4 == before.unknown4
    &&& character.unknown5 == before.unknown5
    &&& character.unknown6 == before.unknown6
    &&& character.unknown7 == before.unknown7
    &&& character.gender == before.gender
}

/// Reads the value of each string anew from its codes.
pub fn re_decode_tamastrings(char_codes: &[CharEncoding], strings: &mut Vec<TamaString>)
    ensures
        final(strings)@.len() == old(strings)@.len(),
        forall|k: int|
            0 <= k < old(strings)@.len() ==> tamastring_read(
                #[trigger] final(strings)@[k],
                old(strings)@[k],
                char_codes@,
            ),
{
    let n = strings.len();
    let mut i: usize = 0;
    while i < n
        invariant
            i <= n,
            n == strings@.len(),
            n == old(strings)@.len(),
            forall|k: int|
                0 <= k < i ==> tamastring_read(
                    #[trigger] strings@[k],
                    old(strings)@[k],
                    char_codes@,
                ),
            forall|k: int| i <= k < n ==> strings@[k] == old(strings)@[k],
        decreases n - i,
    {
        strings[i].value.update_string(char_codes);
        i += 1;
    }
}

/// Reads the name of each item anew from its codes.
pub fn re_decode_items(char_codes: &[CharEncoding], items: &mut Vec<Item>)
    ensures
        final(items)@.len() == old(items)@.len(),
        forall|k: int|
            0 <= k < old(items)@.len() ==> item_read(
                #[trigger] final(items)@[k],
                old(items)@[k],
                char_codes@,
            ),
{
    let n = items.len();
    let mut i: usize = 0;
    while i < n
        invariant
            i <= n,
            n == items@.len(),
            n == old(items)@.len(),
            forall|k: int|
                0 <= k < i ==> item_read(#[trigger] items@[k], old(items)@[k], char_codes@),
            forall|k: int| i <= k < n ==> items@[k] == old(items)@[k],
        decreases n - i,
    {
        items[i].name.update_string(char_codes);
        i += 1;
    }
}

/// Reads the texts of each character anew from their codes.
pub fn re_decode_characters(char_codes: &[CharEncoding], characters: &mut Vec<Character>)
    ensures
        final(characters)@.len() == old(characters)@.len(),
        forall|k: int|
            0 <= k < old(characters)@.len() ==> character_read(
                #[trigger] final(characters)@[k],
                old(characters)@[k],
                char_codes@,
            ),
{
    let n = characters.len();
    let mut i: usize = 0;
    while i < n
        invariant
            i <= n,
            n == characters@.len(),
            n == old(characters)@.len(),
            forall|k: int|
                0 <= k < i ==> character_read(
                    #[trigger] characters@[k],
                    old(characters)@[k],
                    char_codes@,
                ),
            forall|k: int| i <= k < n ==> characters@[k] == old(characters)@[k],
        decreases n - i,
    {
        characters[i].name.update_string(char_codes);
        characters[i].pronoun.update_string(char_codes);
        characters[i].statement.update_string(char_codes);
        characters[i].question1.update_string(char_codes);
        characters[i].question2.update_string(char_codes);
        i += 1;
    }
}

/// Reads every text of the data pack anew from its codes, with the table
/// given: the values of the strings, the names of the items, and the texts
/// of the characters. Nothing else changes.
pub fn re_decode_strings(char_codes: &[CharEncoding], data_pack: &mut DataPack)
    ensures
        final(data_pack).card_id == old(data_pack).card_id,
        final(data_pack).table1 == old(data_pack).table1,
        final(data_pack).particle_emitters == old(data_pack).particle_emitters,
        final(data_pack).scenes == old(data_pack).scenes,
        final(data_pack).table9 == old(data_pack).table9,
        final(data_pack).graphics_nodes == old(data_pack).graphics_nodes,
        final(data_pack).frame_groups == old(data_pack).frame_groups,
        final(data_pack).tamastrings@.len() == old(data_pack).tamastrings@.len(),
        final(data_pack).items@.len() == old(data_pack).items@.len(),
        final(data_pack).characters@.len() == old(data_pack).characters@.len(),
        forall|k: int|
            0 <= k < old(data_pack).tamastrings@.len() ==> tamastring_read(
                #[trigger] final(data_pack).tamastrings@[k],
                old(data_pack).tamastrings@[k],
                char_codes@,
            ),
        forall|k: int|
            0 <= k < old(data_pack).items@.len() ==> item_read(
                #[trigger] final(data_pack).items@[k],
                old(data_pack).items@[k],
                char_codes@,
            ),
        forall|k: int|
            0 <= k < old(data_pack).characters@.len() ==> character_read(
                #[trigger] final(data_pack).characters@[k],
                old(data_pack).characters@[k],
                char_codes@,
            ),
{
    re_decode_tamastrings(char_codes, &mut data_pack.tamastrings);
    re_decode_items(char_codes, &mut data_pack.items);
    re_decode_characters(char_codes, &mut data_pack.characters);
}

} // verus!
