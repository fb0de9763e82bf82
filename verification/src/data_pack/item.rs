//! Items: rows of 21 words.

use vstd::prelude::*;
use crate::data_view::{DataView, bytes_of_words, resize_words, resized, words_of_bytes, push_u16};
use crate::data_pack::{
    EntityId, entity_of_word, moved_entity, moved_option, read_words, word_of_entity,
    lemma_word_entity_round_trip,
};
use crate::text::{
    CharEncoding, Text, encoded, is_text_of, text_of_row, zero_free, lemma_nonzero_of_resized,
};
use crate::error::Error;

verus! {

/// The number of words in the row of an item.
pub const ITEM_WORDS: usize = 21;

/// The number of bytes in the row of an item.
pub const ITEM_SIZE: usize = 42;

/// The number of words that hold a name.
pub const NAME_WORDS: usize = 10;

/// The kind of an item.
#[derive(Clone, Copy, Debug, PartialEq, Eq, Structural)]
pub enum ItemType {
    Unknown,
    Meal,
    Snack,
    Toy,
    AccessoryHead,
    AccessoryFace,
    AccessoryBody,
    AccessoryHand,
    Room,
    Game,
}

/// The kind of a game.
#[derive(Clone, Copy, Debug, PartialEq, Eq, Structural)]
pub enum GameType {
    Unknown,
    GuessingGame,
    TimingGame,
    MemoryGame,
    DodgingGame,
    ShakingGame,
    SwipingGame,
}

/// An item: its kind, its name, its pictures and its price.
#[derive(Clone)]
pub struct Item {
    pub id: EntityId,
    pub item_type: ItemType,
    pub name: Text,
    pub image_id: Option<EntityId>,
    pub worn_image_id: Option<EntityId>,
    pub close_image_id: Option<EntityId>,
    pub animation_id: Option<EntityId>,
    pub price: u16,
    pub unknown1: u16,
    pub unknown2: u16,
    pub unknown3: u16,
    pub unlocked_character: Option<u16>,
    pub game_type: Option<GameType>,
}

/// The word of an item type.
pub open spec fn item_type_word(item_type: ItemType) -> u16 {
    match item_type {
        ItemType::Meal => 0,
        ItemType::Snack => 1,
        ItemType::Toy => 2,
        ItemType::AccessoryHead => 3,
        ItemType::AccessoryFace => 4,
        ItemType::AccessoryBody => 5,
        ItemType::AccessoryHand => 6,
        ItemType::Room => 7,
        ItemType::Game => 8,
        ItemType::Unknown => 9,
    }
}

/// The item type of a word.
pub open spec fn word_item_type(word: u16) -> ItemType {
    if word == 0 {
        ItemType::Meal
    } else if word == 1 {
        ItemType::Snack
    } else if word == 2 {
        ItemType::Toy
    } else if word == 3 {
        ItemType::AccessoryHead
    } else if word == 4 {
        ItemType::AccessoryFace
    } else if word == 5 {
        ItemType::AccessoryBody
    } else if word == 6 {
        ItemType::AccessoryHand
    } else if word == 7 {
        ItemType::Room
    } else if word == 8 {
        ItemType::Game
    } else {
        ItemType::Unknown
    }
}

/// The word of a game type.
pub open spec fn game_type_word(game_type: GameType) -> u16 {
    match game_type {
        GameType::GuessingGame => 10,
        GameType::TimingGame => 11,
        GameType::MemoryGame => 12,
        GameType::DodgingGame => 13,
        GameType::ShakingGame => 14,
        GameType::SwipingGame => 15,
        GameType::Unknown => 0,
    }
}

/// The game type of a word.
pub open spec fn word_game_type(word: u16) -> GameType {
    if word == 10 {
        GameType::GuessingGame
    } else if word == 11 {
        GameType::TimingGame
    } else if word == 12 {
        GameType::MemoryGame
    } else if word == 13 {
        GameType::DodgingGame
    } else if word == 14 {
        GameType::ShakingGame
    } else if word == 15 {
        GameType::SwipingGame
    } else {
        GameType::Unknown
    }
}

/// The word of a reference that may be missing: zero where it is.
pub open spec fn optional_word(id: Option<EntityId>) -> u16 {
    match id {
        Some(id) => word_of_entity(id),
        None => 0,
    }
}

/// The reference that a word holds, none for zero.
pub open spec fn word_optional(word: u16) -> Option<EntityId> {
    if word > 0 {
        Some(entity_of_word(word))
    } else {
        None
    }
}

/// The last word of an item's row: for a game its kind, else the character
/// that it unlocks, or zero.
pub open spec fn item_last_word(item: Item) -> u16 {
    if item.item_type == ItemType::Game {
        match item.game_type {
            Some(game_type) => game_type_word(game_type),
            None => 0,
        }
    } else {
        match item.unlocked_character {
            Some(character) => character,
            None => 0,
        }
    }
}

/// The 21 words of an item's row.
pub open spec fn item_words(item: Item) -> Seq<u16> {
    seq![word_of_entity(item.id), item_type_word(item.item_type)] + resized(
        item.name.data@,
        NAME_WORDS as nat,
    ) + seq![
        optional_word(item.image_id),
        optional_word(item.worn_image_id),
        optional_word(item.close_image_id),
        optional_word(item.animation_id),
        item.price,
        item.unknown1,
        item.unknown2,
        item.unknown3,
        item_last_word(item),
    ]
}

/// Whether `item` is what a row of 21 words reads as.
pub open spec fn item_is(item: Item, row: Seq<u16>, codes: Seq<CharEncoding>) -> bool {
    &&& item.id == entity_of_word(row[0])
    &&& item.item_type == word_item_type(row[1])
    &&& is_text_of(item.name, codes, row.subrange(2, 12))
    &&& item.image_id == word_optional(row[12])
    &&& item.worn_image_id == word_optional(row[13])
    &&& item.close_image_id == word_optional(row[14])
    &&& item.animation_id == word_optional(row[15])
    &&& item.price == row[16]
    &&& item.unknown1 == row[17]
    &&& item.unknown2 == row[18]
    &&& item.unknown3 == row[19]
    &&& item.unlocked_character == if word_item_type(row[1]) == ItemType::Game || row[20] == 0 {
        None
    } else {
        Some(row[20])
    }
    &&& item.game_type == if word_item_type(row[1]) == ItemType::Game {
        Some(word_game_type(row[20]))
    } else {
        None
    }
}

/// Row `r` of a table of items.
pub open spec fn item_row(s: Seq<u8>, r: int) -> Seq<u16> {
    words_of_bytes(s.subrange(ITEM_SIZE * r, ITEM_SIZE * r + ITEM_SIZE))
}

/// The bytes of the rows of `items`, in order.
pub open spec fn items_data(items: Seq<Item>) -> Seq<u8>
    decreases items.len(),
{
    if items.len() == 0 {
        Seq::empty()
    } else {
        items_data(items.drop_last()) + bytes_of_words(item_words(items.last()))
    }
}

/// A reference that may be missing and that its word gives back: well formed
/// and not the one that the zero word stands for.
pub open spec fn optional_wf(id: Option<EntityId>) -> bool {
    match id {
        Some(id) => id.wf() && word_of_entity(id) != 0,
        None => true,
    }
}

impl ItemType {
    /// Whether an item of the type is worn.
    pub open spec fn spec_is_accessory(&self) -> bool {
        *self == ItemType::AccessoryHead || *self == ItemType::AccessoryFace || *self
            == ItemType::AccessoryBody || *self == ItemType::AccessoryHand
    }

    /// Whether an item of the type is worn.
    #[verifier::when_used_as_spec(spec_is_accessory)]
    pub fn is_accessory(&self) -> (accessory: bool)
        ensures
            accessory == self.spec_is_accessory(),
    {
        match self {
            ItemType::AccessoryHead
            | ItemType::AccessoryFace
            | ItemType::AccessoryBody
            | ItemType::AccessoryHand => true,
            _ => false,
        }
    }
}

impl Item {
    /// An item that its row holds exactly: references that a word can hold, a
    /// name of at most ten words without a zero, which reads as its string,
    /// and of the kind of game and the character unlocked the one that the
    /// item's type has.
    pub open spec fn wf(self, codes: Seq<CharEncoding>) -> bool {
        &&& self.id.wf()
        &&& optional_wf(self.image_id)
        &&& optional_wf(self.worn_image_id)
        &&& optional_wf(self.close_image_id)
        &&& optional_wf(self.animation_id)
        &&& self.name.data@.len() <= NAME_WORDS
        &&& zero_free(self.name.data@)
        &&& self.name.string@ == encoded(codes, self.name.data@)
        &&& if self.item_type == ItemType::Game {
            self.unlocked_character is None && self.game_type is Some
        } else {
            self.game_type is None && self.unlocked_character != Some(0u16)
        }
    }

    /// Moves every reference into card `old_card_id` over to card
    /// `new_card_id`.
    pub fn set_card_id(&mut self, old_card_id: u8, new_card_id: u8)
        ensures
            final(self).id == moved_entity(old(self).id, old_card_id, new_card_id),
            final(self).image_id == moved_option(old(self).image_id, old_card_id, new_card_id),
            final(self).worn_image_id == moved_option(
                old(self).worn_image_id,
                old_card_id,
                new_card_id,
            ),
            final(self).close_image_id == moved_option(
                old(self).close_image_id,
                old_card_id,
                new_card_id,
            ),
            final(self).animation_id == moved_option(
                old(self).animation_id,
                old_card_id,
                new_card_id,
            ),
            final(self).item_type == old(self).item_type,
            final(self).name == old(self).name,
            final(self).price == old(self).price,
            final(self).unknown1 == old(self).unknown1,
            final(self).unknown2 == old(self).unknown2,
            final(self).unknown3 == old(self).unknown3,
            final(self).unlocked_character == old(self).unlocked_character,
            final(self).game_type == old(self).game_type,
    {
        self.id.set_card_id(old_card_id, new_card_id);
        self.image_id = move_optional(self.image_id, old_card_id, new_card_id);
        self.worn_image_id = move_optional(self.worn_image_id, old_card_id, new_card_id);
        self.close_image_id = move_optional(self.close_image_id, old_card_id, new_card_id);
        self.animation_id = move_optional(self.animation_id, old_card_id, new_card_id);
    }
}

fn move_optional(id: Option<EntityId>, old_card_id: u8, new_card_id: u8) -> (moved: Option<
    EntityId,
>)
    ensures
        moved == moved_option(id, old_card_id, new_card_id),
{
    match id {
        Some(mut id) => {
            id.set_card_id(old_card_id, new_card_id);
            Some(id)
        },
        None => None,
    }
}

fn optional_id(word: u16) -> (id: Option<EntityId>)
    ensures
        id == word_optional(word),
{
    if word > 0 {
        Some(EntityId::new(word))
    } else {
        None
    }
}

fn id_word(id: &Option<EntityId>) -> (word: u16)
    ensures
        word == optional_word(*id),
{
    match id {
        Some(id) => id.to_word(),
        None => 0,
    }
}

fn item_type_of(word: u16) -> (item_type: ItemType)
    ensures
        item_type == word_item_type(word),
{
    match word {
        0 => ItemType::Meal,
        1 => ItemType::Snack,
        2 => ItemType::Toy,
        3 => ItemType::AccessoryHead,
        4 => ItemType::AccessoryFace,
        5 => ItemType::AccessoryBody,
        6 => ItemType::AccessoryHand,
        7 => ItemType::Room,
        8 => ItemType::Game,
        _ => ItemType::Unknown,
    }
}

fn game_type_of(word: u16) -> (game_type: GameType)
    ensures
        game_type == word_game_type(word),
{
    match word {
        10 => GameType::GuessingGame,
        11 => GameType::TimingGame,
        12 => GameType::MemoryGame,
        13 => GameType::DodgingGame,
        14 => GameType::ShakingGame,
        15 => GameType::SwipingGame,
        _ => GameType::Unknown,
    }
}

/// The items of a table, 42 bytes each; bytes behind the last whole row are
/// left out.
pub fn get_items(char_codes: &[CharEncoding], data: &DataView) -> (items: Vec<Item>)
    ensures
        items@.len() == data@.len() / ITEM_SIZE as nat,
        forall|r: int|
            0 <= r < items@.len() ==> item_is(#[trigger] items@[r], item_row(data@, r), char_codes@),
{
    let mut items: Vec<Item> = Vec::new();
    let count = data.len() / ITEM_SIZE;
    let mut r: usize = 0;
    while r < count
        invariant
            r <= count,
            count == data.data.len() / ITEM_SIZE,
            items@.len() == r,
            forall|k: int|
                0 <= k < r ==> item_is(#[trigger] items@[k], item_row(data@, k), char_codes@),
        decreases count - r,
    {
        let row = read_words(data, ITEM_SIZE * r, ITEM_SIZE);
        let item_type = item_type_of(row[1]);
        let is_game = match item_type {
            ItemType::Game => true,
            _ => false,
        };
        let item = Item {
            id: EntityId::new(row[0]),
            item_type,
            name: text_of_row(char_codes, row.as_slice(), 2, 12),
            image_id: optional_id(row[12]),
            worn_image_id: optional_id(row[13]),
            close_image_id: optional_id(row[14]),
            animation_id: optional_id(row[15]),
            price: row[16],
            unknown1: row[17],
            unknown2: row[18],
            unknown3: row[19],
            unlocked_character: if is_game || row[20] == 0 {
                None
            } else {
                Some(row[20])
            },
            game_type: if is_game {
                Some(game_type_of(row[20]))
            } else {
                None
            },
        };
        items.push(item);
        r += 1;
    }
    items
}

fn game_word(game_type: GameType) -> (word: u16)
    ensures
        word == game_type_word(game_type),
{
    match game_type {
        GameType::GuessingGame => 10,
        GameType::TimingGame => 11,
        GameType::MemoryGame => 12,
        GameType::DodgingGame => 13,
        GameType::ShakingGame => 14,
        GameType::SwipingGame => 15,
        GameType::Unknown => 0,
    }
}

fn type_word(item_type: ItemType) -> (word: u16)
    ensures
        word == item_type_word(item_type),
{
    match item_type {
        ItemType::Meal => 0,
        ItemType::Snack => 1,
        ItemType::Toy => 2,
        ItemType::AccessoryHead => 3,
        ItemType::AccessoryFace => 4,
        ItemType::AccessoryBody => 5,
        ItemType::AccessoryHand => 6,
        ItemType::Room => 7,
        ItemType::Game => 8,
        ItemType::Unknown => 9,
    }
}

/// Appends the bytes of `words`.
pub fn push_words(data: &mut Vec<u8>, words: &[u16])
    ensures
        final(data)@ == old(data)@ + bytes_of_words(words@),
{
    let n = words.len();
    let mut i: usize = 0;
    assert(data@ =~= old(data)@ + bytes_of_words(words@.subrange(0, 0)));
    while i < n
        invariant
            i <= n,
            n == words@.len(),
            data@ == old(data)@ + bytes_of_words(words@.subrange(0, i as int)),
        decreases n - i,
    {
        let ghost before = data@;
        push_u16(data, words[i]);
        assert(data@ =~= old(data)@ + bytes_of_words(words@.subrange(0, i + 1))) by {
            let a = bytes_of_words(words@.subrange(0, i as int));
            let c = bytes_of_words(words@.subrange(0, i + 1));
            let base = old(data)@.len();
            assert forall|k: int| 0 <= k < 2 * (i + 1) implies data@[base + k] == c[k] by {
                if k < 2 * i {
                    assert(data@[base + k] == before[base + k]);
                    assert(before[base + k] == a[k]);
                    assert(words@.subrange(0, i as int)[k / 2] == words@.subrange(0, i + 1)[k / 2]);
                }
            }
        }
        i += 1;
    }
    assert(words@.subrange(0, n as int) =~= words@);
}

fn save_item(item: &Item) -> (words: Vec<u16>)
    ensures
        words@ == item_words(*item),
{
    let mut words: Vec<u16> = Vec::new();
    words.push(item.id.to_word());
    words.push(type_word(item.item_type));
    let name = resize_words(item.name.data.as_slice(), NAME_WORDS);
    let mut k: usize = 0;
    while k < NAME_WORDS
        invariant
            k <= NAME_WORDS,
            name@ == resized(item.name.data@, NAME_WORDS as nat),
            words@ == seq![word_of_entity(item.id), item_type_word(item.item_type)]
                + name@.subrange(0, k as int),
        decreases NAME_WORDS - k,
    {
        words.push(name[k]);
        k += 1;
        assert(words@ =~= seq![word_of_entity(item.id), item_type_word(item.item_type)]
            + name@.subrange(0, k as int));
    }
    assert(name@.subrange(0, NAME_WORDS as int) =~= name@);
    words.push(id_word(&item.image_id));
    words.push(id_word(&item.worn_image_id));
    words.push(id_word(&item.close_image_id));
    words.push(id_word(&item.animation_id));
    words.push(item.price);
    words.push(item.unknown1);
    words.push(item.unknown2);
    words.push(item.unknown3);
    let last = match item.item_type {
        ItemType::Game => match item.game_type {
            Some(game_type) => game_word(game_type),
            None => 0,
        },
        _ => match item.unlocked_character {
            Some(character) => character,
            None => 0,
        },
    };
    words.push(last);
    assert(words@ =~= item_words(*item));
    words
}

/// The table of the items: the row of each, in order. This never fails.
pub fn save_items(items: &[Item]) -> (result: Result<Vec<u8>, Error>)
    ensures
        result matches Ok(data) && data@ == items_data(items@),
{
    let mut data: Vec<u8> = Vec::new();
    let n = items.len();
    let mut i: usize = 0;
    assert(items@.subrange(0, 0) =~= Seq::<Item>::empty());
    while i < n
        invariant
            i <= n,
            n == items@.len(),
            data@ == items_data(items@.subrange(0, i as int)),
        decreases n - i,
    {
        let words = save_item(&items[i]);
        push_words(&mut data, words.as_slice());
        proof {
            let next = items@.subrange(0, i + 1);
            assert(next.drop_last() =~= items@.subrange(0, i as int));
            assert(next.last() == items@[i as int]);
        }
        i += 1;
    }
    assert(items@.subrange(0, n as int) =~= items@);
    Ok(data)
}

/// A well-formed item is what the row written for it reads as.
pub proof fn lemma_item_round_trip(item: Item, codes: Seq<CharEncoding>)
    requires
        item.wf(codes),
    ensures
        item_words(item).len() == ITEM_WORDS,
        item_is(item, item_words(item), codes),
{
    let row = item_words(item);
    lemma_word_entity_round_trip(item.id);
    assert(row.subrange(2, 12) =~= resized(item.name.data@, NAME_WORDS as nat));
    lemma_nonzero_of_resized(item.name.data@, NAME_WORDS as nat);
    lemma_optional_round_trip(item.image_id);
    lemma_optional_round_trip(item.worn_image_id);
    lemma_optional_round_trip(item.close_image_id);
    lemma_optional_round_trip(item.animation_id);
}

/// A reference that may be missing is read back from its word.
pub proof fn lemma_optional_round_trip(id: Option<EntityId>)
    requires
        optional_wf(id),
    ensures
        word_optional(optional_word(id)) == id,
{
    match id {
        Some(id) => lemma_word_entity_round_trip(id),
        None => {},
    }
}

} // verus!
