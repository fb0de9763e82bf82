//! Characters: rows of 48 words.

use vstd::prelude::*;
use crate::data_view::{DataView, bytes_of_words, resize_words, resized, words_of_bytes};
use crate::data_pack::{
    EntityId, entity_of_word, read_words, word_of_entity, lemma_word_entity_round_trip,
};
use crate::data_pack::item::push_words;
use crate::text::{
    CharEncoding, Text, encoded, is_text_of, text_of_row, zero_free, lemma_nonzero_of_resized,
};
use crate::error::Error;

verus! {

/// The number of words in the row of a character.
pub const CHARACTER_WORDS: usize = 48;

/// The number of bytes in the row of a character.
pub const CHARACTER_SIZE: usize = 96;

/// The stage of life of a character.
#[derive(Clone, Copy, Debug, PartialEq, Eq, Structural)]
pub enum CharacterType {
    Unknown,
    Egg,
    Baby,
    Child,
    Teen,
    Adult,
    Npc,
}

/// The gender of a character.
#[derive(Clone, Copy, Debug, PartialEq, Eq, Structural)]
pub enum Gender {
    Female,
    Male,
}

/// A character: its ids, its texts, and its pictures.
#[derive(Clone)]
pub struct Character {
    pub id: EntityId,
    pub character_type: CharacterType,
    pub name: Text,
    pub profile_image_id: EntityId,
    pub icon_image_id: EntityId,
    pub composition_id: EntityId,
    pub unknown1: EntityId,
    pub pronoun: Text,
    pub statement: Text,
    pub question1: Text,
    pub question2: Text,
    pub unknown2: u16,
    pub unknown3: u16,
    pub global_id: EntityId,
    pub unknown4: u16,
    pub unknown5: u16,
    pub unknown6: u16,
    pub unknown7: u16,
    pub gender: Gender,
}

/// The word of a character type.
pub open spec fn character_type_word(character_type: CharacterType) -> u16 {
    match character_type {
        CharacterType::Unknown => 0,
        CharacterType::Egg => 1,
        CharacterType::Baby => 2,
        CharacterType::Child => 3,
        CharacterType::Teen => 4,
        CharacterType::Adult => 5,
        CharacterType::Npc => 6,
    }
}

/// The character type of a word.
pub open spec fn word_character_type(word: u16) -> CharacterType {
    if word == 1 {
        CharacterType::Egg
    } else if word == 2 {
        CharacterType::Baby
    } else if word == 3 {
        CharacterType::Child
    } else if word == 4 {
        CharacterType::Teen
    } else if word == 5 {
        CharacterType::Adult
    } else if word == 6 {
        CharacterType::Npc
    } else {
        CharacterType::Unknown
    }
}

/// The word of a gender.
pub open spec fn gender_word(gender: Gender) -> u16 {
    match gender {
        Gender::Female => 0,
        Gender::Male => 1,
    }
}

/// The gender of a word.
pub open spec fn word_gender(word: u16) -> Gender {
    if word == 0 {
        Gender::Female
    } else {
        Gender::Male
    }
}

/// The 48 words of a character's row.
pub open spec fn character_words(c: Character) -> Seq<u16> {
    seq![word_of_entity(c.id), character_type_word(c.character_type)] + resized(c.name.data@, 10)
        + seq![
        word_of_entity(c.profile_image_id),
        word_of_entity(c.icon_image_id),
        word_of_entity(c.composition_id),
        word_of_entity(c.unknown1),
    ] + resized(c.pronoun.data@, 6) + resized(c.statement.data@, 6) + resized(
        c.question1.data@,
        6,
    ) + resized(c.question2.data@, 6) + seq![
        c.unknown2,
        c.unknown3,
        word_of_entity(c.global_id),
        c.unknown4,
        c.unknown5,
        c.unknown6,
        c.unknown7,
        gender_word(c.gender),
    ]
}

/// Whether `c` is what a row of 48 words reads as.
pub open spec fn character_is(c: Character, row: Seq<u16>, codes: Seq<CharEncoding>) -> bool {
    &&& c.id == entity_of_word(row[0])
    &&& c.character_type == word_character_type(row[1])
    &&& is_text_of(c.name, codes, row.subrange(2, 12))
    &&& c.profile_image_id == entity_of_word(row[12])
    &&& c.icon_image_id == entity_of_word(row[13])
    &&& c.composition_id == entity_of_word(row[14])
    &&& c.unknown1 == entity_of_word(row[15])
    &&& is_text_of(c.pronoun, codes, row.subrange(16, 22))
    &&& is_text_of(c.statement, codes, row.subrange(22, 28))
    &&& is_text_of(c.question1, codes, row.subrange(28, 34))
    &&& is_text_of(c.question2, codes, row.subrange(34, 40))
    &&& c.unknown2 == row[40]
    &&& c.unknown3 == row[41]
    &&& c.global_id == entity_of_word(row[42])
    &&& c.unknown4 == row[43]
    &&& c.unknown5 == row[44]
    &&& c.unknown6 == row[45]
    &&& c.unknown7 == row[46]
    &&& c.gender == word_gender(row[47])
}

/// Row `r` of a table of characters.
pub open spec fn character_row(s: Seq<u8>, r: int) -> Seq<u16> {
    words_of_bytes(s.subrange(CHARACTER_SIZE * r, CHARACTER_SIZE * r + CHARACTER_SIZE))
}

/// The bytes of the rows of `characters`, in order.
pub open spec fn characters_data(characters: Seq<Character>) -> Seq<u8>
    decreases characters.len(),
{
    if characters.len() == 0 {
        Seq::empty()
    } else {
        characters_data(characters.drop_last()) + bytes_of_words(
            character_words(characters.last()),
        )
    }
}

/// A text that a field of `len` words holds exactly: short enough, without a
/// zero word, and read as its string.
pub open spec fn text_wf(text: Text, codes: Seq<CharEncoding>, len: nat) -> bool {
    &&& text.data@.len() <= len
    &&& zero_free(text.data@)
    &&& text.string@ == encoded(codes, text.data@)
}

impl Character {
    /// A character that its row holds exactly.
    pub open spec fn wf(self, codes: Seq<CharEncoding>) -> bool {
        &&& self.id.wf()
        &&& self.profile_image_id.wf()
        &&& self.icon_image_id.wf()
        &&& self.composition_id.wf()
        &&& self.unknown1.wf()
        &&& self.global_id.wf()
        &&& text_wf(self.name, codes, 10)
        &&& text_wf(self.pronoun, codes, 6)
        &&& text_wf(self.statement, codes, 6)
        &&& text_wf(self.question1, codes, 6)
        &&& text_wf(self.question2, codes, 6)
    }
}

fn character_type_of(word: u16) -> (character_type: CharacterType)
    ensures
        character_type == word_character_type(word),
{
    match word {
        1 => CharacterType::Egg,
        2 => CharacterType::Baby,
        3 => CharacterType::Child,
        4 => CharacterType::Teen,
        5 => CharacterType::Adult,
        6 => CharacterType::Npc,
        _ => CharacterType::Unknown,
    }
}

fn type_word(character_type: CharacterType) -> (word: u16)
    ensures
        word == character_type_word(character_type),
{
    match character_type {
        CharacterType::Unknown => 0,
        CharacterType::Egg => 1,
        CharacterType::Baby => 2,
        CharacterType::Child => 3,
        CharacterType::Teen => 4,
        CharacterType::Adult => 5,
        CharacterType::Npc => 6,
    }
}

/// The characters of a table, 96 bytes each; bytes behind the last whole row
/// are left out.
pub fn get_characters(char_codes: &[CharEncoding], data: &DataView) -> (characters: Vec<Character>)
    ensures
        characters@.len() == data@.len() / CHARACTER_SIZE as nat,
        forall|r: int|
            0 <= r < characters@.len() ==> character_is(
                #[trigger] characters@[r],
                character_row(data@, r),
                char_codes@,
            ),
{
    let mut characters: Vec<Character> = Vec::new();
    let count = data.len() / CHARACTER_SIZE;
    let mut r: usize = 0;
    while r < count
        invariant
            r <= count,
            count == data.data.len() / CHARACTER_SIZE,
            characters@.len() == r,
            forall|k: int|
                0 <= k < r ==> character_is(
                    #[trigger] characters@[k],
                    character_row(data@, k),
                    char_codes@,
                ),
        decreases count - r,
    {
        let row = read_words(data, CHARACTER_SIZE * r, CHARACTER_SIZE);
        let character = Character {
            id: EntityId::new(row[0]),
            character_type: character_type_of(row[1]),
            name: text_of_row(char_codes, row.as_slice(), 2, 12),
            profile_image_id: EntityId::new(row[12]),
            icon_image_id: EntityId::new(row[13]),
            composition_id: EntityId::new(row[14]),
            unknown1: EntityId::new(row[15]),
            pronoun: text_of_row(char_codes, row.as_slice(), 16, 22),
            statement: text_of_row(char_codes, row.as_slice(), 22, 28),
            question1: text_of_row(char_codes, row.as_slice(), 28, 34),
            question2: text_of_row(char_codes, row.as_slice(), 34, 40),
            unknown2: row[40],
            unknown3: row[41],
            global_id: EntityId::new(row[42]),
            unknown4: row[43],
            unknown5: row[44],
            unknown6: row[45],
            unknown7: row[46],
            gender: if row[47] == 0 {
                Gender::Female
            } else {
                Gender::Male
            },
        };
        characters.push(character);
        r += 1;
    }
    characters
}

/// Appends `text` cut or filled with zero words to `len` words.
fn push_text(words: &mut Vec<u16>, text: &Text, len: usize)
    ensures
        final(words)@ == old(words)@ + resized(text.data@, len as nat),
{
    let field = resize_words(text.data.as_slice(), len);
    let mut k: usize = 0;
    while k < len
        invariant
            k <= len,
            field@ == resized(text.data@, len as nat),
            words@ == old(words)@ + field@.subrange(0, k as int),
        decreases len - k,
    {
        words.push(field[k]);
        k += 1;
        assert(words@ =~= old(words)@ + field@.subrange(0, k as int));
    }
    assert(field@.subrange(0, len as int) =~= field@);
}

fn save_character(c: &Character) -> (words: Vec<u16>)
    ensures
        words@ == character_words(*c),
{
    let mut words: Vec<u16> = Vec::new();
    words.push(c.id.to_word());
    words.push(type_word(c.character_type));
    push_text(&mut words, &c.name, 10);
    words.push(c.profile_image_id.to_word());
    words.push(c.icon_image_id.to_word());
    words.push(c.composition_id.to_word());
    words.push(c.unknown1.to_word());
    push_text(&mut words, &c.pronoun, 6);
    push_text(&mut words, &c.statement, 6);
    push_text(&mut words, &c.question1, 6);
    push_text(&mut words, &c.question2, 6);
    words.push(c.unknown2);
    words.push(c.unknown3);
    words.push(c.global_id.to_word());
    words.push(c.unknown4);
    words.push(c.unknown5);
    words.push(c.unknown6);
    words.push(c.unknown7);
    words.push(
        match c.gender {
            Gender::Female => 0,
            Gender::Male => 1,
        },
    );
    assert(words@ =~= character_words(*c));
    words
}

/// The table of the characters: the row of each, in order. This never fails.
pub fn save_characters(characters: &[Character]) -> (result: Result<Vec<u8>, Error>)
    ensures
        result matches Ok(data) && data@ == characters_data(characters@),
{
    let mut data: Vec<u8> = Vec::new();
    let n = characters.len();
    let mut i: usize = 0;
    assert(characters@.subrange(0, 0) =~= Seq::<Character>::empty());
    while i < n
        invariant
            i <= n,
            n == characters@.len(),
            data@ == characters_data(characters@.subrange(0, i as int)),
        decreases n - i,
    {
        let words = save_character(&characters[i]);
        push_words(&mut data, words.as_slice());
        proof {
            let next = characters@.subrange(0, i + 1);
            assert(next.drop_last() =~= characters@.subrange(0, i as int));
            assert(next.last() == characters@[i as int]);
        }
        i += 1;
    }
    assert(characters@.subrange(0, n as int) =~= characters@);
    Ok(data)
}

/// A well-formed character is what the row written for it reads as.
pub proof fn lemma_character_round_trip(c: Character, codes: Seq<CharEncoding>)
    requires
        c.wf(codes),
    ensures
        character_words(c).len() == CHARACTER_WORDS,
        character_is(c, character_words(c), codes),
{
    let row = character_words(c);
    lemma_word_entity_round_trip(c.id);
    lemma_word_entity_round_trip(c.profile_image_id);
    lemma_word_entity_round_trip(c.icon_image_id);
    lemma_word_entity_round_trip(c.composition_id);
    lemma_word_entity_round_trip(c.unknown1);
    lemma_word_entity_round_trip(c.global_id);
    assert(row.subrange(2, 12) =~= resized(c.name.data@, 10));
    assert(row.subrange(16, 22) =~= resized(c.pronoun.data@, 6));
    assert(row.subrange(22, 28) =~= resized(c.statement.data@, 6));
    assert(row.subrange(28, 34) =~= resized(c.question1.data@, 6));
    assert(row.subrange(34, 40) =~= resized(c.question2.data@, 6));
    lemma_nonzero_of_resized(c.name.data@, 10);
    lemma_nonzero_of_resized(c.pronoun.data@, 6);
    lemma_nonzero_of_resized(c.statement.data@, 6);
    lemma_nonzero_of_resized(c.question1.data@, 6);
    lemma_nonzero_of_resized(c.question2.data@, 6);
}

} // verus!
