//! Strings of dialogue: four words of header, the text, and a zero word.

use vstd::prelude::*;
use crate::data_view::{DataView, bytes_of_words, le_u16};
use crate::data_pack::{
    EntityId, entity_of_word, moved_entity, start_words, starts_fit, word_of_entity,
};
use crate::data_pack::item::push_words;
use crate::data_pack::blocks::{joined, part_start};
use crate::text::{CharEncoding, Text, encoded};
use crate::error::Error;

verus! {

/// A string of the dialog: its id, three words, and its text.
#[derive(Clone)]
pub struct TamaString {
    pub id: EntityId,
    pub unknown1: u16,
    pub unknown2: u16,
    pub unknown3: u16,
    pub value: Text,
}

/// The word that ends the table of the starts.
pub const OFFSETS_END: u16 = 0xffff;

/// The words of a string: its header, its text, and a zero word.
pub open spec fn tamastring_words(string: TamaString) -> Seq<u16> {
    seq![word_of_entity(string.id), string.unknown1, string.unknown2, string.unknown3]
        + string.value.data@ + seq![0u16]
}

/// The bytes of each string.
pub open spec fn string_parts(strings: Seq<TamaString>) -> Seq<Seq<u8>> {
    Seq::new(strings.len(), |k: int| bytes_of_words(tamastring_words(strings[k])))
}

/// The number of words from byte `from` on up to the first zero word or the
/// end of the data.
pub open spec fn text_len(s: Seq<u8>, from: int) -> nat
    decreases s.len() - from,
{
    if from < 0 || from + 2 > s.len() || le_u16(s, from) == 0 {
        0
    } else {
        1 + text_len(s, from + 2)
    }
}

/// The words of the text that starts at byte `from`.
pub open spec fn text_at(s: Seq<u8>, from: int) -> Seq<u16> {
    Seq::new(text_len(s, from), |j: int| le_u16(s, from + 2 * j))
}

/// The offset of string `k`, where the strings stand one behind the other.
pub open spec fn string_offset(s: Seq<u8>, k: int) -> int
    decreases k,
{
    if k <= 0 {
        0
    } else {
        let before = string_offset(s, k - 1);
        before + 10 + 2 * text_len(s, before + 8)
    }
}

/// Whether `string` is what stands at `offset`.
pub open spec fn tamastring_is(
    string: TamaString,
    s: Seq<u8>,
    offset: int,
    codes: Seq<CharEncoding>,
) -> bool {
    &&& string.id == entity_of_word(le_u16(s, offset))
    &&& string.unknown1 == le_u16(s, offset + 2)
    &&& string.unknown2 == le_u16(s, offset + 4)
    &&& string.unknown3 == le_u16(s, offset + 6)
    &&& string.value.data@ == text_at(s, offset + 8)
    &&& string.value.string@ == encoded(codes, string.value.data@)
}

impl TamaString {
    /// The words of the string as they are written, with the zero word behind
    /// the text.
    pub fn to_words(&self) -> (words: Vec<u16>)
        ensures
            words@ == tamastring_words(*self),
    {
        let mut data: Vec<u16> = Vec::new();
        data.push(self.id.to_word());
        data.push(self.unknown1);
        data.push(self.unknown2);
        data.push(self.unknown3);
        let n = self.value.data.len();
        let ghost head = data@;
        let mut i: usize = 0;
        while i < n
            invariant
                i <= n,
                n == self.value.data@.len(),
                data@ == head + self.value.data@.subrange(0, i as int),
            decreases n - i,
        {
            data.push(self.value.data[i]);
            i += 1;
            assert(data@ =~= head + self.value.data@.subrange(0, i as int));
        }
        data.push(0);
        assert(data@ =~= tamastring_words(*self));
        data
    }

    /// Moves the string's own reference from card `old_card_id` over to card
    /// `new_card_id`.
    pub fn set_card_id(&mut self, old_card_id: u8, new_card_id: u8)
        ensures
            final(self).id == moved_entity(old(self).id, old_card_id, new_card_id),
            final(self).unknown1 == old(self).unknown1,
            final(self).unknown2 == old(self).unknown2,
            final(self).unknown3 == old(self).unknown3,
            final(self).value == old(self).value,
    {
        self.id.set_card_id(old_card_id, new_card_id);
    }
}

/// The strings that stand one behind the other in the data. What is left
/// behind the last is shorter than the shortest string, of ten bytes.
pub fn get_tamastrings(char_codes: &[CharEncoding], data: &DataView) -> (strings: Vec<TamaString>)
    ensures
        forall|k: int|
            0 <= k < strings@.len() ==> #[trigger] string_offset(data@, k) + 10
                <= data@.len(),
        forall|k: int|
            0 <= k < strings@.len() ==> tamastring_is(
                #[trigger] strings@[k],
                data@,
                string_offset(data@, k),
                char_codes@,
            ),
        string_offset(data@, strings@.len() as int) + 10 > data@.len(),
{
    let mut strings: Vec<TamaString> = Vec::new();
    let len = data.len();
    let mut i: usize = 0;
    while len >= 10 && i <= len - 10
        invariant
            len == data.data.len(),
            i <= len,
            i == string_offset(data@, strings@.len() as int) || (i == len && string_offset(
                data@,
                strings@.len() as int,
            ) > len),
            forall|k: int|
                0 <= k < strings@.len() ==> #[trigger] string_offset(data@, k) + 10
                    <= data@.len(),
            forall|k: int|
                0 <= k < strings@.len() ==> tamastring_is(
                    #[trigger] strings@[k],
                    data@,
                    string_offset(data@, k),
                    char_codes@,
                ),
        decreases len - i,
    {
        let id = EntityId::new(data.get_u16(i));
        let unknown1 = data.get_u16(i + 2);
        let unknown2 = data.get_u16(i + 4);
        let unknown3 = data.get_u16(i + 6);
        let mut text_data: Vec<u16> = Vec::new();
        let start = i + 8;
        let mut at: usize = start;
        while at <= len - 2 && data.get_u16(at) != 0
            invariant
                len == data.data.len(),
                start + 2 <= len,
                start <= at <= len,
                at == start + 2 * text_data@.len(),
                text_len(data@, start as int) == text_data@.len() + text_len(data@, at as int),
                forall|j: int|
                    0 <= j < text_data@.len() ==> #[trigger] text_data@[j] == le_u16(
                        data@,
                        start + 2 * j,
                    ),
            decreases len - at,
        {
            text_data.push(data.get_u16(at));
            at += 2;
        }
        assert(text_data@ =~= text_at(data@, start as int));
        let ghost offset = i as int;
        i = if len - at < 2 {
            len
        } else {
            at + 2
        };
        strings.push(
            TamaString {
                id,
                unknown1,
                unknown2,
                unknown3,
                value: Text::from_data(char_codes, text_data.as_slice()),
            },
        );
        assert(string_offset(data@, strings@.len() as int) == offset + 10 + 2 * text_len(
            data@,
            offset + 8,
        ));
    }
    strings
}

/// The table of the starts of the strings, in words, with the end mark behind
/// them, and the strings one behind the other.
pub fn save_tamastrings(tamastrings: &[TamaString]) -> (result: Result<(Vec<u8>, Vec<u8>), Error>)
    ensures
        match result {
            Ok((offsets, data)) => {
                let parts = string_parts(tamastrings@);
                &&& starts_fit(parts, 2, tamastrings@.len() as int)
                &&& offsets@ == bytes_of_words(
                    start_words(parts, 2, tamastrings@.len() as int).push(OFFSETS_END),
                )
                &&& data@ == joined(parts)
            },
            Err(Error::SizeExceeded { size, limit }) => {
                &&& !starts_fit(string_parts(tamastrings@), 2, tamastrings@.len() as int)
                &&& limit == 0xffff
                &&& size > limit
            },
            Err(_) => false,
        },
{
    let n = tamastrings.len();
    let mut starts: Vec<u16> = Vec::new();
    let mut data: Vec<u8> = Vec::new();
    let ghost parts = string_parts(tamastrings@);
    let mut i: usize = 0;
    assert(parts.subrange(0, 0) =~= Seq::<Seq<u8>>::empty());
    while i < n
        invariant
            i <= n,
            n == tamastrings@.len(),
            parts == string_parts(tamastrings@),
            data@ == joined(parts.subrange(0, i as int)),
            starts@.len() == i,
            forall|k: int|
                0 <= k < i ==> #[trigger] part_start(parts, k) / 2 <= 0xffff && starts@[k]
                    == part_start(parts, k) / 2,
        decreases n - i,
    {
        let start = data.len() / 2;
        if start > 0xffff {
            proof {
                assert(part_start(parts, i as int) / 2 > 0xffff);
            }
            return Err(Error::SizeExceeded { size: start, limit: 0xffff });
        }
        starts.push(start as u16);
        let words = tamastrings[i].to_words();
        push_words(&mut data, words.as_slice());
        proof {
            assert(parts.subrange(0, i + 1).drop_last() =~= parts.subrange(0, i as int));
            assert(parts.subrange(0, i + 1).last() == bytes_of_words(
                tamastring_words(tamastrings@[i as int]),
            ));
        }
        i += 1;
    }
    proof {
        assert(parts.subrange(0, n as int) =~= parts);
        assert(starts@ =~= start_words(parts, 2, n as int));
    }
    starts.push(OFFSETS_END);
    Ok((crate::data_view::words_to_bytes(starts.as_slice()), data))
}

} // verus!
