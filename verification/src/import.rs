//! Strings that come back from a table of translations: the rows of the
//! table are put together into strings, and the strings into the records.

use vstd::prelude::*;
use vstd::string::*;
use crate::data_pack::DataPack;
use crate::data_pack::character::Character;
use crate::data_pack::item::Item;
use crate::data_pack::tamastring::TamaString;
use crate::strings::{
    capture, capture_of, parse_index, parse_u16, parsed_index, parsed_u16, pieces, same_chars, split, to_chars,
};
use crate::text::{CharEncoding, Text, decoded, push_char};

verus! {

/// The part of the table that a row belongs to.
#[derive(Clone, Copy, Debug, PartialEq, Eq, Structural)]
pub enum StringType {
    Unknown,
    Menu,
    Dialog,
    Item,
    Character,
}

/// A string as it is put together from the rows of the table.
#[derive(Clone, Debug)]
pub struct TamaStringTranslation {
    pub id: u16,
    pub value: String,
    pub line_count: usize,
}

impl TamaStringTranslation {
    /// A string with the number given and nothing else yet.
    pub fn new(id: u16) -> (translation: TamaStringTranslation)
        ensures
            translation.id == id,
            translation.value@ == Seq::<char>::empty(),
            translation.line_count == 0,
    {
        TamaStringTranslation { id, value: String::new(), line_count: 0 }
    }
}

/// A string that is ready to go into the records.
#[derive(Clone, Debug)]
pub struct ImportedString {
    pub string_type: StringType,
    pub id: u16,
    pub value: String,
}

/// What is known between two rows of the table: the part that the rows
/// belong to, the string that is being put together, and the last line read.
pub struct StringImport {
    pub string_type: StringType,
    pub translation: TamaStringTranslation,
    pub last_line: String,
}

/// What is known between two rows, as plain values.
pub struct ImportView {
    pub string_type: StringType,
    pub id: u16,
    pub value: Seq<char>,
    pub line_count: usize,
    pub last_line: Seq<char>,
}

/// The mark between two lines of a page.
pub open spec fn line_break() -> Seq<char> {
    seq!['<', 'b', 'r', '>']
}

/// The mark between two pages.
pub open spec fn page_break() -> Seq<char> {
    seq!['<', 'h', 'r', '>']
}

/// A string in upper case, as `str::to_uppercase` gives it.
pub uninterp spec fn uppercase_of(s: Seq<char>) -> Seq<char>;

/// `str::to_uppercase`: the result is the upper-case form of the argument,
/// which depends on nothing else.
#[verifier::external_body]
fn to_uppercase(s: &str) -> (upper: String)
    ensures
        upper@ == uppercase_of(s@),
{
    s.to_uppercase()
}

/// The part of the table that begins with a row whose first field, in upper
/// case, is `name`; `current` where the name is none of a part.
pub open spec fn section_of(name: Seq<char>, current: StringType) -> StringType {
    if name == seq!['M', 'E', 'N', 'U', 'S'] {
        StringType::Menu
    } else if name == seq!['D', 'I', 'A', 'L', 'O', 'G'] || name == seq![
        'S',
        'T',
        'R',
        'I',
        'N',
        'G',
        'S',
    ] {
        StringType::Dialog
    } else if name == seq!['I', 'T', 'E', 'M', 'S'] {
        StringType::Item
    } else if name == seq!['C', 'H', 'A', 'R', 'A', 'C', 'T', 'E', 'R', 'S'] {
        StringType::Character
    } else {
        current
    }
}

/// Whether a row begins a new string: its first field is a number.
pub open spec fn begins_string(id: Seq<char>) -> bool {
    parsed_u16(id) is Some
}

/// Whether a row goes on with the string that is being put together: its
/// first field is empty, and the string is not.
pub open spec fn continues_string(state: ImportView, id: Seq<char>) -> bool {
    !begins_string(id) && id.len() == 0 && state.value.len() > 0
}

/// The string that a row sets free, if it sets one free: a row that begins
/// a string with a number above zero, or one that neither begins nor goes on
/// with a string, sets free what has been put together.
pub open spec fn row_emits(state: ImportView, id: Seq<char>) -> bool {
    if begins_string(id) {
        parsed_u16(id)->Some_0 > 0
    } else {
        !continues_string(state, id)
    }
}

/// `count` and one more, as far as that can be counted.
pub open spec fn counted(count: usize) -> usize {
    if count < usize::MAX {
        (count + 1) as usize
    } else {
        count
    }
}

/// What is known behind a row, from what was known in front of it.
pub open spec fn after_row(state: ImportView, id: Seq<char>, line: Option<Seq<char>>) -> ImportView {
    if begins_string(id) {
        ImportView {
            string_type: state.string_type,
            id: parsed_u16(id)->Some_0,
            value: match line {
                Some(line) => line,
                None => Seq::empty(),
            },
            line_count: 0,
            last_line: match line {
                Some(line) => line,
                None => state.last_line,
            },
        }
    } else if continues_string(state, id) {
        match line {
            Some(line) => ImportView {
                string_type: state.string_type,
                id: state.id,
                value: if line.len() == 0 {
                    state.value
                } else if state.last_line.len() == 0 {
                    state.value + page_break() + line
                } else {
                    state.value + line_break() + line
                },
                line_count: if line.len() == 0 {
                    state.line_count
                } else {
                    counted(state.line_count)
                },
                last_line: line,
            },
            None => state,
        }
    } else {
        ImportView {
            string_type: section_of(uppercase_of(id), state.string_type),
            id: state.id,
            value: state.value,
            line_count: state.line_count,
            last_line: state.last_line,
        }
    }
}

impl View for StringImport {
    type V = ImportView;

    open spec fn view(&self) -> ImportView {
        ImportView {
            string_type: self.string_type,
            id: self.translation.id,
            value: self.translation.value@,
            line_count: self.translation.line_count,
            last_line: self.last_line@,
        }
    }
}

/// Whether `string` is what has been put together in `state`.
pub open spec fn is_emitted(string: ImportedString, state: ImportView) -> bool {
    string.string_type == state.string_type && string.id == state.id && string.value@
        == state.value
}

/// The part of the table that a row whose first field, in upper case, is
/// `name` begins: the menus for `MENUS`, the dialog for `DIALOG` and
/// `STRINGS`, the items for `ITEMS`, the characters for `CHARACTERS`; for
/// another name the part stays `current`.
pub fn section(name: &str, current: StringType) -> (found: StringType)
    ensures
        found == section_of(name@, current),
{
    let chars = to_chars(name);
    proof {
        reveal_strlit("MENUS");
        reveal_strlit("DIALOG");
        reveal_strlit("STRINGS");
        reveal_strlit("ITEMS");
        reveal_strlit("CHARACTERS");
        assert("MENUS"@ =~= seq!['M', 'E', 'N', 'U', 'S']);
        assert("DIALOG"@ =~= seq!['D', 'I', 'A', 'L', 'O', 'G']);
        assert("STRINGS"@ =~= seq!['S', 'T', 'R', 'I', 'N', 'G', 'S']);
        assert("ITEMS"@ =~= seq!['I', 'T', 'E', 'M', 'S']);
        assert("CHARACTERS"@ =~= seq!['C', 'H', 'A', 'R', 'A', 'C', 'T', 'E', 'R', 'S']);
    }
    if same_chars(chars.as_slice(), "MENUS") {
        StringType::Menu
    } else if same_chars(chars.as_slice(), "DIALOG") || same_chars(chars.as_slice(), "STRINGS") {
        StringType::Dialog
    } else if same_chars(chars.as_slice(), "ITEMS") {
        StringType::Item
    } else if same_chars(chars.as_slice(), "CHARACTERS") {
        StringType::Character
    } else {
        current
    }
}

/// `front`, a mark of four characters, and `back`, one behind the other.
fn joined_with(front: &str, mark: [char; 4], back: &str) -> (s: String)
    ensures
        s@ == front@ + mark@ + back@,
{
    let mut s = front.to_owned();
    push_char(&mut s, mark[0]);
    push_char(&mut s, mark[1]);
    push_char(&mut s, mark[2]);
    push_char(&mut s, mark[3]);
    s.append(back);
    assert(s@ =~= front@ + mark@ + back@);
    s
}

impl StringImport {
    /// The start of reading a table: no row was read.
    pub fn new() -> (import: StringImport)
        ensures
            import@ == (ImportView {
                string_type: StringType::Unknown,
                id: 0,
                value: Seq::empty(),
                line_count: 0,
                last_line: Seq::empty(),
            }),
    {
        StringImport {
            string_type: StringType::Unknown,
            translation: TamaStringTranslation::new(0),
            last_line: String::new(),
        }
    }

    /// Takes the next row of the table: its first field, and its third if it
    /// has one. Gives the string that the row sets free, if it sets one free.
    pub fn next_record(&mut self, id: &str, line: Option<&str>) -> (emitted: Option<
        ImportedString,
    >)
        ensures
            final(self)@ == after_row(
                old(self)@,
                id@,
                match line {
                    Some(line) => Some(line@),
                    None => None,
                },
            ),
            match emitted {
                Some(string) => row_emits(old(self)@, id@) && is_emitted(string, old(self)@),
                None => !row_emits(old(self)@, id@),
            },
    {
        let id_chars = to_chars(id);
        match parse_u16(id_chars.as_slice()) {
            Some(number) => {
                let emitted = if number > 0 {
                    Some(
                        ImportedString {
                            string_type: self.string_type,
                            id: self.translation.id,
                            value: self.translation.value.clone(),
                        },
                    )
                } else {
                    None
                };
                self.translation = TamaStringTranslation::new(number);
                match line {
                    Some(line) => {
                        self.translation.value = line.to_owned();
                        self.last_line = line.to_owned();
                    },
                    None => {},
                }
                emitted
            },
            None => {
                if id.unicode_len() == 0 && self.translation.value.as_str().unicode_len() > 0 {
                    match line {
                        Some(line) => {
                            if line.unicode_len() > 0 {
                                if self.translation.line_count < usize::MAX {
                                    self.translation.line_count = self.translation.line_count + 1;
                                }
                                let mark = if self.last_line.as_str().unicode_len() == 0 {
                                    ['<', 'h', 'r', '>']
                                } else {
                                    ['<', 'b', 'r', '>']
                                };
                                assert(mark@ =~= if self.last_line@.len() == 0 {
                                    page_break()
                                } else {
                                    line_break()
                                });
                                self.translation.value = joined_with(
                                    self.translation.value.as_str(),
                                    mark,
                                    line,
                                );
                            }
                            self.last_line = line.to_owned();
                        },
                        None => {},
                    }
                    None
                } else {
                    let emitted = ImportedString {
                        string_type: self.string_type,
                        id: self.translation.id,
                        value: self.translation.value.clone(),
                    };
                    let upper = to_uppercase(id);
                    self.string_type = section(upper.as_str(), self.string_type);
                    Some(emitted)
                }
            },
        }
    }

    /// The string that is left when the table has ended.
    pub fn finish(self) -> (string: ImportedString)
        ensures
            is_emitted(string, self@),
    {
        ImportedString {
            string_type: self.string_type,
            id: self.translation.id,
            value: self.translation.value,
        }
    }
}

/// Whether `text` is the string `s` with the codes that it stands for.
pub open spec fn text_is(text: Text, codes: Seq<CharEncoding>, s: Seq<char>) -> bool {
    text.data@ == decoded(codes, s) && text.string@ == s
}

/// Part `k` of the parts given, or nothing where there are fewer.
pub open spec fn part_or_empty(parts: Seq<Seq<char>>, k: int) -> Seq<char> {
    if 0 <= k < parts.len() {
        parts[k]
    } else {
        Seq::empty()
    }
}

/// Whether `new` is the item `old` with `name` as its name.
pub open spec fn item_renamed(new: Item, old: Item, codes: Seq<CharEncoding>, name: Seq<char>) -> bool {
    &&& text_is(new.name, codes, name)
    &&& new.id == old.id
    &&& new.item_type == old.item_type
    &&& new.image_id == old.image_id
    &&& new.worn_image_id == old.worn_image_id
    &&& new.close_image_id == old.close_image_id
    &&& new.animation_id == old.animation_id
    &&& new.price == old.price
    &&& new.unknown1 == old.unknown1
    &&& new.unknown2 == old.unknown2
    &&& new.unknown3 == old.unknown3
    &&& new.unlocked_character == old.unlocked_character
    &&& new.game_type == old.game_type
}

/// Whether `new` is the string `old` with `value` as its text.
pub open spec fn string_reworded(
    new: TamaString,
    old: TamaString,
    codes: Seq<CharEncoding>,
    value: Seq<char>,
) -> bool {
    &&& text_is(new.value, codes, value)
    &&& new.id == old.id
    &&& new.unknown1 == old.unknown1
    &&& new.unknown2 == old.unknown2
    &&& new.unknown3 == old.unknown3
}

/// Whether `new` is the character `old` with its five texts taken from the
/// lines of `value`: its name, its pronoun, the ending of its statements and
/// the two endings of its questions.
pub open spec fn character_reworded(
    new: Character,
    old: Character,
    codes: Seq<CharEncoding>,
    value: Seq<char>,
) -> bool {
    let parts = pieces(value, line_break(), 0);
    &&& text_is(new.name, codes, part_or_empty(parts, 0))
    &&& text_is(new.pronoun, codes, part_or_empty(parts, 1))
    &&& text_is(new.statement, codes, part_or_empty(parts, 2))
    &&& text_is(new.question1, codes, part_or_empty(parts, 3))
    &&& text_is(new.question2, codes, part_or_empty(parts, 4))
    &&& new.id == old.id
    &&& new.character_type == old.character_type
    &&& new.profile_image_id == old.profile_image_id
    &&& new.icon_image_id == old.icon_image_id
    &&& new.composition_id == old.composition_id
    &&& new.unknown1 == old.unknown1
    &&& new.unknown2 == old.unknown2
    &&& new.unknown3 == old.unknown3
    &&& new.global_id == old.global_id
    &&& new.unknown4 == old.unknown4
    &&& new.unknown5 == old.unknown5
    &&& new.unknown6 == old.unknown6
    &&& new.unknown7 == old.unknown7
    &&& new.gender == old.gender
}

/// Whether all of a data pack but the strings, the items and the characters
/// is as before.
pub open spec fn rest_kept(new: DataPack, old: DataPack) -> bool {
    &&& new.table1 == old.table1
    &&& new.particle_emitters == old.particle_emitters
    &&& new.scenes == old.scenes
    &&& new.table9 == old.table9
    &&& new.graphics_nodes == old.graphics_nodes
    &&& new.frame_groups == old.frame_groups
    &&& new.card_id == old.card_id
}

/// Whether two lists are alike but at place `at`.
pub open spec fn same_but<T>(new: Seq<T>, old: Seq<T>, at: int) -> bool {
    new.len() == old.len() && forall|k: int| 0 <= k < old.len() && k != at ==> new[k] == old[k]
}

/// The text of part `k` of the parts given.
fn part_text(char_codes: &[CharEncoding], parts: &Vec<String>, k: usize) -> (text: Text)
    ensures
        text_is(
            text,
            char_codes@,
            if k < parts@.len() {
                parts@[k as int]@
            } else {
                Seq::empty()
            },
        ),
{
    if k < parts.len() {
        Text::from_string(char_codes, parts[k].as_str())
    } else {
        let none = String::new();
        Text::from_string(char_codes, none.as_str())
    }
}

/// Puts a string into the record that its number names, in the part of the
/// records that it belongs to. Where there is no such record, nothing
/// changes.
pub fn add_string(
    char_codes: &[CharEncoding],
    string: &ImportedString,
    menu_strings: &mut Vec<Text>,
    data_pack: &mut DataPack,
)
    ensures
        rest_kept(*final(data_pack), *old(data_pack)),
        same_but(final(menu_strings)@, old(menu_strings)@, string.id as int),
        same_but(final(data_pack).tamastrings@, old(data_pack).tamastrings@, string.id as int),
        same_but(final(data_pack).items@, old(data_pack).items@, string.id as int),
        same_but(final(data_pack).characters@, old(data_pack).characters@, string.id as int),
        string.id < old(menu_strings)@.len() ==> if string.string_type == StringType::Menu {
            text_is(final(menu_strings)@[string.id as int], char_codes@, string.value@)
        } else {
            final(menu_strings)@[string.id as int] == old(menu_strings)@[string.id as int]
        },
        string.id < old(data_pack).tamastrings@.len() ==> if string.string_type
            == StringType::Dialog {
            string_reworded(
                final(data_pack).tamastrings@[string.id as int],
                old(data_pack).tamastrings@[string.id as int],
                char_codes@,
                string.value@,
            )
        } else {
            final(data_pack).tamastrings@[string.id as int] == old(
                data_pack,
            ).tamastrings@[string.id as int]
        },
        string.id < old(data_pack).items@.len() ==> if string.string_type == StringType::Item {
            item_renamed(
                final(data_pack).items@[string.id as int],
                old(data_pack).items@[string.id as int],
                char_codes@,
                string.value@,
            )
        } else {
            final(data_pack).items@[string.id as int] == old(data_pack).items@[string.id as int]
        },
        string.id < old(data_pack).characters@.len() ==> if string.string_type
            == StringType::Character {
            character_reworded(
                final(data_pack).characters@[string.id as int],
                old(data_pack).characters@[string.id as int],
                char_codes@,
                string.value@,
            )
        } else {
            final(data_pack).characters@[string.id as int] == old(
                data_pack,
            ).characters@[string.id as int]
        },
{
    let id = string.id as usize;
    let value = string.value.as_str();
    match string.string_type {
        StringType::Menu => {
            if id < menu_strings.len() {
                menu_strings.set(id, Text::from_string(char_codes, value));
            }
        },
        StringType::Dialog => {
            if id < data_pack.tamastrings.len() {
                let old = &data_pack.tamastrings[id];
                let new = TamaString {
                    id: old.id,
                    unknown1: old.unknown1,
                    unknown2: old.unknown2,
                    unknown3: old.unknown3,
                    value: Text::from_string(char_codes, value),
                };
                data_pack.tamastrings.set(id, new);
            }
        },
        StringType::Item => {
            if id < data_pack.items.len() {
                let old = &data_pack.items[id];
                let new = Item {
                    id: old.id,
                    item_type: old.item_type,
                    name: Text::from_string(char_codes, value),
                    image_id: old.image_id,
                    worn_image_id: old.worn_image_id,
                    close_image_id: old.close_image_id,
                    animation_id: old.animation_id,
                    price: old.price,
                    unknown1: old.unknown1,
                    unknown2: old.unknown2,
                    unknown3: old.unknown3,
                    unlocked_character: old.unlocked_character,
                    game_type: old.game_type,
                };
                data_pack.items.set(id, new);
            }
        },
        StringType::Character => {
            if id < data_pack.characters.len() {
                let chars = to_chars(value);
                let mark = ['<', 'b', 'r', '>'];
                assert(mark@ =~= line_break());
                let parts = split(chars.as_slice(), mark.as_slice());
                let old = &data_pack.characters[id];
                let new = Character {
                    id: old.id,
                    character_type: old.character_type,
                    name: part_text(char_codes, &parts, 0),
                    profile_image_id: old.profile_image_id,
                    icon_image_id: old.icon_image_id,
                    composition_id: old.composition_id,
                    unknown1: old.unknown1,
                    pronoun: part_text(char_codes, &parts, 1),
                    statement: part_text(char_codes, &parts, 2),
                    question1: part_text(char_codes, &parts, 3),
                    question2: part_text(char_codes, &parts, 4),
                    unknown2: old.unknown2,
                    unknown3: old.unknown3,
                    global_id: old.global_id,
                    unknown4: old.unknown4,
                    unknown5: old.unknown5,
                    unknown6: old.unknown6,
                    unknown7: old.unknown7,
                    gender: old.gender,
                };
                data_pack.characters.set(id, new);
            }
        },
        StringType::Unknown => {},
    }
}

/// The pattern of the name of the file of an image: anything, a hyphen, the
/// number of the image, any one character, and `png` in letters of either
/// case, at the end.
pub open spec fn image_file_pattern() -> Seq<char> {
    ".+-(\\d+).[Pp][Nn][Gg]$"@
}

/// The number that the digits found in the name of a file spell, if any
/// were found and they spell one.
pub open spec fn index_of_digits(digits: Option<Seq<char>>) -> Option<usize> {
    match digits {
        Some(digits) => parsed_index(digits),
        None => None,
    }
}

/// The number of an image from the digits found in the name of its file.
pub fn image_index_of_digits(digits: Option<&str>) -> (index: Option<usize>)
    ensures
        index == index_of_digits(
            match digits {
                Some(digits) => Some(digits@),
                None => None,
            },
        ),
{
    match digits {
        Some(digits) => {
            let chars = to_chars(digits);
            parse_index(chars.as_slice())
        },
        None => None,
    }
}

/// The number of the image that a file holds, by the name of the file.
pub fn image_index_of(file_name: &str) -> (index: Option<usize>)
    ensures
        index == index_of_digits(capture_of(image_file_pattern(), file_name@, 1)),
{
    match capture(".+-(\\d+).[Pp][Nn][Gg]$", file_name, 1) {
        Some(digits) => image_index_of_digits(Some(digits.as_str())),
        None => image_index_of_digits(None),
    }
}

} // verus!
