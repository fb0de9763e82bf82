//! Text as the device stores it: 16-bit codes, with the table that gives each
//! code its readable form.

use vstd::prelude::*;
use vstd::string::*;

pub mod defaults;
pub mod table;

verus! {

/// One entry of the encoding table: a code and the texts that stand for it,
/// the first of which is the one shown.
#[derive(Clone)]
pub struct CharEncoding {
    pub data: u16,
    pub text: Vec<String>,
}

/// The language of the table of the codes.
#[derive(Clone, Copy, Debug, PartialEq, Eq, Structural)]
pub enum EncodingLanguage {
    Custom,
    Japanese,
    English,
    Latin,
}

/// A string in both forms: the codes, and what they read as.
#[derive(Clone)]
pub struct Text {
    pub data: Vec<u16>,
    pub string: String,
}

/// The text shown for an entry, if it has one.
pub open spec fn shown_text(code: CharEncoding) -> Option<Seq<char>> {
    if code.text@.len() > 0 {
        Some(code.text@[0]@)
    } else {
        None
    }
}

/// The text shown for the first entry from `from` on whose code is `word`.
pub open spec fn scan_word(codes: Seq<CharEncoding>, word: u16, from: int) -> Option<Seq<char>>
    decreases codes.len() - from,
{
    if from < 0 || from >= codes.len() {
        None
    } else if codes[from].data == word {
        shown_text(codes[from])
    } else {
        scan_word(codes, word, from + 1)
    }
}

/// The text of a code: up to 256 the entry at that place of the table, above
/// it the first entry with that code.
pub open spec fn text_of_word(codes: Seq<CharEncoding>, word: u16) -> Option<Seq<char>> {
    if word <= 256 {
        if word < codes.len() {
            shown_text(codes[word as int])
        } else {
            None
        }
    } else {
        scan_word(codes, word, 0)
    }
}

/// Whether `text` is one of the texts of an entry.
pub open spec fn has_text(code: CharEncoding, text: Seq<char>) -> bool {
    exists|k: int| 0 <= k < code.text@.len() && #[trigger] code.text@[k]@ == text
}

/// The code of the first entry from `from` on that has `text`.
pub open spec fn scan_text(codes: Seq<CharEncoding>, text: Seq<char>, from: int) -> Option<u16>
    decreases codes.len() - from,
{
    if from < 0 || from >= codes.len() {
        None
    } else if has_text(codes[from], text) {
        Some(codes[from].data)
    } else {
        scan_text(codes, text, from + 1)
    }
}

/// The code of a text: that of the first entry of the table that has it.
pub open spec fn word_of_text(codes: Seq<CharEncoding>, text: Seq<char>) -> Option<u16> {
    scan_text(codes, text, 0)
}

/// What a sequence of codes reads as: the texts of the codes in order, codes
/// without a text left out.
pub open spec fn encoded(codes: Seq<CharEncoding>, data: Seq<u16>) -> Seq<char>
    decreases data.len(),
{
    if data.len() == 0 {
        Seq::empty()
    } else {
        encoded(codes, data.drop_last()) + match text_of_word(codes, data.last()) {
            Some(text) => text,
            None => Seq::empty(),
        }
    }
}

/// What the reader of a string holds between two characters: the name of a
/// variable that has begun, and the codes found so far.
pub struct DecodeState {
    pub name: Seq<char>,
    pub words: Seq<u16>,
}

/// `words` with `word` behind it, if there is one.
pub open spec fn with_word(words: Seq<u16>, word: Option<u16>) -> Seq<u16> {
    match word {
        Some(w) => words.push(w),
        None => words,
    }
}

/// The reader's state after one more character. A name runs from `{` or `<`
/// to `}` or `>` and is looked up in lower case; outside a name each character
/// is looked up alone. What the table lacks is left out.
pub open spec fn decode_step(codes: Seq<CharEncoding>, state: DecodeState, ch: char) -> DecodeState {
    if ch == '{' || ch == '<' {
        DecodeState { name: state.name.push(ch), words: state.words }
    } else if ch == '}' || ch == '>' {
        DecodeState {
            name: Seq::empty(),
            words: with_word(
                state.words,
                word_of_text(codes, lowercase_of(state.name.push(ch))),
            ),
        }
    } else if state.name.len() == 0 {
        DecodeState {
            name: state.name,
            words: with_word(state.words, word_of_text(codes, seq![ch])),
        }
    } else {
        DecodeState { name: state.name.push(ch), words: state.words }
    }
}

/// The reader's state after all of `s`.
pub open spec fn decode_state(codes: Seq<CharEncoding>, s: Seq<char>) -> DecodeState
    decreases s.len(),
{
    if s.len() == 0 {
        DecodeState { name: Seq::empty(), words: Seq::empty() }
    } else {
        decode_step(codes, decode_state(codes, s.drop_last()), s.last())
    }
}

/// The codes that a string stands for.
pub open spec fn decoded(codes: Seq<CharEncoding>, s: Seq<char>) -> Seq<u16> {
    decode_state(codes, s).words
}

/// The lower-case form of a string, as `str::to_lowercase` gives it.
pub uninterp spec fn lowercase_of(s: Seq<char>) -> Seq<char>;

/// `str::to_lowercase`: the result is the lower-case form of the argument,
/// which depends on nothing else.
#[verifier::external_body]
fn to_lowercase(s: &str) -> (lower: String)
    ensures
        lower@ == lowercase_of(s@),
{
    s.to_lowercase()
}

/// `String::push`: the character is appended.
#[verifier::external_body]
pub(crate) fn push_char(s: &mut String, c: char)
    ensures
        final(s)@ == old(s)@.push(c),
{
    s.push(c)
}

impl CharEncoding {
    /// An entry with the code and the texts given.
    pub fn new(data: u16, text: Vec<String>) -> (code: CharEncoding)
        ensures
            code.data == data,
            code.text == text,
    {
        CharEncoding { data, text }
    }
}

/// The text of a code, if the table has one for it.
pub fn word_to_char_code(char_codes: &[CharEncoding], word: u16) -> (text: Option<String>)
    ensures
        match text {
            Some(t) => text_of_word(char_codes@, word) == Some(t@),
            None => text_of_word(char_codes@, word) is None,
        },
{
    if word <= 256 {
        let i = word as usize;
        if i < char_codes.len() && char_codes[i].text.len() > 0 {
            Some(char_codes[i].text[0].clone())
        } else {
            None
        }
    } else {
        let n = char_codes.len();
        let mut i: usize = 0;
        while i < n
            invariant
                i <= n,
                n == char_codes@.len(),
                word > 256,
                scan_word(char_codes@, word, 0) == scan_word(char_codes@, word, i as int),
            decreases n - i,
        {
            assert(scan_word(char_codes@, word, i as int) == if char_codes@[i as int].data == word {
                shown_text(char_codes@[i as int])
            } else {
                scan_word(char_codes@, word, i + 1)
            });
            if char_codes[i].data == word {
                if char_codes[i].text.len() > 0 {
                    return Some(char_codes[i].text[0].clone());
                } else {
                    return None;
                }
            }
            i += 1;
        }
        None
    }
}

/// The code of a text, if the table has one for it.
pub fn char_code_to_word(char_codes: &[CharEncoding], text: &str) -> (word: Option<u16>)
    ensures
        word == word_of_text(char_codes@, text@),
{
    let n = char_codes.len();
    let wanted = text.to_owned();
    let mut i: usize = 0;
    while i < n
        invariant
            i <= n,
            n == char_codes@.len(),
            wanted@ == text@,
            scan_text(char_codes@, text@, 0) == scan_text(char_codes@, text@, i as int),
        decreases n - i,
    {
        let m = char_codes[i].text.len();
        let mut k: usize = 0;
        while k < m
            invariant
                k <= m,
                i < n,
                n == char_codes@.len(),
                wanted@ == text@,
                scan_text(char_codes@, text@, 0) == scan_text(char_codes@, text@, i as int),
                m == char_codes@[i as int].text@.len(),
                forall|j: int| 0 <= j < k ==> #[trigger] char_codes@[i as int].text@[j]@ != text@,
            decreases m - k,
        {
            if char_codes[i].text[k] == wanted {
                assert(char_codes@[i as int].text@[k as int]@ == text@);
                assert(has_text(char_codes@[i as int], text@));
                assert(scan_text(char_codes@, text@, i as int) == Some(char_codes@[i as int].data));
                return Some(char_codes[i].data);
            }
            k += 1;
        }
        assert(!has_text(char_codes@[i as int], text@));
        assert(scan_text(char_codes@, text@, i as int) == scan_text(char_codes@, text@, i + 1));
        i += 1;
    }
    None
}

/// The codes that a string stands for.
pub fn decode_string(char_codes: &[CharEncoding], string: &str) -> (data: Vec<u16>)
    ensures
        data@ == decoded(char_codes@, string@),
{
    let mut data: Vec<u16> = Vec::new();
    let mut var_name = String::new();
    let n = string.unicode_len();
    let mut i: usize = 0;
    assert(string@.subrange(0, 0) =~= Seq::<char>::empty());
    while i < n
        invariant
            i <= n,
            n == string@.len(),
            decode_state(char_codes@, string@.subrange(0, i as int)) == (DecodeState {
                name: var_name@,
                words: data@,
            }),
        decreases n - i,
    {
        let ch = string.get_char(i);
        proof {
            assert(string@.subrange(0, i + 1).drop_last() =~= string@.subrange(0, i as int));
            assert(string@.subrange(0, i + 1).last() == ch);
        }
        if ch == '{' || ch == '<' {
            push_char(&mut var_name, ch);
        } else if ch == '}' || ch == '>' {
            push_char(&mut var_name, ch);
            let lower = to_lowercase(var_name.as_str());
            match char_code_to_word(char_codes, lower.as_str()) {
                Some(word) => {
                    data.push(word);
                },
                None => {},
            }
            var_name = String::new();
        } else if var_name.unicode_len() == 0 {
            let mut single = String::new();
            push_char(&mut single, ch);
            assert(single@ =~= seq![ch]);
            match char_code_to_word(char_codes, single.as_str()) {
                Some(word) => {
                    data.push(word);
                },
                None => {},
            }
        } else {
            push_char(&mut var_name, ch);
        }
        i += 1;
    }
    assert(string@.subrange(0, n as int) =~= string@);
    data
}

/// What codes read as.
pub fn encode_string(char_codes: &[CharEncoding], data: &[u16]) -> (string: String)
    ensures
        string@ == encoded(char_codes@, data@),
{
    let mut new_string = String::new();
    let n = data.len();
    let mut i: usize = 0;
    assert(data@.subrange(0, 0) =~= Seq::<u16>::empty());
    while i < n
        invariant
            i <= n,
            n == data@.len(),
            new_string@ == encoded(char_codes@, data@.subrange(0, i as int)),
        decreases n - i,
    {
        proof {
            assert(data@.subrange(0, i + 1).drop_last() =~= data@.subrange(0, i as int));
            assert(data@.subrange(0, i + 1).last() == data@[i as int]);
        }
        match word_to_char_code(char_codes, data[i]) {
            Some(substring) => {
                new_string.append(substring.as_str());
            },
            None => {
                assert(new_string@ + Seq::<char>::empty() =~= new_string@);
            },
        }
        i += 1;
    }
    assert(data@.subrange(0, n as int) =~= data@);
    new_string
}

/// A copy of `words`.
pub fn copy_words(words: &[u16]) -> (copy: Vec<u16>)
    ensures
        copy@ == words@,
{
    let mut copy: Vec<u16> = Vec::new();
    let n = words.len();
    let mut i: usize = 0;
    while i < n
        invariant
            i <= n,
            n == words@.len(),
            copy@ == words@.subrange(0, i as int),
        decreases n - i,
    {
        copy.push(words[i]);
        i += 1;
        assert(copy@ =~= words@.subrange(0, i as int));
    }
    assert(words@.subrange(0, n as int) =~= words@);
    copy
}

/// The words of `words` that are not zero, in order.
pub open spec fn nonzero(words: Seq<u16>) -> Seq<u16>
    decreases words.len(),
{
    if words.len() == 0 {
        Seq::empty()
    } else {
        nonzero(words.drop_last()) + if words.last() != 0 {
            seq![words.last()]
        } else {
            Seq::empty()
        }
    }
}

/// Whether no word of `words` is zero.
pub open spec fn zero_free(words: Seq<u16>) -> bool {
    forall|k: int| 0 <= k < words.len() ==> words[k] != 0
}

/// Words without a zero among them stay as they are when zeros are left out.
pub proof fn lemma_nonzero_of_zero_free(words: Seq<u16>)
    requires
        zero_free(words),
    ensures
        nonzero(words) == words,
    decreases words.len(),
{
    if words.len() > 0 {
        lemma_nonzero_of_zero_free(words.drop_last());
        assert(words.drop_last().push(words.last()) =~= words);
    }
}

/// Zero words behind `words` fall away when zeros are left out.
pub proof fn lemma_nonzero_of_resized(words: Seq<u16>, len: nat)
    requires
        zero_free(words),
        words.len() <= len,
    ensures
        nonzero(crate::data_view::resized(words, len)) == words,
    decreases len,
{
    let wide = crate::data_view::resized(words, len);
    if len == words.len() {
        assert(wide =~= words);
        lemma_nonzero_of_zero_free(words);
    } else {
        lemma_nonzero_of_resized(words, (len - 1) as nat);
        assert(wide.drop_last() =~= crate::data_view::resized(words, (len - 1) as nat));
        assert(wide.last() == 0);
        assert(nonzero(wide) =~= words);
    }
}

/// The words from `from` up to `to` that are not zero.
pub fn nonzero_words(words: &[u16], from: usize, to: usize) -> (found: Vec<u16>)
    requires
        from <= to <= words@.len(),
    ensures
        found@ == nonzero(words@.subrange(from as int, to as int)),
{
    let mut found: Vec<u16> = Vec::new();
    let mut k: usize = from;
    assert(words@.subrange(from as int, from as int) =~= Seq::<u16>::empty());
    while k < to
        invariant
            from <= k <= to <= words@.len(),
            found@ == nonzero(words@.subrange(from as int, k as int)),
        decreases to - k,
    {
        proof {
            let next = words@.subrange(from as int, k + 1);
            assert(next.drop_last() =~= words@.subrange(from as int, k as int));
            assert(next.last() == words@[k as int]);
        }
        if words[k] != 0 {
            found.push(words[k]);
        } else {
            assert(found@ + Seq::<u16>::empty() =~= found@);
        }
        k += 1;
    }
    found
}

/// The text that the words from `from` up to `to` hold, zeros left out.
pub fn text_of_row(char_codes: &[CharEncoding], words: &[u16], from: usize, to: usize) -> (text:
    Text)
    requires
        from <= to <= words@.len(),
    ensures
        is_text_of(text, char_codes@, words@.subrange(from as int, to as int)),
{
    let found = nonzero_words(words, from, to);
    Text::from_data(char_codes, found.as_slice())
}

/// Whether `text` is what the words of a field read as: the words that are
/// not zero, and their reading.
pub open spec fn is_text_of(text: Text, codes: Seq<CharEncoding>, field: Seq<u16>) -> bool {
    &&& text.data@ == nonzero(field)
    &&& text.string@ == encoded(codes, text.data@)
}

impl Text {
    /// The codes given, and what they read as.
    pub fn from_data(char_codes: &[CharEncoding], new_data: &[u16]) -> (text: Text)
        ensures
            text.data@ == new_data@,
            text.string@ == encoded(char_codes@, new_data@),
    {
        Text { data: copy_words(new_data), string: encode_string(char_codes, new_data) }
    }

    /// The string given, and the codes it stands for.
    pub fn from_string(char_codes: &[CharEncoding], new_string: &str) -> (text: Text)
        ensures
            text.data@ == decoded(char_codes@, new_string@),
            text.string@ == new_string@,
    {
        Text { data: decode_string(char_codes, new_string), string: new_string.to_owned() }
    }

    /// Gives the text the string given, and the codes it stands for.
    pub fn set_string(&mut self, char_codes: &[CharEncoding], new_string: &str)
        ensures
            final(self).data@ == decoded(char_codes@, new_string@),
            final(self).string@ == new_string@,
    {
        self.data = decode_string(char_codes, new_string);
        self.string = new_string.to_owned();
    }

    /// Reads the codes anew with another table; the codes stay.
    pub fn update_string(&mut self, char_codes: &[CharEncoding])
        ensures
            final(self).data@ == old(self).data@,
            final(self).string@ == encoded(char_codes@, old(self).data@),
    {
        self.string = encode_string(char_codes, self.data.as_slice());
    }
}

/// The number of words, `len` at most, that stand whole in `s` from byte `i`
/// on.
pub open spec fn window_len(s: Seq<u8>, i: int, len: int) -> int {
    if i + 2 > s.len() {
        0
    } else if i + 2 * len <= s.len() {
        len
    } else {
        (s.len() - i) / 2
    }
}

/// The words, `len` at most, that stand whole in `s` from byte `i` on.
pub open spec fn text_window(s: Seq<u8>, i: int, len: int) -> Seq<u16> {
    if window_len(s, i, len) <= 0 {
        Seq::empty()
    } else {
        crate::data_view::words_of_bytes(s.subrange(i, i + 2 * window_len(s, i, len)))
    }
}

impl crate::data_view::DataView {
    /// The text of up to `len` words from byte `i` on: the words that stand
    /// whole in the data and are not zero.
    pub fn get_text(&self, char_codes: &[CharEncoding], i: usize, len: usize) -> (text: Text)
        ensures
            is_text_of(text, char_codes@, text_window(self@, i as int, len as int)),
    {
        let total = self.data.len();
        let count = if total < 2 || i > total - 2 {
            0
        } else if len <= (total - i) / 2 {
            len
        } else {
            (total - i) / 2
        };
        if count == 0 {
            let none: Vec<u16> = Vec::new();
            proof {
                assert(text_window(self@, i as int, len as int) =~= Seq::<u16>::empty());
                assert(none@.subrange(0, 0) =~= none@);
            }
            return text_of_row(char_codes, none.as_slice(), 0, 0);
        }
        let words = crate::data_pack::read_words(self, i, 2 * count);
        proof {
            assert(words@.subrange(0, words@.len() as int) =~= words@);
        }
        text_of_row(char_codes, words.as_slice(), 0, words.len())
    }
}

/// Whether two lists of words are the same.
pub fn same_words(a: &[u16], b: &[u16]) -> (same: bool)
    ensures
        same == (a@ == b@),
{
    if a.len() != b.len() {
        return false;
    }
    let n = a.len();
    let mut i: usize = 0;
    while i < n
        invariant
            i <= n,
            n == a@.len(),
            n == b@.len(),
            a@.subrange(0, i as int) == b@.subrange(0, i as int),
        decreases n - i,
    {
        if a[i] != b[i] {
            assert(a@[i as int] != b@[i as int]);
            return false;
        }
        i += 1;
        assert(a@.subrange(0, i as int) =~= a@.subrange(0, i - 1).push(a@[i - 1]));
        assert(b@.subrange(0, i as int) =~= b@.subrange(0, i - 1).push(b@[i - 1]));
    }
    assert(a@ =~= a@.subrange(0, n as int));
    assert(b@ =~= b@.subrange(0, n as int));
    true
}

/// A string as the device would show it: the reading of its codes. The
/// string can be stored where that reading stands for the same codes, and
/// these are `max_length` at most.
pub fn validate_string(char_codes: &[CharEncoding], string: &str, max_length: usize) -> (result: (
    bool,
    String,
))
    ensures
        result.1@ == encoded(char_codes@, decoded(char_codes@, string@)),
        result.0 == (decoded(char_codes@, string@) == decoded(char_codes@, result.1@) && decoded(
            char_codes@,
            result.1@,
        ).len() <= max_length),
{
    let words = decode_string(char_codes, string);
    let shown = encode_string(char_codes, words.as_slice());
    let again = decode_string(char_codes, shown.as_str());
    let valid = same_words(words.as_slice(), again.as_slice()) && again.len() <= max_length;
    (valid, shown)
}

} // verus!
