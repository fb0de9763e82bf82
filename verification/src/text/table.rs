//! Changes to the table of the codes: which entries cannot stand, and the
//! table with the texts of those that can.

use vstd::prelude::*;
use vstd::string::*;
use crate::strings::{same_chars, to_chars};
use crate::text::{has_text, CharEncoding, EncodingLanguage};

verus! {

/// Whether a text can stand for a code: it is one character at most, or a
/// name between braces.
pub open spec fn text_valid(text: Seq<char>) -> bool {
    text.len() <= 1 || (text[0] == '{' && text.last() == '}')
}

/// Whether an entry has a text that cannot stand for a code.
pub open spec fn entry_invalid(code: CharEncoding) -> bool {
    exists|k: int| 0 <= k < code.text@.len() && !text_valid(#[trigger] code.text@[k]@)
}

/// Whether text `k` of entry `i` is not empty and is a text of entry `j`,
/// which has another code.
pub open spec fn text_shared(codes: Seq<CharEncoding>, i: int, k: int, j: int) -> bool {
    &&& 0 <= i < codes.len()
    &&& 0 <= k < codes[i].text@.len()
    &&& codes[i].data != codes[j].data
    &&& codes[i].text@[k]@.len() > 0
    &&& has_text(codes[j], codes[i].text@[k]@)
}

/// Whether entry `j` has a text of an entry with another code.
pub open spec fn entry_shares(codes: Seq<CharEncoding>, j: int) -> bool {
    exists|i: int, k: int| #[trigger] text_shared(codes, i, k, j)
}

/// Whether entry `j` cannot stand: a text of it cannot stand for a code, or
/// is a text of an entry with another code.
pub open spec fn entry_fails(codes: Seq<CharEncoding>, j: int) -> bool {
    entry_invalid(codes[j]) || entry_shares(codes, j)
}

/// Whether `word` is the code of an entry that cannot stand.
pub open spec fn is_problem(codes: Seq<CharEncoding>, word: u16) -> bool {
    exists|j: int| 0 <= j < codes.len() && codes[j].data == word && #[trigger] entry_fails(codes, j)
}

/// Whether the words grow from each to the next.
pub open spec fn words_grow(words: Seq<u16>) -> bool {
    forall|a: int, b: int| 0 <= a < b < words.len() ==> words[a] < words[b]
}

/// What is wrong with a table of codes: the codes of the entries that cannot
/// stand, each once and the smallest first; whether an entry shares a text
/// with another code; and whether a text cannot stand for a code.
pub struct CodeProblems {
    pub codes: Vec<u16>,
    pub has_duplicate: bool,
    pub has_invalid: bool,
}

/// Whether a text can stand for a code.
pub fn is_text_valid(text: &str) -> (valid: bool)
    ensures
        valid == text_valid(text@),
{
    let n = text.unicode_len();
    if n <= 1 {
        return true;
    }
    text.get_char(0) == '{' && text.get_char(n - 1) == '}'
}

/// Whether an entry has a text that cannot stand for a code.
pub fn is_entry_invalid(code: &CharEncoding) -> (invalid: bool)
    ensures
        invalid == entry_invalid(*code),
{
    let n = code.text.len();
    let mut k: usize = 0;
    while k < n
        invariant
            k <= n,
            n == code.text@.len(),
            forall|m: int| 0 <= m < k ==> text_valid(#[trigger] code.text@[m]@),
        decreases n - k,
    {
        if !is_text_valid(code.text[k].as_str()) {
            return true;
        }
        k += 1;
    }
    false
}

/// Whether `text` is one of the texts of an entry.
pub fn entry_has_text(code: &CharEncoding, text: &String) -> (found: bool)
    ensures
        found == has_text(*code, text@),
{
    let n = code.text.len();
    let mut k: usize = 0;
    while k < n
        invariant
            k <= n,
            n == code.text@.len(),
            forall|m: int| 0 <= m < k ==> #[trigger] code.text@[m]@ != text@,
        decreases n - k,
    {
        if code.text[k] == *text {
            assert(code.text@[k as int]@ == text@);
            return true;
        }
        k += 1;
    }
    false
}

/// Whether entry `j` has a text of an entry with another code.
pub fn is_entry_shared(codes: &[CharEncoding], j: usize) -> (shared: bool)
    requires
        j < codes@.len(),
    ensures
        shared == entry_shares(codes@, j as int),
{
    let n = codes.len();
    let mut i: usize = 0;
    while i < n
        invariant
            i <= n,
            n == codes@.len(),
            j < n,
            forall|a: int, k: int| 0 <= a < i ==> !#[trigger] text_shared(codes@, a, k, j as int),
        decreases n - i,
    {
        if codes[i].data != codes[j].data {
            let m = codes[i].text.len();
            let mut k: usize = 0;
            while k < m
                invariant
                    k <= m,
                    i < n,
                    j < n,
                    n == codes@.len(),
                    m == codes@[i as int].text@.len(),
                    codes@[i as int].data != codes@[j as int].data,
                    forall|b: int| 0 <= b < k ==> !#[trigger] text_shared(codes@, i as int, b, j as int),
                decreases m - k,
            {
                if codes[i].text[k].as_str().unicode_len() > 0 && entry_has_text(
                    &codes[j],
                    &codes[i].text[k],
                ) {
                    assert(text_shared(codes@, i as int, k as int, j as int));
                    return true;
                }
                k += 1;
            }
        }
        i += 1;
    }
    false
}

/// Puts `word` among words that grow, unless it is there.
pub fn insert_word(words: &mut Vec<u16>, word: u16)
    requires
        words_grow(old(words)@),
    ensures
        words_grow(final(words)@),
        forall|w: u16| final(words)@.contains(w) <==> (old(words)@.contains(w) || w == word),
{
    let n = words.len();
    let mut at: usize = 0;
    while at < n && words[at] < word
        invariant
            at <= n,
            n == words@.len(),
            words@ == old(words)@,
            forall|a: int| 0 <= a < at ==> words@[a] < word,
        decreases n - at,
    {
        at += 1;
    }
    if at < n && words[at] == word {
        assert(old(words)@.contains(word));
        return ;
    }
    words.insert(at, word);
    proof {
        let before = old(words)@;
        let after = words@;
        assert(after == before.insert(at as int, word));
        assert forall|a: int, b: int| 0 <= a < b < after.len() implies after[a] < after[b] by {
            if b < at {
            } else if b == at {
            } else if a < at {
                assert(after[b] == before[b - 1]);
            } else if a == at {
                assert(after[b] == before[b - 1]);
                assert(before[at as int] <= before[b - 1]);
            } else {
                assert(after[a] == before[a - 1]);
                assert(after[b] == before[b - 1]);
            }
        }
        assert forall|w: u16| after.contains(w) <==> (before.contains(w) || w == word) by {
            if after.contains(w) {
                let a = choose|a: int| 0 <= a < after.len() && after[a] == w;
                if a < at {
                    assert(before[a] == w);
                } else if a > at {
                    assert(before[a - 1] == w);
                }
            }
            if before.contains(w) {
                let a = choose|a: int| 0 <= a < before.len() && before[a] == w;
                if a < at {
                    assert(after[a] == w);
                } else {
                    assert(after[a + 1] == w);
                }
            }
            if w == word {
                assert(after[at as int] == w);
            }
        }
    }
}

/// What is wrong with a table of codes.
pub fn check_char_codes(new_char_codes: &[CharEncoding]) -> (problems: CodeProblems)
    ensures
        words_grow(problems.codes@),
        forall|w: u16| problems.codes@.contains(w) <==> is_problem(new_char_codes@, w),
        problems.has_invalid == exists|j: int|
            0 <= j < new_char_codes@.len() && entry_invalid(#[trigger] new_char_codes@[j]),
        problems.has_duplicate == exists|j: int|
            0 <= j < new_char_codes@.len() && #[trigger] entry_shares(new_char_codes@, j),
{
    let mut codes: Vec<u16> = Vec::new();
    let mut has_duplicate = false;
    let mut has_invalid = false;
    let n = new_char_codes.len();
    let mut j: usize = 0;
    while j < n
        invariant
            j <= n,
            n == new_char_codes@.len(),
            words_grow(codes@),
            forall|w: u16|
                codes@.contains(w) <==> exists|a: int|
                    0 <= a < j && new_char_codes@[a].data == w && #[trigger] entry_fails(
                        new_char_codes@,
                        a,
                    ),
            has_invalid == exists|a: int| 0 <= a < j && entry_invalid(#[trigger] new_char_codes@[a]),
            has_duplicate == exists|a: int|
                0 <= a < j && #[trigger] entry_shares(new_char_codes@, a),
        decreases n - j,
    {
        let invalid = is_entry_invalid(&new_char_codes[j]);
        let shared = is_entry_shared(new_char_codes, j);
        let ghost before = codes@;
        if invalid || shared {
            insert_word(&mut codes, new_char_codes[j].data);
        }
        if invalid {
            has_invalid = true;
        }
        if shared {
            has_duplicate = true;
        }
        proof {
            assert(entry_fails(new_char_codes@, j as int) == (invalid || shared));
            assert forall|w: u16|
                codes@.contains(w) <==> exists|a: int|
                    0 <= a < j + 1 && new_char_codes@[a].data == w && #[trigger] entry_fails(
                        new_char_codes@,
                        a,
                    ) by {
                if before.contains(w) {
                    let a = choose|a: int|
                        0 <= a < j && new_char_codes@[a].data == w && #[trigger] entry_fails(
                            new_char_codes@,
                            a,
                        );
                    assert(0 <= a < j + 1);
                }
                if exists|a: int|
                    0 <= a < j + 1 && new_char_codes@[a].data == w && #[trigger] entry_fails(
                        new_char_codes@,
                        a,
                    ) {
                    let a = choose|a: int|
                        0 <= a < j + 1 && new_char_codes@[a].data == w && #[trigger] entry_fails(
                            new_char_codes@,
                            a,
                        );
                    if a < j {
                        assert(before.contains(w));
                    }
                }
            }
            if invalid {
                assert(entry_invalid(new_char_codes@[j as int]));
            }
        }
        j += 1;
    }
    CodeProblems { codes, has_duplicate, has_invalid }
}

/// Whether two entries have the same texts.
pub open spec fn same_texts(a: CharEncoding, b: CharEncoding) -> bool {
    a.text@.len() == b.text@.len() && forall|k: int|
        0 <= k < a.text@.len() ==> (#[trigger] a.text@[k])@ == b.text@[k]@
}

/// The last of the first `n` entries with the code `word`, if there is one.
pub open spec fn last_with(codes: Seq<CharEncoding>, word: u16, n: int) -> Option<int>
    decreases n,
{
    if n <= 0 {
        None
    } else if codes[n - 1].data == word {
        Some(n - 1)
    } else {
        last_with(codes, word, n - 1)
    }
}

/// Whether `entry` is `before` with the texts that `given` has for its code:
/// those of the last entry of `given` with that code, or its own where
/// there is none.
pub open spec fn entry_given(
    entry: CharEncoding,
    before: CharEncoding,
    given: Seq<CharEncoding>,
) -> bool {
    &&& entry.data == before.data
    &&& match last_with(given, before.data, given.len() as int) {
        Some(j) => same_texts(entry, given[j]),
        None => entry == before,
    }
}

/// The place of the last entry with the code `word`, if there is one.
pub fn find_last(codes: &[CharEncoding], word: u16) -> (found: Option<usize>)
    ensures
        match found {
            Some(j) => last_with(codes@, word, codes@.len() as int) == Some(j as int) && j
                < codes@.len(),
            None => last_with(codes@, word, codes@.len() as int) is None,
        },
{
    let mut n = codes.len();
    while n > 0
        invariant
            n <= codes@.len(),
            last_with(codes@, word, codes@.len() as int) == last_with(codes@, word, n as int),
        decreases n,
    {
        if codes[n - 1].data == word {
            return Some(n - 1);
        }
        n -= 1;
    }
    None
}

/// The texts of an entry, copied.
pub fn copy_texts(code: &CharEncoding) -> (text: Vec<String>)
    ensures
        text@.len() == code.text@.len(),
        forall|k: int| 0 <= k < text@.len() ==> (#[trigger] text@[k])@ == code.text@[k]@,
{
    let mut text: Vec<String> = Vec::new();
    let n = code.text.len();
    let mut k: usize = 0;
    while k < n
        invariant
            k <= n,
            n == code.text@.len(),
            text@.len() == k,
            forall|m: int| 0 <= m < k ==> (#[trigger] text@[m])@ == code.text@[m]@,
        decreases n - k,
    {
        text.push(code.text[k].clone());
        k += 1;
    }
    text
}

/// Gives the entries of the table the texts of `new_char_codes`, each entry
/// those given for its code, where nothing is wrong with what is given;
/// where something is, the table stays as it is. What is wrong is told
/// either way.
pub fn update_char_codes(char_codes: &mut Vec<CharEncoding>, new_char_codes: &[CharEncoding]) -> (problems:
    CodeProblems)
    ensures
        words_grow(problems.codes@),
        forall|w: u16| problems.codes@.contains(w) <==> is_problem(new_char_codes@, w),
        problems.has_invalid == exists|j: int|
            0 <= j < new_char_codes@.len() && entry_invalid(#[trigger] new_char_codes@[j]),
        problems.has_duplicate == exists|j: int|
            0 <= j < new_char_codes@.len() && #[trigger] entry_shares(new_char_codes@, j),
        final(char_codes)@.len() == old(char_codes)@.len(),
        problems.codes@.len() > 0 ==> final(char_codes)@ == old(char_codes)@,
        problems.codes@.len() == 0 ==> forall|i: int|
            0 <= i < old(char_codes)@.len() ==> entry_given(
                #[trigger] final(char_codes)@[i],
                old(char_codes)@[i],
                new_char_codes@,
            ),
{
    let problems = check_char_codes(new_char_codes);
    if problems.codes.len() > 0 {
        return problems;
    }
    let n = char_codes.len();
    let mut i: usize = 0;
    while i < n
        invariant
            i <= n,
            n == char_codes@.len(),
            n == old(char_codes)@.len(),
            forall|a: int|
                0 <= a < i ==> entry_given(
                    #[trigger] char_codes@[a],
                    old(char_codes)@[a],
                    new_char_codes@,
                ),
            forall|a: int| i <= a < n ==> char_codes@[a] == old(char_codes)@[a],
        decreases n - i,
    {
        match find_last(new_char_codes, char_codes[i].data) {
            Some(j) => {
                char_codes[i].text = copy_texts(&new_char_codes[j]);
            },
            None => {},
        }
        i += 1;
    }
    problems
}

/// The language of the table of the name given: Japanese for `jp`, English
/// for `en`, Latin for `latin`; a table of another name is one's own.
pub open spec fn language_of(name: Seq<char>) -> EncodingLanguage {
    if name == seq!['j', 'p'] {
        EncodingLanguage::Japanese
    } else if name == seq!['e', 'n'] {
        EncodingLanguage::English
    } else if name == seq!['l', 'a', 't', 'i', 'n'] {
        EncodingLanguage::Latin
    } else {
        EncodingLanguage::Custom
    }
}

/// The language of the table of the name given.
pub fn preset_language(name: &str) -> (language: EncodingLanguage)
    ensures
        language == language_of(name@),
{
    let chars = to_chars(name);
    proof {
        reveal_strlit("jp");
        reveal_strlit("en");
        reveal_strlit("latin");
        assert("jp"@ =~= seq!['j', 'p']);
        assert("en"@ =~= seq!['e', 'n']);
        assert("latin"@ =~= seq!['l', 'a', 't', 'i', 'n']);
    }
    if same_chars(chars.as_slice(), "jp") {
        EncodingLanguage::Japanese
    } else if same_chars(chars.as_slice(), "en") {
        EncodingLanguage::English
    } else if same_chars(chars.as_slice(), "latin") {
        EncodingLanguage::Latin
    } else {
        EncodingLanguage::Custom
    }
}

} // verus!
