//! Settings as lines of `key = value`.

use vstd::prelude::*;
use vstd::string::*;
use crate::strings::{
    find, find_from, from_chars, pieces, same_chars, split, to_chars, trim, trimmed,
};
use crate::text::push_char;

verus! {

/// One setting: a key and its value.
#[derive(Clone)]
pub struct IniProp {
    pub key: String,
    pub value: String,
}

/// `s` without the characters equal to `c`.
pub open spec fn without(s: Seq<char>, c: char) -> Seq<char>
    decreases s.len(),
{
    if s.len() == 0 {
        Seq::empty()
    } else if s.last() == c {
        without(s.drop_last(), c)
    } else {
        without(s.drop_last(), c).push(s.last())
    }
}

/// Whether a line is left out: one that begins with `;` or with `[`.
pub open spec fn is_comment(line: Seq<char>) -> bool {
    line.len() > 0 && (line[0] == ';' || line[0] == '[')
}

/// The place of the first `=` of a line, or the length of the line.
pub open spec fn equals_at(line: Seq<char>) -> int {
    find_from(line, seq!['='], 0)
}

/// Whether a line holds a setting: it is not left out and has a `=`.
pub open spec fn has_prop(line: Seq<char>) -> bool {
    !is_comment(line) && equals_at(line) < line.len()
}

/// The key of a line: what stands in front of the first `=`, trimmed.
pub open spec fn line_key(line: Seq<char>) -> Seq<char> {
    trimmed(line, 0, equals_at(line))
}

/// The value of a line: what stands behind the first `=`, trimmed and
/// without quotation marks.
pub open spec fn line_value(line: Seq<char>) -> Seq<char> {
    without(trimmed(line, equals_at(line) + 1, line.len() as int), '"')
}

/// The lines among `lines` that hold a setting.
pub open spec fn prop_lines(lines: Seq<Seq<char>>) -> Seq<Seq<char>>
    decreases lines.len(),
{
    if lines.len() == 0 {
        Seq::empty()
    } else if has_prop(lines.last()) {
        prop_lines(lines.drop_last()).push(lines.last())
    } else {
        prop_lines(lines.drop_last())
    }
}

/// The characters from `from` up to `to` without those equal to `c`.
fn remove(text: &[char], from: usize, to: usize, c: char) -> (s: String)
    requires
        from <= to <= text.len(),
    ensures
        s@ == without(text@.subrange(from as int, to as int), c),
{
    let mut s = String::new();
    let mut i: usize = from;
    assert(text@.subrange(from as int, from as int) =~= Seq::<char>::empty());
    while i < to
        invariant
            from <= i <= to <= text.len(),
            s@ == without(text@.subrange(from as int, i as int), c),
        decreases to - i,
    {
        proof {
            let next = text@.subrange(from as int, i + 1);
            assert(next.drop_last() =~= text@.subrange(from as int, i as int));
            assert(next.last() == text@[i as int]);
        }
        if text[i] != c {
            push_char(&mut s, text[i]);
        }
        i += 1;
    }
    s
}

/// The setting that a line holds, if it holds one.
fn read_line(line: &[char]) -> (prop: Option<IniProp>)
    ensures
        match prop {
            Some(prop) => has_prop(line@) && prop.key@ == line_key(line@) && prop.value@
                == line_value(line@),
            None => !has_prop(line@),
        },
{
    let n = line.len();
    if n > 0 && (line[0] == ';' || line[0] == '[') {
        return None;
    }
    let mut equals: Vec<char> = Vec::new();
    equals.push('=');
    assert(equals@ =~= seq!['=']);
    let at = find(line, equals.as_slice(), 0);
    if at >= n {
        return None;
    }
    let (key_from, key_to) = trim(line, 0, at);
    let (value_from, value_to) = trim(line, at + 1, n);
    Some(
        IniProp {
            key: from_chars(line, key_from, key_to),
            value: remove(line, value_from, value_to, '"'),
        },
    )
}

/// The settings of a file: one for each line that has a `=` and does not
/// begin with `;` or `[`.
pub fn read_ini_file(contents: &str) -> (props: Vec<IniProp>)
    ensures
        props@.len() == prop_lines(pieces(contents@, seq!['\n'], 0)).len(),
        forall|k: int|
            0 <= k < props@.len() ==> (#[trigger] props@[k]).key@ == line_key(
                prop_lines(pieces(contents@, seq!['\n'], 0))[k],
            ) && props@[k].value@ == line_value(prop_lines(pieces(contents@, seq!['\n'], 0))[k]),
{
    let chars = to_chars(contents);
    let mut newline: Vec<char> = Vec::new();
    newline.push('\n');
    assert(newline@ =~= seq!['\n']);
    let lines = split(chars.as_slice(), newline.as_slice());
    let ghost all = pieces(contents@, seq!['\n'], 0);
    let mut props: Vec<IniProp> = Vec::new();
    let n = lines.len();
    let mut i: usize = 0;
    assert(all.subrange(0, 0) =~= Seq::<Seq<char>>::empty());
    while i < n
        invariant
            i <= n,
            n == lines@.len(),
            n == all.len(),
            forall|k: int| 0 <= k < n ==> (#[trigger] lines@[k])@ == all[k],
            props@.len() == prop_lines(all.subrange(0, i as int)).len(),
            forall|k: int|
                0 <= k < props@.len() ==> (#[trigger] props@[k]).key@ == line_key(
                    prop_lines(all.subrange(0, i as int))[k],
                ) && props@[k].value@ == line_value(prop_lines(all.subrange(0, i as int))[k]),
        decreases n - i,
    {
        let line = to_chars(lines[i].as_str());
        proof {
            let next = all.subrange(0, i + 1);
            assert(next.drop_last() =~= all.subrange(0, i as int));
            assert(next.last() == all[i as int]);
            assert(line@ == all[i as int]);
        }
        match read_line(line.as_slice()) {
            Some(prop) => {
                props.push(prop);
            },
            None => {},
        }
        i += 1;
    }
    assert(all.subrange(0, n as int) =~= all);
    props
}

/// The settings of the window.
pub struct Settings {
    pub theme: String,
    pub show_toolbar: bool,
}

/// The text of the settings: a line for the theme and one for the toolbar.
pub open spec fn settings_text(theme: Seq<char>, show_toolbar: bool) -> Seq<char> {
    "theme = "@ + theme + "\nshow_toolbar = "@ + if show_toolbar {
        "true"@
    } else {
        "false"@
    }
}

/// The text of the settings, as it is kept in a file.
pub fn save_settings(settings: &Settings) -> (contents: String)
    ensures
        contents@ == settings_text(settings.theme@, settings.show_toolbar),
{
    let mut contents = "theme = ".to_owned();
    contents.append(settings.theme.as_str());
    contents.append("\nshow_toolbar = ");
    if settings.show_toolbar {
        contents.append("true");
    } else {
        contents.append("false");
    }
    contents
}

/// What a property asks for: a theme, the toolbar shown or not, or nothing
/// that is known.
pub enum Setting {
    Theme(String),
    ShowToolbar(bool),
    Unknown,
}

/// Whether `setting` is what the property asks for: the theme of its value
/// for the key `theme`; for the key `show_toolbar` the toolbar, which shows
/// for the value `true`; nothing for another key.
pub open spec fn setting_is(setting: Setting, prop: IniProp) -> bool {
    if prop.key@ == "theme"@ {
        setting matches Setting::Theme(theme) && theme@ == prop.value@
    } else if prop.key@ == "show_toolbar"@ {
        setting == Setting::ShowToolbar(prop.value@ == "true"@)
    } else {
        setting is Unknown
    }
}

/// What a property asks for.
pub fn setting_of(prop: &IniProp) -> (setting: Setting)
    ensures
        setting_is(setting, *prop),
{
    let key = to_chars(prop.key.as_str());
    if same_chars(key.as_slice(), "theme") {
        Setting::Theme(prop.value.clone())
    } else if same_chars(key.as_slice(), "show_toolbar") {
        let value = to_chars(prop.value.as_str());
        Setting::ShowToolbar(same_chars(value.as_slice(), "true"))
    } else {
        Setting::Unknown
    }
}

} // verus!
