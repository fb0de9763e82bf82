//! The strings of the records as the rows of a table, to be translated.

use vstd::prelude::*;
use vstd::string::*;
use crate::data_pack::DataPack;
use crate::data_pack::character::Character;
use crate::data_pack::item::Item;
use crate::data_pack::tamastring::TamaString;
use crate::import::{line_break, page_break};
use crate::strings::{decimal, decimal_of, pieces, split, to_chars};
use crate::text::Text;

verus! {

/// A row of the table: the number of a record, the name of a field, and a
/// line of text.
#[derive(Clone, Debug)]
pub struct StringLine {
    pub id: String,
    pub field: String,
    pub text: String,
}

/// A row as plain values.
pub struct LineView {
    pub id: Seq<char>,
    pub field: Seq<char>,
    pub text: Seq<char>,
}

impl View for StringLine {
    type V = LineView;

    open spec fn view(&self) -> LineView {
        LineView { id: self.id@, field: self.field@, text: self.text@ }
    }
}

/// The views of rows.
pub open spec fn line_views(lines: Seq<StringLine>) -> Seq<LineView> {
    Seq::new(lines.len(), |k: int| lines[k]@)
}

/// An empty row.
pub open spec fn blank() -> LineView {
    LineView { id: Seq::empty(), field: Seq::empty(), text: Seq::empty() }
}

/// The row that begins a part of the table.
pub open spec fn title(name: Seq<char>) -> LineView {
    LineView { id: name, field: Seq::empty(), text: Seq::empty() }
}

/// The rows of a page: one for each line, the first with the number `id`,
/// and an empty row.
pub open spec fn page_rows(lines: Seq<Seq<char>>, id: Seq<char>) -> Seq<LineView> {
    Seq::new(
        lines.len(),
        |k: int|
            LineView {
                id: if k == 0 {
                    id
                } else {
                    Seq::empty()
                },
                field: Seq::empty(),
                text: lines[k],
            },
    ).push(blank())
}

/// The rows of the first `n` pages of a string, where the first row has the
/// number `id`.
pub open spec fn pages_rows(pages: Seq<Seq<char>>, id: Seq<char>, n: int) -> Seq<LineView>
    decreases n,
{
    if n <= 0 {
        Seq::empty()
    } else {
        pages_rows(pages, id, n - 1) + page_rows(
            pieces(pages[n - 1], line_break(), 0),
            if n == 1 {
                id
            } else {
                Seq::empty()
            },
        )
    }
}

/// The rows of string `i`: those of its pages, and an empty row.
pub open spec fn string_rows(text: Seq<char>, i: nat) -> Seq<LineView> {
    let pages = pieces(text, page_break(), 0);
    pages_rows(pages, decimal_of(i), pages.len() as int).push(blank())
}

/// The rows of the first `n` strings.
pub open spec fn strings_rows(texts: Seq<Seq<char>>, n: int) -> Seq<LineView>
    decreases n,
{
    if n <= 0 {
        Seq::empty()
    } else {
        strings_rows(texts, n - 1) + string_rows(texts[n - 1], (n - 1) as nat)
    }
}

/// The rows that begin the part of the table named `name`.
pub open spec fn heading(name: Seq<char>) -> Seq<LineView> {
    seq![blank(), title(name), blank()]
}

/// The rows of the first `n` items: the name of each, and an empty row.
pub open spec fn items_rows(items: Seq<Item>, n: int) -> Seq<LineView>
    decreases n,
{
    if n <= 0 {
        Seq::empty()
    } else {
        items_rows(items, n - 1) + seq![
            LineView {
                id: decimal_of((n - 1) as nat),
                field: "Name:"@,
                text: items[n - 1].name.string@,
            },
            blank(),
        ]
    }
}

/// The rows of the first `n` characters: five texts of each, and an empty
/// row.
pub open spec fn characters_rows(characters: Seq<Character>, n: int) -> Seq<LineView>
    decreases n,
{
    if n <= 0 {
        Seq::empty()
    } else {
        let c = characters[n - 1];
        characters_rows(characters, n - 1) + seq![
            LineView { id: decimal_of((n - 1) as nat), field: "Name:"@, text: c.name.string@ },
            LineView { id: Seq::empty(), field: "Pronoun:"@, text: c.pronoun.string@ },
            LineView { id: Seq::empty(), field: "Statement Ending:"@, text: c.statement.string@ },
            LineView { id: Seq::empty(), field: "Question Ending 1:"@, text: c.question1.string@ },
            LineView { id: Seq::empty(), field: "Question Ending 2:"@, text: c.question2.string@ },
            blank(),
        ]
    }
}

/// The strings that texts read as.
pub open spec fn text_strings(texts: Seq<Text>) -> Seq<Seq<char>> {
    Seq::new(texts.len(), |k: int| texts[k].string@)
}

/// The strings of the strings of dialogue.
pub open spec fn dialogue_strings(strings: Seq<TamaString>) -> Seq<Seq<char>> {
    Seq::new(strings.len(), |k: int| strings[k].value.string@)
}

/// The rows of the strings of the menus.
pub open spec fn menu_rows(menu_strings: Seq<Text>) -> Seq<LineView> {
    heading("MENUS"@) + strings_rows(text_strings(menu_strings), menu_strings.len() as int)
}

/// The rows of a data pack: its strings, its items and its characters.
pub open spec fn data_pack_rows(data_pack: DataPack) -> Seq<LineView> {
    heading("STRINGS"@) + strings_rows(
        dialogue_strings(data_pack.tamastrings@),
        data_pack.tamastrings@.len() as int,
    ) + heading("ITEMS"@) + items_rows(data_pack.items@, data_pack.items@.len() as int) + heading(
        "CHARACTERS"@,
    ) + characters_rows(data_pack.characters@, data_pack.characters@.len() as int)
}

/// The rows of the whole table.
pub open spec fn table_rows(menu_strings: Option<Seq<Text>>, data_pack: Option<DataPack>) -> Seq<
    LineView,
> {
    seq![LineView { id: "ID"@, field: "Field"@, text: "Original Text"@ }] + (match menu_strings {
        Some(strings) => menu_rows(strings),
        None => Seq::empty(),
    }) + (match data_pack {
        Some(pack) => data_pack_rows(pack),
        None => Seq::empty(),
    })
}

fn push_line(lines: &mut Vec<StringLine>, id: String, field: &str, text: &str)
    ensures
        line_views(final(lines)@) == line_views(old(lines)@).push(
            LineView { id: id@, field: field@, text: text@ },
        ),
{
    lines.push(StringLine { id, field: field.to_owned(), text: text.to_owned() });
    assert(line_views(lines@) =~= line_views(old(lines)@).push(
        LineView { id: id@, field: field@, text: text@ },
    ));
}

fn push_blank(lines: &mut Vec<StringLine>)
    ensures
        line_views(final(lines)@) == line_views(old(lines)@).push(blank()),
{
    lines.push(StringLine { id: String::new(), field: String::new(), text: String::new() });
    assert(line_views(lines@) =~= line_views(old(lines)@).push(blank()));
}

fn push_heading(lines: &mut Vec<StringLine>, name: &str)
    ensures
        line_views(final(lines)@) == line_views(old(lines)@) + heading(name@),
{
    push_blank(lines);
    lines.push(StringLine { id: name.to_owned(), field: String::new(), text: String::new() });
    assert(line_views(lines@) =~= line_views(old(lines)@).push(blank()).push(title(name@)));
    push_blank(lines);
    assert(line_views(lines@) =~= line_views(old(lines)@) + heading(name@));
}

/// Appends the rows of string `i`.
fn push_string(lines: &mut Vec<StringLine>, text: &str, i: usize)
    ensures
        line_views(final(lines)@) == line_views(old(lines)@) + string_rows(text@, i as nat),
{
    let chars = to_chars(text);
    let page_mark = ['<', 'h', 'r', '>'];
    let line_mark = ['<', 'b', 'r', '>'];
    assert(page_mark@ =~= page_break());
    assert(line_mark@ =~= line_break());
    let pages = split(chars.as_slice(), page_mark.as_slice());
    let ghost all = pieces(text@, page_break(), 0);
    let ghost start = line_views(lines@);
    let n = pages.len();
    let mut p: usize = 0;
    assert(line_views(lines@) =~= start + pages_rows(all, decimal_of(i as nat), 0));
    while p < n
        invariant
            p <= n,
            n == pages@.len(),
            n == all.len(),
            forall|k: int| 0 <= k < n ==> (#[trigger] pages@[k])@ == all[k],
            line_mark@ == line_break(),
            line_views(lines@) == start + pages_rows(all, decimal_of(i as nat), p as int),
        decreases n - p,
    {
        let page = to_chars(pages[p].as_str());
        assert(pages@[p as int]@ == all[p as int]);
        let texts = split(page.as_slice(), line_mark.as_slice());
        let ghost rows = pieces(all[p as int], line_break(), 0);
        let ghost id: Seq<char> = if p == 0 {
            decimal_of(i as nat)
        } else {
            Seq::empty()
        };
        let ghost before = line_views(lines@);
        let m = texts.len();
        let mut k: usize = 0;
        while k < m
            invariant
                k <= m,
                m == texts@.len(),
                m == rows.len(),
                forall|j: int| 0 <= j < m ==> (#[trigger] texts@[j])@ == rows[j],
                line_mark@ == line_break(),
                id == if p == 0 {
                    decimal_of(i as nat)
                } else {
                    Seq::<char>::empty()
                },
                line_views(lines@) == before + page_rows(rows, id).subrange(0, k as int),
            decreases m - k,
        {
            let number = if p == 0 && k == 0 {
                decimal(i)
            } else {
                String::new()
            };
            let none = String::new();
            push_line(lines, number, none.as_str(), texts[k].as_str());
            k += 1;
            assert(line_views(lines@) =~= before + page_rows(rows, id).subrange(0, k as int));
        }
        push_blank(lines);
        proof {
            assert(page_rows(rows, id).subrange(0, m + 1) =~= page_rows(rows, id));
            assert(line_views(lines@) =~= before + page_rows(rows, id));
        }
        p += 1;
    }
    push_blank(lines);
    assert(line_views(lines@) =~= start + string_rows(text@, i as nat));
}

/// The rows of the table of the strings: a row of names, then the strings
/// of the menus, and those of the data pack; each string page by page and
/// line by line. A string is cut into pages and lines at the marks `<hr>` and
/// `<br>`.
pub fn string_lines(menu_strings: Option<&[Text]>, data_pack: Option<&DataPack>) -> (lines: Vec<
    StringLine,
>)
    ensures
        line_views(lines@) == table_rows(
            match menu_strings {
                Some(strings) => Some(strings@),
                None => None,
            },
            match data_pack {
                Some(pack) => Some(*pack),
                None => None,
            },
        ),
{
    let mut lines: Vec<StringLine> = Vec::new();
    push_line(&mut lines, "ID".to_owned(), "Field", "Original Text");
    assert(line_views(lines@) =~= seq![
        LineView { id: "ID"@, field: "Field"@, text: "Original Text"@ },
    ]);
    let ghost head = line_views(lines@);
    match menu_strings {
        Some(strings) => {
            push_heading(&mut lines, "MENUS");
            let ghost texts = text_strings(strings@);
            let ghost start = line_views(lines@);
            let n = strings.len();
            let mut i: usize = 0;
            assert(line_views(lines@) =~= start + strings_rows(texts, 0));
            while i < n
                invariant
                    i <= n,
                    n == strings@.len(),
                    texts == text_strings(strings@),
                    line_views(lines@) == start + strings_rows(texts, i as int),
                decreases n - i,
            {
                push_string(&mut lines, strings[i].string.as_str(), i);
                i += 1;
                assert(line_views(lines@) =~= start + strings_rows(texts, i as int));
            }
            assert(line_views(lines@) =~= head + menu_rows(strings@));
        },
        None => {
            assert(line_views(lines@) =~= head + Seq::<LineView>::empty());
        },
    }
    let ghost upper = line_views(lines@);
    match data_pack {
        Some(pack) => {
            push_heading(&mut lines, "STRINGS");
            let ghost texts = dialogue_strings(pack.tamastrings@);
            let ghost start = line_views(lines@);
            let n = pack.tamastrings.len();
            let mut i: usize = 0;
            assert(line_views(lines@) =~= start + strings_rows(texts, 0));
            while i < n
                invariant
                    i <= n,
                    n == pack.tamastrings@.len(),
                    texts == dialogue_strings(pack.tamastrings@),
                    line_views(lines@) == start + strings_rows(texts, i as int),
                decreases n - i,
            {
                push_string(&mut lines, pack.tamastrings[i].value.string.as_str(), i);
                i += 1;
                assert(line_views(lines@) =~= start + strings_rows(texts, i as int));
            }
            push_heading(&mut lines, "ITEMS");
            let ghost start = line_views(lines@);
            let n = pack.items.len();
            let mut i: usize = 0;
            assert(line_views(lines@) =~= start + items_rows(pack.items@, 0));
            while i < n
                invariant
                    i <= n,
                    n == pack.items@.len(),
                    line_views(lines@) == start + items_rows(pack.items@, i as int),
                decreases n - i,
            {
                push_line(&mut lines, decimal(i), "Name:", pack.items[i].name.string.as_str());
                push_blank(&mut lines);
                i += 1;
                assert(line_views(lines@) =~= start + items_rows(pack.items@, i as int));
            }
            push_heading(&mut lines, "CHARACTERS");
            let ghost start = line_views(lines@);
            let n = pack.characters.len();
            let mut i: usize = 0;
            assert(line_views(lines@) =~= start + characters_rows(pack.characters@, 0));
            while i < n
                invariant
                    i <= n,
                    n == pack.characters@.len(),
                    line_views(lines@) == start + characters_rows(pack.characters@, i as int),
                decreases n - i,
            {
                let c = &pack.characters[i];
                push_line(&mut lines, decimal(i), "Name:", c.name.string.as_str());
                push_line(&mut lines, String::new(), "Pronoun:", c.pronoun.string.as_str());
                push_line(
                    &mut lines,
                    String::new(),
                    "Statement Ending:",
                    c.statement.string.as_str(),
                );
                push_line(
                    &mut lines,
                    String::new(),
                    "Question Ending 1:",
                    c.question1.string.as_str(),
                );
                push_line(
                    &mut lines,
                    String::new(),
                    "Question Ending 2:",
                    c.question2.string.as_str(),
                );
                push_blank(&mut lines);
                i += 1;
                assert(line_views(lines@) =~= start + characters_rows(pack.characters@, i as int));
            }
            assert(line_views(lines@) =~= upper + data_pack_rows(*pack));
        },
        None => {
            assert(line_views(lines@) =~= upper + Seq::<LineView>::empty());
        },
    }
    lines
}

} // verus!
