use smarty_pants::config::{read_ini_file, save_settings, setting_of, IniProp, Setting, Settings};
use smarty_pants::data_pack::character::{Character, CharacterType, Gender};
use smarty_pants::data_pack::item::{Item, ItemType};
use smarty_pants::data_pack::tamastring::TamaString;
use smarty_pants::data_pack::{DataPack, EntityId};
use smarty_pants::export::string_lines;
use smarty_pants::import::{
    add_string, section, ImportedString, StringImport, StringType, TamaStringTranslation,
};
use smarty_pants::strings::{decimal, find, parse_u16, split, trim};
use smarty_pants::text::{CharEncoding, Text};

fn chars(s: &str) -> Vec<char> {
    s.chars().collect()
}

fn codes() -> Vec<CharEncoding> {
    (0..=256u16)
        .map(|i| {
            let text = if i < 26 { ((b'a' + i as u8) as char).to_string() } else { String::new() };
            CharEncoding::new(i, vec![text])
        })
        .collect()
}

fn text(s: &str) -> Text {
    Text::from_string(&codes(), s)
}

#[test]
fn strings_are_cut_at_marks() {
    assert_eq!(split(&chars("a<br>b<br><br>c"), &chars("<br>")), vec!["a", "b", "", "c"]);
    assert_eq!(split(&chars(""), &chars("<br>")), vec![""]);
    assert_eq!(split(&chars("<br>"), &chars("<br>")), vec!["", ""]);
    assert_eq!(split(&chars("a<b<br"), &chars("<br>")), vec!["a<b<br"]);
    assert_eq!(split(&chars("aaa"), &chars("aa")), vec!["", "a"]);
    assert_eq!(find(&chars("abcabc"), &chars("ca"), 0), 2);
    assert_eq!(find(&chars("abcabc"), &chars("ca"), 3), 6);
    assert_eq!(find(&chars("abc"), &chars(""), 1), 1);
}

#[test]
fn strings_are_trimmed() {
    let line = chars("  key \t= v ");
    assert_eq!(trim(&line, 0, 7), (2, 5));
    assert_eq!(trim(&line, 8, 11), (9, 10));
    assert_eq!(trim(&chars(" \u{a0}\u{3000} "), 0, 4), (4, 4));
}

#[test]
fn numbers_and_their_digits() {
    assert_eq!(decimal(0), "0");
    assert_eq!(decimal(7), "7");
    assert_eq!(decimal(1234567890), "1234567890");
    assert_eq!(parse_u16(&chars("0")), Some(0));
    assert_eq!(parse_u16(&chars("+17")), Some(17));
    assert_eq!(parse_u16(&chars("65535")), Some(65535));
    assert_eq!(parse_u16(&chars("65536")), None);
    assert_eq!(parse_u16(&chars("000012")), Some(12));
    assert_eq!(parse_u16(&chars("")), None);
    assert_eq!(parse_u16(&chars("+")), None);
    assert_eq!(parse_u16(&chars("-1")), None);
    assert_eq!(parse_u16(&chars("1 ")), None);
    assert_eq!(parse_u16(&chars("12a")), None);
    for s in ["7", "+7", "65535", "65536", "99999999999", "x", "", "+", "١"] {
        assert_eq!(parse_u16(&chars(s)), s.parse::<u16>().ok());
    }
}

#[test]
fn settings_are_read_line_by_line() {
    let props = read_ini_file(
        "; comment = no\n[section]\ntheme = \"dark\" \n show_toolbar=true\nnothing\n a = b = \"c\"\n=x",
    );
    let found: Vec<(&str, &str)> =
        props.iter().map(|p| (p.key.as_str(), p.value.as_str())).collect();
    assert_eq!(
        found,
        vec![("theme", "dark"), ("show_toolbar", "true"), ("a", "b = c"), ("", "x")]
    );
    assert!(read_ini_file("").is_empty());
}

fn data_pack() -> DataPack {
    let id = EntityId { card_id: None, entity_id: 1 };
    DataPack {
        table1: vec![],
        particle_emitters: vec![],
        scenes: vec![],
        tamastrings: vec![
            TamaString { id, unknown1: 1, unknown2: 2, unknown3: 3, value: text("ab<br>c<hr>d") },
            TamaString { id, unknown1: 0, unknown2: 0, unknown3: 0, value: text("") },
        ],
        table9: vec![],
        items: vec![Item {
            id,
            item_type: ItemType::Meal,
            name: text("cake"),
            image_id: None,
            worn_image_id: None,
            close_image_id: None,
            animation_id: None,
            price: 5,
            unknown1: 0,
            unknown2: 0,
            unknown3: 0,
            unlocked_character: None,
            game_type: None,
        }],
        characters: vec![Character {
            id,
            character_type: CharacterType::Adult,
            name: text("bob"),
            profile_image_id: id,
            icon_image_id: id,
            composition_id: id,
            unknown1: id,
            pronoun: text("he"),
            statement: text("a"),
            question1: text("b"),
            question2: text("c"),
            unknown2: 0,
            unknown3: 0,
            global_id: id,
            unknown4: 0,
            unknown5: 0,
            unknown6: 0,
            unknown7: 0,
            gender: Gender::Male,
        }],
        graphics_nodes: vec![],
        frame_groups: vec![],
        card_id: 9,
    }
}

fn rows(menu: Option<&[Text]>, pack: Option<&DataPack>) -> Vec<(String, String, String)> {
    string_lines(menu, pack).into_iter().map(|l| (l.id, l.field, l.text)).collect()
}

fn row(id: &str, field: &str, text: &str) -> (String, String, String) {
    (id.to_string(), field.to_string(), text.to_string())
}

#[test]
fn strings_as_rows_of_a_table() {
    let menu = vec![text("ok"), text("a<hr>b")];
    let pack = data_pack();
    let blank = row("", "", "");
    assert_eq!(
        rows(Some(&menu), Some(&pack)),
        vec![
            row("ID", "Field", "Original Text"),
            blank.clone(),
            row("MENUS", "", ""),
            blank.clone(),
            row("0", "", "ok"),
            blank.clone(),
            blank.clone(),
            row("1", "", "a"),
            blank.clone(),
            row("", "", "b"),
            blank.clone(),
            blank.clone(),
            blank.clone(),
            row("STRINGS", "", ""),
            blank.clone(),
            row("0", "", "ab"),
            row("", "", "c"),
            blank.clone(),
            row("", "", "d"),
            blank.clone(),
            blank.clone(),
            row("1", "", ""),
            blank.clone(),
            blank.clone(),
            blank.clone(),
            row("ITEMS", "", ""),
            blank.clone(),
            row("0", "Name:", "cake"),
            blank.clone(),
            blank.clone(),
            row("CHARACTERS", "", ""),
            blank.clone(),
            row("0", "Name:", "bob"),
            row("", "Pronoun:", "he"),
            row("", "Statement Ending:", "a"),
            row("", "Question Ending 1:", "b"),
            row("", "Question Ending 2:", "c"),
            blank.clone(),
        ]
    );
    assert_eq!(rows(None, None), vec![row("ID", "Field", "Original Text")]);
}

#[test]
fn rows_are_put_together_into_strings() {
    let translation = TamaStringTranslation::new(4);
    assert_eq!((translation.id, translation.value.as_str(), translation.line_count), (4, "", 0));

    let mut import = StringImport::new();
    let mut found = Vec::new();
    let table: Vec<(&str, Option<&str>)> = vec![
        ("ID", Some("Original Text")),
        ("", Some("")),
        ("menus", Some("")),
        ("", Some("")),
        ("0", Some("ok")),
        ("", Some("")),
        ("1", Some("a")),
        ("", Some("")),
        ("", Some("b")),
        ("", Some("c")),
        ("", None),
        ("Strings", None),
        ("3", Some("x")),
        ("", Some("y")),
        ("characters", Some("")),
        ("0", Some("bob")),
        ("", Some("he")),
    ];
    for (id, line) in table {
        if let Some(string) = import.next_record(id, line) {
            found.push((string.string_type, string.id, string.value));
        }
    }
    let last = import.finish();
    found.push((last.string_type, last.id, last.value));
    assert_eq!(
        found,
        vec![
            (StringType::Unknown, 0, "".to_string()),
            (StringType::Unknown, 0, "".to_string()),
            (StringType::Unknown, 0, "".to_string()),
            (StringType::Menu, 0, "".to_string()),
            (StringType::Menu, 0, "ok".to_string()),
            (StringType::Menu, 1, "a<hr>b<br>c".to_string()),
            (StringType::Dialog, 1, "a<hr>b<br>c".to_string()),
            (StringType::Dialog, 3, "x<br>y".to_string()),
            (StringType::Character, 0, "bob<br>he".to_string()),
        ]
    );
}

#[test]
fn strings_go_into_their_records() {
    let codes = codes();
    let mut menu = vec![text("a"), text("b")];
    let mut pack = data_pack();
    let put = |string_type, id, value: &str, menu: &mut Vec<Text>, pack: &mut DataPack| {
        add_string(
            &codes,
            &ImportedString { string_type, id, value: value.to_string() },
            menu,
            pack,
        )
    };
    put(StringType::Menu, 1, "cab", &mut menu, &mut pack);
    assert_eq!((menu[1].string.as_str(), menu[1].data.clone()), ("cab", vec![2, 0, 1]));
    assert_eq!(menu[0].string, "a");
    put(StringType::Menu, 2, "zzz", &mut menu, &mut pack);
    assert_eq!(menu.len(), 2);
    put(StringType::Dialog, 0, "dd", &mut menu, &mut pack);
    assert_eq!(pack.tamastrings[0].value.data, vec![3, 3]);
    assert_eq!(pack.tamastrings[0].unknown3, 3);
    put(StringType::Item, 0, "pie", &mut menu, &mut pack);
    assert_eq!(pack.items[0].name.string, "pie");
    assert_eq!(pack.items[0].price, 5);
    put(StringType::Character, 0, "amy<br>she<br><br>q", &mut menu, &mut pack);
    let c = &pack.characters[0];
    assert_eq!(
        (
            c.name.string.as_str(),
            c.pronoun.string.as_str(),
            c.statement.string.as_str(),
            c.question1.string.as_str(),
            c.question2.string.as_str()
        ),
        ("amy", "she", "", "q", "")
    );
    assert_eq!(c.gender, Gender::Male);
    put(StringType::Unknown, 0, "no", &mut menu, &mut pack);
    assert_eq!(pack.items[0].name.string, "pie");
}

#[test]
fn section_names_begin_parts() {
    assert!(section("MENUS", StringType::Unknown) == StringType::Menu);
    assert!(section("DIALOG", StringType::Menu) == StringType::Dialog);
    assert!(section("STRINGS", StringType::Menu) == StringType::Dialog);
    assert!(section("ITEMS", StringType::Dialog) == StringType::Item);
    assert!(section("CHARACTERS", StringType::Item) == StringType::Character);
    assert!(section("menus", StringType::Item) == StringType::Item);
    assert!(section("12", StringType::Character) == StringType::Character);
}

#[test]
fn trim_marked_skips_marks_at_both_ends() {
    let marks = [true, true, false, true, false, true];
    assert_eq!(smarty_pants::strings::trim_marked(&marks, 0, 6), (2, 5));
    assert_eq!(smarty_pants::strings::trim_marked(&marks, 3, 4), (4, 4));
    assert_eq!(smarty_pants::strings::trim_marked(&marks, 2, 3), (2, 3));
    assert_eq!(smarty_pants::strings::trim_marked(&marks, 0, 0), (0, 0));
}

#[test]
fn settings_are_written_and_read_again() {
    let contents = save_settings(&Settings { theme: "dark".to_string(), show_toolbar: false });
    assert_eq!(contents, "theme = dark\nshow_toolbar = false");
    let contents = save_settings(&Settings { theme: String::new(), show_toolbar: true });
    assert_eq!(contents, "theme = \nshow_toolbar = true");

    let props = read_ini_file("theme = dark\nshow_toolbar = false");
    assert!(matches!(setting_of(&props[0]), Setting::Theme(theme) if theme == "dark"));
    assert!(matches!(setting_of(&props[1]), Setting::ShowToolbar(false)));
    let prop = |key: &str, value: &str| IniProp { key: key.to_string(), value: value.to_string() };
    assert!(matches!(setting_of(&prop("show_toolbar", "true")), Setting::ShowToolbar(true)));
    assert!(matches!(setting_of(&prop("show_toolbar", "TRUE")), Setting::ShowToolbar(false)));
    assert!(matches!(setting_of(&prop("Theme", "x")), Setting::Unknown));
    assert!(matches!(setting_of(&prop("", "")), Setting::Unknown));
}
