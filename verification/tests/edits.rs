use smarty_pants::data_pack::character::{Character, CharacterType, Gender};
use smarty_pants::data_pack::frame::{Frame, FrameGroup, FrameLayer};
use smarty_pants::data_pack::item::{GameType, Item, ItemType};
use smarty_pants::data_pack::scene::{Scene, SceneLayer};
use smarty_pants::data_pack::tamastring::TamaString;
use smarty_pants::data_pack::{DataPack, EntityId};
use smarty_pants::edit::{
    copy_frame, re_decode_strings, re_decode_texts, update_character, update_frame,
    update_image_set, update_item, update_menu_string, update_scene_layer, update_tamastring,
};
use smarty_pants::error::{Error, ErrorKind};
use smarty_pants::import::{image_index_of, image_index_of_digits};
use smarty_pants::request::{image_request_of, image_request_of_parts, ImageRequest};
use smarty_pants::sprite_pack::image_def::{ImageSet, SubImage};
use smarty_pants::sprite_pack::palette::Color;
use smarty_pants::sprite_pack::raster::{load_font, spritesheet_to_images, Raster};
use smarty_pants::strings::{parse_index, same_chars};
use smarty_pants::text::defaults::{get_default_char_codes, DEFAULT_CODES};
use smarty_pants::text::table::{
    check_char_codes, copy_texts, entry_has_text, find_last, insert_word, is_entry_invalid,
    is_entry_shared, is_text_valid, preset_language, update_char_codes,
};
use smarty_pants::text::{
    decode_string, encode_string, same_words, validate_string, word_to_char_code, CharEncoding,
    EncodingLanguage, Text,
};

fn entry(data: u16, texts: &[&str]) -> CharEncoding {
    CharEncoding::new(data, texts.iter().map(|t| t.to_string()).collect())
}

fn codes() -> Vec<CharEncoding> {
    (0..=256u16)
        .map(|i| {
            let text = if i < 26 { ((b'a' + i as u8) as char).to_string() } else { String::new() };
            CharEncoding::new(i, vec![text])
        })
        .collect()
}

fn upper_codes() -> Vec<CharEncoding> {
    (0..=256u16)
        .map(|i| {
            let text = if i < 26 { ((b'A' + i as u8) as char).to_string() } else { String::new() };
            CharEncoding::new(i, vec![text])
        })
        .collect()
}

fn text(s: &str) -> Text {
    Text::from_string(&codes(), s)
}

fn id(n: u16) -> EntityId {
    EntityId { card_id: None, entity_id: n }
}

fn item(name: &str, price: u16) -> Item {
    Item {
        id: id(1),
        item_type: ItemType::Meal,
        name: text(name),
        image_id: None,
        worn_image_id: None,
        close_image_id: None,
        animation_id: None,
        price,
        unknown1: 0,
        unknown2: 0,
        unknown3: 0,
        unlocked_character: None,
        game_type: None,
    }
}

fn character(name: &str) -> Character {
    Character {
        id: id(1),
        character_type: CharacterType::Adult,
        name: text(name),
        profile_image_id: id(2),
        icon_image_id: id(3),
        composition_id: id(4),
        unknown1: id(5),
        pronoun: text("he"),
        statement: text("a"),
        question1: text("b"),
        question2: text("c"),
        unknown2: 0,
        unknown3: 0,
        global_id: id(6),
        unknown4: 0,
        unknown5: 0,
        unknown6: 0,
        unknown7: 0,
        gender: Gender::Male,
    }
}

fn layer(x: Option<i16>) -> SceneLayer {
    SceneLayer {
        x,
        y: None,
        image_id: None,
        subimage_index: None,
        unknown1: None,
        unknown2: None,
        unknown3: None,
        unknown4: None,
        unknown5: None,
        unknown6: None,
        unknown7: None,
        unknown8: None,
        flag1: false,
        flag2: false,
        flag3: false,
        flag4: false,
    }
}

#[test]
fn a_string_is_valid_where_it_reads_as_its_codes() {
    let table = codes();
    assert_eq!(validate_string(&table, "abc", 3), (true, "abc".to_string()));
    assert_eq!(validate_string(&table, "abc", 2), (false, "abc".to_string()));
    assert_eq!(validate_string(&table, "", 0), (true, String::new()));
    let (valid, shown) = validate_string(&table, "a?b", 8);
    assert_eq!(shown, encode_string(&table, &decode_string(&table, "a?b")));
    assert_eq!(
        valid,
        decode_string(&table, "a?b") == decode_string(&table, &shown)
            && decode_string(&table, &shown).len() <= 8
    );
    assert!(same_words(&[1, 2, 3], &[1, 2, 3]));
    assert!(!same_words(&[1, 2, 3], &[1, 2]));
    assert!(!same_words(&[1, 2, 3], &[1, 2, 4]));
    assert!(same_words(&[], &[]));
}

#[test]
fn the_default_table_has_each_code_at_its_place() {
    let table = get_default_char_codes();
    assert_eq!(table.len(), DEFAULT_CODES);
    assert_eq!(table.len(), 268);
    for (i, code) in table.iter().enumerate() {
        let expected = if i <= 256 { i } else { 0xF000 + (i - 257) };
        assert_eq!(code.data as usize, expected);
        assert!(!code.text.is_empty());
        assert_eq!(word_to_char_code(&table, code.data), Some(code.text[0].clone()));
    }
    assert_eq!(table[0].text, vec!["█"]);
    assert_eq!(table[1].text, vec!["\u{2003}", " "]);
    assert_eq!(table[2].text, vec!["０", "0"]);
    assert_eq!(table[267].data, 61450);
}

#[test]
fn texts_of_one_character_or_a_name_in_braces_are_valid() {
    assert!(is_text_valid(""));
    assert!(is_text_valid("a"));
    assert!(is_text_valid("あ"));
    assert!(is_text_valid("{heart}"));
    assert!(is_text_valid("{}"));
    assert!(!is_text_valid("ab"));
    assert!(!is_text_valid("{a"));
    assert!(!is_text_valid("a}"));
    assert!(!is_entry_invalid(&entry(1, &["a", "{b}"])));
    assert!(is_entry_invalid(&entry(1, &["a", "bc"])));
    assert!(!is_entry_invalid(&entry(1, &[])));
    assert!(entry_has_text(&entry(1, &["a", "b"]), &"b".to_string()));
    assert!(!entry_has_text(&entry(1, &["a", "b"]), &"c".to_string()));
}

#[test]
fn problems_of_a_table_are_its_invalid_and_shared_entries() {
    let fine = vec![entry(3, &["a"]), entry(1, &["b", "{x}"]), entry(2, &[""]), entry(4, &[""])];
    let problems = check_char_codes(&fine);
    assert_eq!(problems.codes, Vec::<u16>::new());
    assert!(!problems.has_duplicate && !problems.has_invalid);

    let table = vec![
        entry(9, &["a"]),
        entry(5, &["xy"]),
        entry(7, &["a", "b"]),
        entry(5, &["c"]),
        entry(2, &["q"]),
        entry(7, &["z"]),
    ];
    assert!(is_entry_shared(&table, 0));
    assert!(!is_entry_shared(&table, 1));
    assert!(is_entry_shared(&table, 2));
    assert!(!is_entry_shared(&table, 4));
    assert!(!is_entry_shared(&table, 5));
    let problems = check_char_codes(&table);
    assert_eq!(problems.codes, vec![5, 7, 9]);
    assert!(problems.has_duplicate && problems.has_invalid);

    let same_code = vec![entry(1, &["a"]), entry(1, &["a"])];
    let problems = check_char_codes(&same_code);
    assert_eq!(problems.codes, Vec::<u16>::new());
    assert!(!problems.has_duplicate);

    let mut words = vec![2, 5, 9];
    insert_word(&mut words, 5);
    assert_eq!(words, vec![2, 5, 9]);
    insert_word(&mut words, 1);
    insert_word(&mut words, 7);
    insert_word(&mut words, 10);
    assert_eq!(words, vec![1, 2, 5, 7, 9, 10]);
}

#[test]
fn a_table_takes_the_texts_given_for_its_codes() {
    let mut table = vec![entry(1, &["a"]), entry(2, &["b"]), entry(3, &["c"]), entry(2, &["d"])];
    let given = vec![entry(2, &["x"]), entry(3, &["y", "{why}"]), entry(2, &["z"]), entry(8, &["w"])];
    assert_eq!(find_last(&given, 2), Some(2));
    assert_eq!(find_last(&given, 1), None);
    assert_eq!(copy_texts(&given[1]), vec!["y", "{why}"]);
    let problems = update_char_codes(&mut table, &given);
    assert!(problems.codes.is_empty());
    let found: Vec<(u16, Vec<String>)> = table.iter().map(|c| (c.data, c.text.clone())).collect();
    assert_eq!(
        found,
        vec![
            (1, vec!["a".to_string()]),
            (2, vec!["z".to_string()]),
            (3, vec!["y".to_string(), "{why}".to_string()]),
            (2, vec!["z".to_string()]),
        ]
    );

    let bad = vec![entry(1, &["long"])];
    let problems = update_char_codes(&mut table, &bad);
    assert_eq!(problems.codes, vec![1]);
    assert!(problems.has_invalid && !problems.has_duplicate);
    assert_eq!(table[0].text, vec!["a"]);
}

#[test]
fn tables_are_named_by_their_language() {
    assert!(preset_language("jp") == EncodingLanguage::Japanese);
    assert!(preset_language("en") == EncodingLanguage::English);
    assert!(preset_language("latin") == EncodingLanguage::Latin);
    assert!(preset_language("JP") == EncodingLanguage::Custom);
    assert!(preset_language("") == EncodingLanguage::Custom);
    assert!(same_chars(&['j', 'p'], "jp"));
    assert!(!same_chars(&['j'], "jp"));
}

#[test]
fn an_item_takes_new_values_and_keeps_its_id() {
    let table = codes();
    let mut items = vec![item("cake", 5), item("tea", 2)];
    let mut given = item("", 77);
    given.id = id(40);
    given.name.string = "bad".to_string();
    given.item_type = ItemType::Game;
    given.game_type = Some(GameType::MemoryGame);
    given.image_id = Some(id(8));
    let updated = update_item(&table, &mut items, 1, &given).unwrap();
    for found in [&updated, &items[1]] {
        assert!(found.id == id(1));
        assert!(found.item_type == ItemType::Game);
        assert!(found.game_type == Some(GameType::MemoryGame));
        assert!(found.image_id == Some(id(8)));
        assert_eq!(found.price, 77);
        assert_eq!(found.name.string, "bad");
        assert_eq!(found.name.data, vec![1, 0, 3]);
    }
    assert_eq!(items[0].name.string, "cake");
    assert_eq!(items[0].price, 5);
    assert!(update_item(&table, &mut items, 2, &given).is_none());
    assert_eq!(items.len(), 2);
}

#[test]
fn a_character_takes_new_values_and_keeps_its_ids() {
    let table = codes();
    let mut characters = vec![character("bob")];
    let mut given = character("");
    given.id = id(50);
    given.character_type = CharacterType::Egg;
    given.unknown1 = id(51);
    given.global_id = id(52);
    given.name.string = "ed".to_string();
    given.pronoun.string = "ab".to_string();
    given.statement.string = "c".to_string();
    given.question1.string = "d".to_string();
    given.question2.string = "e".to_string();
    given.profile_image_id = id(60);
    given.unknown7 = 9;
    given.gender = Gender::Female;
    let updated = update_character(&table, &mut characters, 0, &given).unwrap();
    for found in [&updated, &characters[0]] {
        assert!(found.id == id(1));
        assert!(found.character_type == CharacterType::Adult);
        assert!(found.unknown1 == id(5));
        assert!(found.global_id == id(6));
        assert!(found.profile_image_id == id(60));
        assert!(found.gender == Gender::Female);
        assert_eq!(found.unknown7, 9);
        assert_eq!(found.name.string, "ed");
        assert_eq!(found.name.data, vec![4, 3]);
        assert_eq!(found.pronoun.data, vec![0, 1]);
        assert_eq!(found.statement.data, vec![2]);
        assert_eq!(found.question1.data, vec![3]);
        assert_eq!(found.question2.data, vec![4]);
    }
    assert!(update_character(&table, &mut characters, 1, &given).is_none());
}

#[test]
fn strings_take_new_values() {
    let table = codes();
    let mut strings =
        vec![TamaString { id: id(3), unknown1: 1, unknown2: 2, unknown3: 3, value: text("a") }];
    let given = TamaString {
        id: id(9),
        unknown1: 4,
        unknown2: 5,
        unknown3: 6,
        value: Text { data: vec![], string: "cab".to_string() },
    };
    let updated = update_tamastring(&table, &mut strings, 0, &given).unwrap();
    for found in [&updated, &strings[0]] {
        assert!(found.id == id(3));
        assert_eq!((found.unknown1, found.unknown2, found.unknown3), (4, 5, 6));
        assert_eq!(found.value.string, "cab");
        assert_eq!(found.value.data, vec![2, 0, 1]);
    }
    assert!(update_tamastring(&table, &mut strings, 1, &given).is_none());

    let mut menu = vec![text("a"), text("b")];
    let updated = update_menu_string(&table, &mut menu, 1, "dc").unwrap();
    assert_eq!(updated.string, "dc");
    assert_eq!(updated.data, vec![3, 2]);
    assert_eq!(menu[1].string, "dc");
    assert_eq!(menu[1].data, vec![3, 2]);
    assert_eq!(menu[0].string, "a");
    assert!(update_menu_string(&table, &mut menu, 2, "dc").is_none());
}

#[test]
fn layers_and_frames_are_put_in_their_places() {
    let mut scenes =
        vec![Scene { layers: vec![layer(None), layer(Some(1))] }, Scene { layers: vec![] }];
    assert!(update_scene_layer(&mut scenes, 0, 1, layer(Some(7))) == Some(layer(Some(7))));
    assert!(scenes[0].layers[1] == layer(Some(7)));
    assert!(scenes[0].layers[0] == layer(None));
    assert!(update_scene_layer(&mut scenes, 0, 2, layer(Some(7))).is_none());
    assert!(update_scene_layer(&mut scenes, 1, 0, layer(Some(7))).is_none());
    assert!(update_scene_layer(&mut scenes, 2, 0, layer(Some(7))).is_none());

    let first = FrameLayer { x: Some(3), ..FrameLayer::default() };
    let mut groups = vec![FrameGroup { frames: vec![Frame::Implicit, Frame::Implicit] }];
    let updated = update_frame(&mut groups, 0, 1, Frame::Explicit(vec![first])).unwrap();
    assert!(matches!(&updated, Frame::Explicit(layers) if layers == &vec![first]));
    assert!(matches!(&groups[0].frames[1], Frame::Explicit(layers) if layers == &vec![first]));
    assert!(matches!(&groups[0].frames[0], Frame::Implicit));
    assert!(update_frame(&mut groups, 0, 2, Frame::Implicit).is_none());
    assert!(update_frame(&mut groups, 1, 0, Frame::Implicit).is_none());
    assert!(matches!(copy_frame(&Frame::Implicit), Frame::Implicit));
}

#[test]
fn subimages_take_the_offsets_given() {
    let sub = |x: i32, y: i32| SubImage { offset_x: x, offset_y: y, pixel_data: vec![0; 64] };
    let set = ImageSet {
        original_index: 0,
        width: 8,
        height: 8,
        width_in_sprites: 1,
        height_in_sprites: 1,
        is_quadrupled: false,
        first_palette_index: 0,
        palettes: vec![vec![Color::new(0, 0, 0, 255)], vec![Color::new(8, 8, 8, 255)]],
        subimages: vec![sub(1, 2), sub(3, 4), sub(5, 6)],
    };
    let mut sets = vec![set];
    let summary = update_image_set(&mut sets, 0, &[10, 20], &[-1]).unwrap();
    let found: Vec<(i32, i32)> =
        sets[0].subimages.iter().map(|s| (s.offset_x, s.offset_y)).collect();
    assert_eq!(found, vec![(10, -1), (20, 4), (5, 6)]);
    let shown: Vec<(i32, i32)> =
        summary.subimages.iter().map(|s| (s.offset_x, s.offset_y)).collect();
    assert_eq!(shown, found);
    assert_eq!((summary.width, summary.height, summary.palette_count), (8, 8, 2));
    assert_eq!(sets[0].subimages[0].pixel_data.len(), 64);
    assert!(update_image_set(&mut sets, 1, &[], &[]).is_none());
}

#[test]
fn texts_are_read_anew_with_another_table() {
    let other = upper_codes();
    let mut texts = vec![text("ab"), text("")];
    re_decode_texts(&other, &mut texts);
    assert_eq!(texts[0].string, "AB");
    assert_eq!(texts[0].data, vec![0, 1]);
    assert_eq!(texts[1].string, "");

    let mut pack = DataPack {
        table1: vec![vec![1, 2]],
        particle_emitters: vec![],
        scenes: vec![],
        tamastrings: vec![TamaString {
            id: id(3),
            unknown1: 1,
            unknown2: 2,
            unknown3: 3,
            value: text("cab"),
        }],
        table9: vec![],
        items: vec![item("tea", 4)],
        characters: vec![character("bob")],
        graphics_nodes: vec![],
        frame_groups: vec![],
        card_id: 9,
    };
    re_decode_strings(&other, &mut pack);
    assert_eq!(pack.tamastrings[0].value.string, "CAB");
    assert_eq!(pack.tamastrings[0].value.data, vec![2, 0, 1]);
    assert_eq!(pack.tamastrings[0].unknown2, 2);
    assert_eq!(pack.items[0].name.string, "TEA");
    assert_eq!(pack.items[0].price, 4);
    assert_eq!(pack.characters[0].name.string, "BOB");
    assert_eq!(pack.characters[0].pronoun.string, "HE");
    assert_eq!(pack.characters[0].statement.string, "A");
    assert_eq!(pack.characters[0].question1.string, "B");
    assert_eq!(pack.characters[0].question2.string, "C");
    assert_eq!(pack.characters[0].name.data, vec![1, 14, 1]);
    assert_eq!(pack.table1, vec![vec![1, 2]]);
    assert_eq!(pack.card_id, 9);
}

fn sheet(width: u32, height: u32) -> Raster {
    let mut data = Vec::new();
    for y in 0..height {
        for x in 0..width {
            data.extend_from_slice(&[x as u8, y as u8, (x + y) as u8, 255]);
        }
    }
    Raster::new(width, height, data).unwrap()
}

#[test]
fn a_window_of_an_image_holds_its_pixels() {
    let image = sheet(6, 4);
    assert!(image.is_whole());
    let cut = image.view(2, 1, 3, 2);
    assert_eq!((cut.width, cut.height), (3, 2));
    assert_eq!(
        cut.data,
        vec![
            2, 1, 3, 255, 3, 1, 4, 255, 4, 1, 5, 255, //
            2, 2, 4, 255, 3, 2, 5, 255, 4, 2, 6, 255,
        ]
    );
    assert!(image.view(0, 0, 6, 4).data == image.data);
    assert!(image.view(6, 4, 0, 0).data.is_empty());
    let short = Raster { width: 2, height: 2, data: vec![0; 15] };
    assert!(!short.is_whole());
}

#[test]
fn a_spritesheet_is_cut_into_its_subimages() {
    let image = sheet(7, 4);
    let parts = spritesheet_to_images(&image, 3, 2).unwrap();
    assert_eq!(parts.len(), 6);
    for (k, part) in parts.iter().enumerate() {
        let (x, y) = ((k % 3) as u32 * 2, (k / 3) as u32 * 2);
        assert_eq!((part.width, part.height), (2, 2));
        assert!(part.data == image.view(x, y, 2, 2).data);
    }
    assert_eq!(&parts[4].data[0..4], &[2, 2, 4, 255]);
    assert!(matches!(spritesheet_to_images(&image, 0, 2), Err(Error::NoSubimages)));
    assert!(matches!(spritesheet_to_images(&image, 3, 0), Err(Error::NoSubimages)));
    let short = Raster { width: 2, height: 2, data: vec![0; 15] };
    assert!(matches!(spritesheet_to_images(&short, 1, 1), Err(Error::InvalidRaster)));
    assert!(Error::NoSubimages.kind() == ErrorKind::SemanticError);
    assert!(Error::InvalidRaster.kind() == ErrorKind::SemanticError);
}

#[test]
fn a_font_is_cut_into_its_characters() {
    let image = sheet(4096, 16);
    let characters = load_font(&image).unwrap();
    assert_eq!(characters.len(), 256);
    for (k, character) in characters.iter().enumerate() {
        assert_eq!((character.width, character.height), (16, 16));
        assert!(character.data == image.view(16 * k as u32, 0, 16, 16).data);
    }
    assert_eq!(&characters[3].data[0..4], &[48, 0, 48, 255]);
    assert!(matches!(
        load_font(&sheet(16, 16)),
        Err(Error::DimensionMismatch {
            expected_width: 4096,
            expected_height: 16,
            width: 16,
            height: 16
        })
    ));
    let short = Raster { width: 4096, height: 16, data: vec![0; 8] };
    assert!(matches!(load_font(&short), Err(Error::InvalidRaster)));
}

#[test]
fn the_name_of_a_file_tells_the_number_of_its_image() {
    assert_eq!(image_index_of("card-12.png"), Some(12));
    assert_eq!(image_index_of("card-12.PNG"), Some(12));
    assert_eq!(image_index_of("my-card-3-007.Png"), Some(7));
    assert_eq!(image_index_of("card-12xpng"), Some(12));
    assert_eq!(image_index_of("-12.png"), None);
    assert_eq!(image_index_of("card12.png"), None);
    assert_eq!(image_index_of("card-.png"), None);
    assert_eq!(image_index_of("card-12.png.bak"), None);
    assert_eq!(image_index_of("card-12.jpg"), None);
    assert_eq!(image_index_of("card-99999999999999999999999.png"), None);
    assert_eq!(image_index_of_digits(Some("42")), Some(42));
    assert_eq!(image_index_of_digits(Some("4x")), None);
    assert_eq!(image_index_of_digits(None), None);
}

#[test]
fn numbers_that_fit_are_read_from_their_digits() {
    let chars = |s: &str| s.chars().collect::<Vec<char>>();
    for s in ["0", "7", "+7", "0012", "18446744073709551615", "18446744073709551616", "x", "", "+", "1 ", "-1", "٣"] {
        assert_eq!(parse_index(&chars(s)), s.parse::<usize>().ok());
    }
    assert_eq!(parse_index(&chars("123")), Some(123));
}

#[test]
fn the_path_of_an_address_tells_the_picture() {
    assert!(image_request_of("/x-smallfont-7") == Some(ImageRequest::SmallFont { character: 7 }));
    assert!(image_request_of("/x-largefont-255") == Some(ImageRequest::LargeFont { character: 255 }));
    assert!(image_request_of("/image-12-3") == Some(ImageRequest::Subimage { image: 12, subimage: 3 }));
    assert!(image_request_of("-0-0") == Some(ImageRequest::Subimage { image: 0, subimage: 0 }));
    assert!(image_request_of("/image-12-3/") == None);
    assert!(image_request_of("/image-font-3") == None);
    assert!(image_request_of("/image-12") == None);
    assert!(image_request_of("") == None);
    assert!(
        image_request_of_parts(Some("smallfont"), Some("4"))
            == Some(ImageRequest::SmallFont { character: 4 })
    );
    assert!(image_request_of_parts(Some("smallfont"), Some("x")) == None);
    assert!(image_request_of_parts(Some("5"), None) == None);
    assert!(image_request_of_parts(None, Some("5")) == None);
    assert!(
        image_request_of_parts(Some("5"), Some("6"))
            == Some(ImageRequest::Subimage { image: 5, subimage: 6 })
    );
}
