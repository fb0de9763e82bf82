use smarty_pants::data_pack::character::{
    get_characters, save_characters, Character, CharacterType, Gender,
};
use smarty_pants::data_pack::frame::{
    get_frame_groups, get_frame_layers, read_frame_layer, read_frame_tables, save_frame_groups,
    save_frame_layer, Frame, FrameGroup, FrameLayer, FrameLayerType,
};
use smarty_pants::data_pack::graphics_node::{
    get_graphics_nodes, get_graphics_nodes_offsets, save_graphics_nodes, GraphicsNode,
};
use smarty_pants::data_pack::item::{get_items, save_items, GameType, Item, ItemType};
use smarty_pants::data_pack::particle_emitter::{
    get_particle_emitters, save_particle_emitters, ParticleEmitter,
};
use smarty_pants::data_pack::scene::{
    get_scene_layer_offsets, get_scene_offsets, get_scenes, read_scene_tables, save_scenes, Scene,
    SceneLayer,
};
use smarty_pants::data_pack::tamastring::{get_tamastrings, save_tamastrings, TamaString};
use smarty_pants::data_pack::{
    get_data_pack, get_table_offsets, save_data_pack, split_offsets, table1, table9, DataPack,
    EntityId,
};
use smarty_pants::data_view::DataView;
use smarty_pants::error::{Error, ErrorKind};
use smarty_pants::text::{CharEncoding, Text};

fn codes() -> Vec<CharEncoding> {
    let mut codes = Vec::new();
    for i in 0..=256u16 {
        let text = if i < 26 {
            ((b'a' + i as u8) as char).to_string()
        } else {
            format!("{{{}}}", i)
        };
        codes.push(CharEncoding::new(i, vec![text]));
    }
    codes.push(CharEncoding::new(0xf000, vec!["{name}".to_string(), "<name>".to_string()]));
    codes
}

fn text(data: &[u16]) -> Text {
    Text::from_data(&codes(), data)
}

fn same_text(a: &Text, b: &Text) -> bool {
    a.data == b.data && a.string == b.string
}

fn layer() -> SceneLayer {
    SceneLayer {
        x: None,
        y: None,
        image_id: None,
        subimage_index: None,
        unknown1: None,
        unknown2: None,
        unknown3: None,
        unknown4: None,
        unknown5: None,
        unknown6: None,
        unknown7: None,
        unknown8: None,
        flag1: false,
        flag2: false,
        flag3: false,
        flag4: false,
    }
}

fn scenes() -> Vec<Scene> {
    let mut a = layer();
    a.x = Some(5);
    let mut b = layer();
    b.y = Some(-7);
    b.image_id = Some(EntityId { card_id: Some(1), entity_id: 9 });
    b.flag3 = true;
    let mut c = layer();
    c.subimage_index = Some(0);
    c.unknown8 = Some(0xffff);
    vec![
        Scene { layers: vec![a, b] },
        Scene { layers: vec![] },
        Scene { layers: vec![c] },
    ]
}

#[test]
fn scenes_round_trip_through_their_tables() {
    let scenes = scenes();
    let (scene_offsets, layer_offsets, layer_data) = save_scenes(&scenes).unwrap();
    assert_eq!(scene_offsets, vec![0, 0, 2, 0, 2, 0, 3, 0]);
    assert_eq!(layer_offsets, vec![0, 0, 2, 0, 7, 0]);
    assert_eq!(
        layer_data,
        vec![
            0x01, 0x00, 0x05, 0x00, 0x06, 0x40, 0xf9, 0xff, 0x09, 0x81, 0x00, 0x00, 0x00, 0x00,
            0x40, 0x08, 0x00, 0x00, 0xff, 0xff, 0x00, 0x00
        ]
    );
    let read = read_scene_tables(
        &DataView::new(&scene_offsets),
        &DataView::new(&layer_offsets),
        &DataView::new(&layer_data),
    )
    .unwrap();
    assert_eq!(read.len(), 3);
    for (a, b) in read.iter().zip(scenes.iter()) {
        assert_eq!(a.layers, b.layers);
    }
}

#[test]
fn scene_tables_step_by_step() {
    let (scene_offsets, layer_offsets, layer_data) = save_scenes(&scenes()).unwrap();
    let (starts, sizes) = get_scene_offsets(&DataView::new(&scene_offsets)).unwrap();
    assert_eq!(starts, vec![0, 4, 4]);
    assert_eq!(sizes, vec![4, 0, 2]);
    let offsets =
        get_scene_layer_offsets(&DataView::new(&layer_offsets), starts, sizes).unwrap();
    assert_eq!(offsets, vec![vec![0, 4], vec![], vec![14]]);
    let read = get_scenes(&DataView::new(&layer_data), offsets).unwrap();
    assert_eq!(read[2].layers[0].unknown8, Some(0xffff));
}

#[test]
fn scene_tables_with_errors() {
    assert_eq!(
        get_scene_offsets(&DataView::new(&[4, 0, 2, 0])).err(),
        Some(Error::InvalidBlockOffset { block: 0 })
    );
    assert_eq!(
        get_scene_layer_offsets(&DataView::new(&[0, 0]), vec![0], vec![4]).err(),
        Some(Error::InvalidBlockOffset { block: 0 })
    );
    assert_eq!(
        get_scenes(&DataView::new(&[1, 0, 5, 0]), vec![vec![0], vec![2]]).err(),
        Some(Error::RecordTruncated { record: 1 })
    );
    assert_eq!(get_scene_offsets(&DataView::new(&[])).unwrap(), (vec![], vec![]));
}

fn frame_layer() -> FrameLayer {
    FrameLayer {
        x: Some(-1),
        y: None,
        subimage_index: Some(3),
        layer_type: Some(FrameLayerType::BodyAccessory),
        image_id: Some(EntityId { card_id: None, entity_id: 0x1234 }),
        unknown1: None,
        unknown2: Some(0),
        unknown3: None,
    }
}

#[test]
fn frame_layer_bytes() {
    let bytes = save_frame_layer(&frame_layer()).unwrap();
    assert_eq!(
        bytes,
        vec![0x25, 0x06, 0xff, 0xff, 0x03, 0x00, 0x00, 0x00, 0x08, 0x00, 0x34, 0x12]
    );
    let (read, next) = read_frame_layer(&DataView::new(&bytes), 0).unwrap();
    assert_eq!(read, frame_layer());
    assert_eq!(next, 12);
}

#[test]
fn frame_layer_drops_the_words_of_bits_without_fields() {
    let row = [0xc9, 0xf8, 5, 0, 0xaa, 0xbb, 0xcc, 0xdd, 0xee, 0xff, 9];
    let (read, next) = read_frame_layer(&DataView::new(&row), 0).unwrap();
    assert_eq!(read, FrameLayer { x: Some(5), ..FrameLayer::default() });
    assert_eq!(next, 10);
    assert!(read_frame_layer(&DataView::new(&row[..9]), 0).is_none());
    let (read, next) = read_frame_layer(&DataView::new(&[0x00, 0xf8, 1, 2]), 0).unwrap();
    assert_eq!(read, FrameLayer::default());
    assert_eq!(next, 2);
}

#[test]
fn frame_layer_types() {
    for (word, layer_type) in [
        (0u8, FrameLayerType::Unknown),
        (1, FrameLayerType::Face),
        (2, FrameLayerType::Npc),
        (3, FrameLayerType::Body),
        (4, FrameLayerType::HeadAccessory),
        (6, FrameLayerType::FaceAccessory),
        (8, FrameLayerType::BodyAccessory),
        (9, FrameLayerType::DirtClouds),
        (10, FrameLayerType::HandAccessory),
    ] {
        let mut layer = FrameLayer::default();
        layer.layer_type = Some(layer_type);
        let bytes = save_frame_layer(&layer).unwrap();
        assert_eq!(bytes, vec![0x00, 0x02, word, 0x00]);
        assert_eq!(read_frame_layer(&DataView::new(&bytes), 0).unwrap().0, layer);
    }
    let (read, _) = read_frame_layer(&DataView::new(&[0x00, 0x02, 0x05, 0x00]), 0).unwrap();
    assert_eq!(read.layer_type, Some(FrameLayerType::Unknown));
}

fn frame_groups() -> Vec<FrameGroup> {
    let mut frames = Vec::new();
    for i in 0..53 {
        frames.push(match i % 3 {
            0 => Frame::Implicit,
            1 => Frame::Explicit(vec![frame_layer()]),
            _ => Frame::Explicit(vec![FrameLayer::default(), frame_layer()]),
        });
    }
    vec![FrameGroup { frames }]
}

fn same_frames(a: &[FrameGroup], b: &[FrameGroup]) -> bool {
    a.len() == b.len()
        && a.iter().zip(b).all(|(x, y)| {
            x.frames.len() == y.frames.len()
                && x.frames.iter().zip(&y.frames).all(|(f, g)| match (f, g) {
                    (Frame::Implicit, Frame::Implicit) => true,
                    (Frame::Explicit(l), Frame::Explicit(m)) => l == m,
                    _ => false,
                })
        })
}

#[test]
fn frame_groups_round_trip_through_their_tables() {
    let groups = frame_groups();
    let (offsets, layers, frames) = save_frame_groups(&groups).unwrap();
    assert_eq!(frames.len(), 53 * 4);
    assert_eq!(frames[..12], [0xff, 0xff, 0, 0, 0, 0, 1, 0, 1, 0, 2, 0]);
    assert_eq!(layers.len(), 18 * 12 + 17 * 14);
    assert_eq!(offsets.len(), (18 + 17 * 2 + 1) * 4);
    assert_eq!(offsets[..12], [0, 0, 0, 0, 6, 0, 0, 0, 7, 0, 0, 0]);
    let last = offsets.len() - 4;
    assert_eq!(offsets[last..], ((layers.len() / 2) as u32).to_le_bytes());
    let read = read_frame_tables(&DataView::new(&layers), &DataView::new(&frames)).unwrap();
    assert!(same_frames(&read, &groups));
    let all = get_frame_layers(&DataView::new(&layers)).unwrap();
    assert_eq!(all.len(), 18 + 34);
    assert!(same_frames(&get_frame_groups(&DataView::new(&frames), all).unwrap(), &groups));
}

#[test]
fn frame_tables_with_errors() {
    assert_eq!(
        get_frame_layers(&DataView::new(&[0x01, 0x00])).err(),
        Some(Error::RecordTruncated { record: 0 })
    );
    assert_eq!(
        get_frame_layers(&DataView::new(&[0, 0, 0x02, 0x00, 1])).err(),
        Some(Error::RecordTruncated { record: 1 })
    );
    assert_eq!(get_frame_layers(&DataView::new(&[0, 0, 9])).unwrap().len(), 1);
    assert_eq!(
        get_frame_groups(&DataView::new(&[0, 0, 2, 0]), vec![FrameLayer::default()]).err(),
        Some(Error::LayersNotFound { frame: 0 })
    );
    let leftover = get_frame_groups(&DataView::new(&[0xff, 0xff, 0, 0]), vec![]).unwrap();
    assert!(leftover.is_empty());
}

fn item() -> Item {
    Item {
        id: EntityId { card_id: Some(2), entity_id: 5 },
        item_type: ItemType::Toy,
        name: text(&[1, 2, 3]),
        image_id: Some(EntityId { card_id: None, entity_id: 77 }),
        worn_image_id: None,
        close_image_id: Some(EntityId { card_id: Some(2), entity_id: 0 }),
        animation_id: None,
        price: 250,
        unknown1: 1,
        unknown2: 2,
        unknown3: 3,
        unlocked_character: Some(12),
        game_type: None,
    }
}

fn same_item(a: &Item, b: &Item) -> bool {
    a.id == b.id
        && a.item_type == b.item_type
        && same_text(&a.name, &b.name)
        && a.image_id == b.image_id
        && a.worn_image_id == b.worn_image_id
        && a.close_image_id == b.close_image_id
        && a.animation_id == b.animation_id
        && (a.price, a.unknown1, a.unknown2, a.unknown3)
            == (b.price, b.unknown1, b.unknown2, b.unknown3)
        && a.unlocked_character == b.unlocked_character
        && a.game_type == b.game_type
}

#[test]
fn items_round_trip() {
    let mut game = item();
    game.item_type = ItemType::Game;
    game.unlocked_character = None;
    game.game_type = Some(GameType::MemoryGame);
    let items = vec![item(), game];
    let bytes = save_items(&items).unwrap();
    assert_eq!(bytes.len(), 84);
    assert_eq!(
        bytes[..42],
        [
            0x05, 0x82, 2, 0, 1, 0, 2, 0, 3, 0, 0, 0, 0, 0, 0, 0, 0, 0, 0, 0, 0, 0, 0, 0, 77, 0,
            0, 0, 0x00, 0x82, 0, 0, 250, 0, 1, 0, 2, 0, 3, 0, 12, 0
        ]
    );
    assert_eq!(bytes[42 + 2], 8);
    assert_eq!(bytes[42 + 40], 12);
    let read = get_items(&codes(), &DataView::new(&bytes));
    assert_eq!(read.len(), 2);
    assert!(same_item(&read[0], &items[0]));
    assert!(same_item(&read[1], &items[1]));
    assert_eq!(read[0].name.string, "bcd");
}

#[test]
fn item_types_and_games() {
    assert!(ItemType::AccessoryHead.is_accessory());
    assert!(ItemType::AccessoryFace.is_accessory());
    assert!(ItemType::AccessoryBody.is_accessory());
    assert!(ItemType::AccessoryHand.is_accessory());
    assert!(!ItemType::Toy.is_accessory());
    assert!(!ItemType::Game.is_accessory());
    let mut row = vec![0u8; 42];
    row[2] = 9;
    row[40] = 10;
    let read = get_items(&codes(), &DataView::new(&row));
    assert_eq!(read[0].item_type, ItemType::Unknown);
    assert_eq!(read[0].unlocked_character, Some(10));
    assert_eq!(read[0].game_type, None);
    row[2] = 8;
    let read = get_items(&codes(), &DataView::new(&row));
    assert_eq!(read[0].game_type, Some(GameType::GuessingGame));
    assert_eq!(read[0].unlocked_character, None);
    row[40] = 16;
    let read = get_items(&codes(), &DataView::new(&row));
    assert_eq!(read[0].game_type, Some(GameType::Unknown));
    assert!(get_items(&codes(), &DataView::new(&row[..41])).is_empty());
}

#[test]
fn item_moves_to_another_card() {
    let mut moved = item();
    moved.set_card_id(2, 9);
    assert_eq!(moved.id, EntityId { card_id: Some(9), entity_id: 5 });
    assert_eq!(moved.image_id, Some(EntityId { card_id: None, entity_id: 77 }));
    assert_eq!(moved.close_image_id, Some(EntityId { card_id: Some(9), entity_id: 0 }));
    assert_eq!(moved.worn_image_id, None);
    let mut other = item();
    other.set_card_id(3, 9);
    assert!(same_item(&other, &item()));
}

fn character() -> Character {
    Character {
        id: EntityId { card_id: None, entity_id: 3 },
        character_type: CharacterType::Teen,
        name: text(&[10, 11]),
        profile_image_id: EntityId { card_id: None, entity_id: 30 },
        icon_image_id: EntityId { card_id: None, entity_id: 31 },
        composition_id: EntityId { card_id: Some(4), entity_id: 32 },
        unknown1: EntityId { card_id: None, entity_id: 0 },
        pronoun: text(&[1]),
        statement: text(&[2, 2]),
        question1: text(&[]),
        question2: text(&[4, 5, 6, 7, 8, 9]),
        unknown2: 6,
        unknown3: 7,
        global_id: EntityId { card_id: None, entity_id: 300 },
        unknown4: 8,
        unknown5: 9,
        unknown6: 10,
        unknown7: 11,
        gender: Gender::Male,
    }
}

#[test]
fn characters_round_trip() {
    let characters = vec![character()];
    let bytes = save_characters(&characters).unwrap();
    assert_eq!(bytes.len(), 96);
    assert_eq!(bytes[..6], [3, 0, 4, 0, 10, 0]);
    assert_eq!(bytes[28..30], [32, 0x84]);
    assert_eq!(bytes[68..80], [4, 0, 5, 0, 6, 0, 7, 0, 8, 0, 9, 0]);
    assert_eq!(bytes[94..96], [1, 0]);
    let read = get_characters(&codes(), &DataView::new(&bytes));
    let (a, b) = (&read[0], &characters[0]);
    assert_eq!(a.id, b.id);
    assert_eq!(a.character_type, CharacterType::Teen);
    assert!(same_text(&a.name, &b.name));
    assert!(same_text(&a.pronoun, &b.pronoun));
    assert!(same_text(&a.statement, &b.statement));
    assert!(same_text(&a.question1, &b.question1));
    assert!(same_text(&a.question2, &b.question2));
    assert_eq!(a.composition_id, b.composition_id);
    assert_eq!(a.global_id, b.global_id);
    assert_eq!(a.gender, Gender::Male);
    assert_eq!((a.unknown2, a.unknown7), (6, 11));
}

fn tamastring(id: u16, words: &[u16]) -> TamaString {
    TamaString {
        id: EntityId::new(id),
        unknown1: 1,
        unknown2: 2,
        unknown3: 3,
        value: text(words),
    }
}

#[test]
fn tamastrings_round_trip() {
    let strings = vec![tamastring(7, &[1, 2]), tamastring(0x8101, &[]), tamastring(9, &[5])];
    assert_eq!(strings[0].to_words(), vec![7, 1, 2, 3, 1, 2, 0]);
    let (offsets, data) = save_tamastrings(&strings).unwrap();
    assert_eq!(offsets, vec![0, 0, 7, 0, 12, 0, 0xff, 0xff]);
    assert_eq!(data.len(), 2 * (7 + 5 + 6));
    let read = get_tamastrings(&codes(), &DataView::new(&data));
    assert_eq!(read.len(), 3);
    for (a, b) in read.iter().zip(&strings) {
        assert_eq!(a.id, b.id);
        assert_eq!((a.unknown1, a.unknown2, a.unknown3), (1, 2, 3));
        assert!(same_text(&a.value, &b.value));
    }
    let mut moved = tamastring(0x8101, &[]);
    moved.set_card_id(1, 2);
    assert_eq!(moved.id.to_word(), 0x8201);
}

#[test]
fn tamastring_without_an_end_runs_to_the_end() {
    let data = [7u8, 0, 1, 0, 2, 0, 3, 0, 9, 0, 8, 0];
    let read = get_tamastrings(&codes(), &DataView::new(&data));
    assert_eq!(read.len(), 1);
    assert_eq!(read[0].value.data, vec![9, 8]);
    assert!(get_tamastrings(&codes(), &DataView::new(&data[..9])).is_empty());
}

#[test]
fn blocks_of_words() {
    let entities = vec![vec![1u16, 2, 3], vec![], vec![0xabcd]];
    let (offsets, data) = table1::save_entities(&entities).unwrap();
    assert_eq!(offsets, vec![0, 0, 3, 0, 3, 0]);
    assert_eq!(data, vec![1, 0, 2, 0, 3, 0, 0xcd, 0xab]);
    let starts = table1::get_entity_offsets(&DataView::new(&offsets));
    assert_eq!(starts, vec![0, 6, 6]);
    assert_eq!(table1::get_entities(&DataView::new(&data), starts).unwrap(), entities);

    let (offsets, data) = table9::save_entities(&entities).unwrap();
    assert_eq!(offsets, vec![0, 0, 3, 0, 3, 0, 4, 0]);
    let (starts, sizes) = table9::get_entity_offsets(&DataView::new(&offsets)).unwrap();
    assert_eq!((starts.clone(), sizes.clone()), (vec![0, 6, 6], vec![6, 0, 2]));
    assert_eq!(table9::get_entities(&DataView::new(&data), starts, sizes).unwrap(), entities);
}

#[test]
fn blocks_with_errors() {
    assert_eq!(
        table1::get_entities(&DataView::new(&[0; 4]), vec![2, 0]).err(),
        Some(Error::InvalidBlockOffset { block: 0 })
    );
    assert_eq!(
        table1::get_entities(&DataView::new(&[0; 4]), vec![0, 6]).err(),
        Some(Error::InvalidBlockOffset { block: 0 })
    );
    assert_eq!(
        table9::get_entities(&DataView::new(&[0; 4]), vec![0, 2], vec![2, 4]).err(),
        Some(Error::InvalidBlockOffset { block: 1 })
    );
    assert_eq!(
        split_offsets(vec![0, 4, 2, 1]).err(),
        Some(Error::InvalidBlockOffset { block: 1 })
    );
    let long = vec![vec![0u16; 0x8000], vec![0u16; 0x8000], vec![1u16]];
    assert_eq!(
        table1::save_entities(&long).err(),
        Some(Error::SizeExceeded { size: 0x10000, limit: 0xffff })
    );
    assert_eq!(Error::SizeExceeded { size: 0x10000, limit: 0xffff }.kind(), ErrorKind::SemanticError);
    assert_eq!(Error::InvalidBlockOffset { block: 0 }.kind(), ErrorKind::StructuralError);
    assert_eq!(Error::SizeMismatch { expected: 1, size: 2 }.kind(), ErrorKind::ConsistencyError);
}

#[test]
fn graphics_nodes_in_units_of_four_bytes() {
    let nodes = vec![
        GraphicsNode { data: vec![1, 2] },
        GraphicsNode { data: vec![3, 4, 5, 6] },
        GraphicsNode { data: vec![7, 8] },
    ];
    let (offsets, data) = save_graphics_nodes(&nodes).unwrap();
    assert_eq!(offsets, vec![0, 0, 1, 0, 3, 0]);
    let starts = get_graphics_nodes_offsets(&DataView::new(&offsets));
    assert_eq!(starts, vec![0, 4, 12]);
    let read = get_graphics_nodes(&DataView::new(&data), starts).unwrap();
    assert_eq!(read.len(), 3);
    for (a, b) in read.iter().zip(&nodes) {
        assert_eq!(a.data, b.data);
    }
}

#[test]
fn particle_emitters_in_rows_of_33_words() {
    let emitters = vec![
        ParticleEmitter { data: (0..33).collect() },
        ParticleEmitter { data: (100..133).collect() },
    ];
    let mut bytes = save_particle_emitters(&emitters).unwrap();
    assert_eq!(bytes.len(), 132);
    bytes.push(0xff);
    let read = get_particle_emitters(&DataView::new(&bytes));
    assert_eq!(read.len(), 2);
    assert_eq!(read[1].data, emitters[1].data);
}

fn data_pack() -> DataPack {
    DataPack {
        table1: vec![vec![1, 2, 3], vec![4]],
        particle_emitters: vec![ParticleEmitter { data: (0..33).collect() }],
        scenes: scenes(),
        tamastrings: vec![tamastring(7, &[1, 2]), tamastring(9, &[5])],
        table9: vec![vec![9, 9], vec![]],
        items: vec![item()],
        characters: vec![character()],
        graphics_nodes: vec![GraphicsNode { data: vec![1, 2] }],
        frame_groups: frame_groups(),
        card_id: 0x0102,
    }
}

#[test]
fn data_pack_round_trips() {
    let pack = data_pack();
    let bytes = save_data_pack(&pack, 68).unwrap();
    let (offsets, sizes) = get_table_offsets(&DataView::new(&bytes)).unwrap();
    assert_eq!(offsets[0], 80);
    assert_eq!(sizes[0], 4);
    assert_eq!(sizes[19], 2);
    assert_eq!((68 + offsets[13]) % 8, 0);
    assert_eq!((68 + offsets[18]) % 8, 0);
    assert_eq!(sizes[7], 6);
    let read = get_data_pack(&codes(), &DataView::new(&bytes)).unwrap();
    assert_eq!(read.table1, pack.table1);
    assert_eq!(read.table9, pack.table9);
    assert_eq!(read.card_id, 0x0102);
    assert_eq!(read.particle_emitters[0].data, pack.particle_emitters[0].data);
    assert_eq!(read.scenes.len(), 3);
    assert_eq!(read.scenes[0].layers, pack.scenes[0].layers);
    assert_eq!(read.tamastrings.len(), 2);
    assert!(same_item(&read.items[0], &pack.items[0]));
    assert_eq!(read.characters[0].gender, Gender::Male);
    assert_eq!(read.graphics_nodes[0].data, vec![1, 2]);
    assert!(same_frames(&read.frame_groups, &pack.frame_groups));
    assert_eq!(save_data_pack(&read, 68).unwrap(), bytes);
}

#[test]
fn data_pack_with_a_table_that_cannot_be_read() {
    let mut bytes = save_data_pack(&data_pack(), 0).unwrap();
    let (offsets, _) = get_table_offsets(&DataView::new(&bytes)).unwrap();
    bytes[offsets[0]] = 0xff;
    assert_eq!(
        get_data_pack(&codes(), &DataView::new(&bytes)).err(),
        Some(Error::TableInvalid { table: 1, record: 0 })
    );
}

#[test]
fn data_pack_of_empty_tables_round_trips() {
    let mut empty = Vec::new();
    for _ in 0..20 {
        empty.extend_from_slice(&40u32.to_le_bytes());
    }
    assert_eq!(empty.len(), 80);
    let pack = get_data_pack(&codes(), &DataView::new(&empty)).unwrap();
    assert!(pack.table1.is_empty() && pack.particle_emitters.is_empty());
    assert!(pack.scenes.is_empty() && pack.tamastrings.is_empty() && pack.table9.is_empty());
    assert!(pack.items.is_empty() && pack.characters.is_empty());
    assert!(pack.graphics_nodes.is_empty() && pack.frame_groups.is_empty());
    assert_eq!(pack.card_id, 0);
    assert_eq!(save_data_pack(&pack, 0).unwrap(), empty);

    let written = DataPack {
        table1: vec![],
        particle_emitters: vec![],
        scenes: vec![],
        tamastrings: vec![],
        table9: vec![],
        items: vec![],
        characters: vec![],
        graphics_nodes: vec![],
        frame_groups: vec![],
        card_id: 0,
    };
    assert_eq!(save_data_pack(&written, 0).unwrap(), empty);

    let with_card = DataPack { card_id: 7, ..written };
    let bytes = save_data_pack(&with_card, 0).unwrap();
    assert_eq!(bytes.len(), 82);
    assert_eq!(&bytes[80..], &[7, 0]);
    assert_eq!(get_data_pack(&codes(), &DataView::new(&bytes)).unwrap().card_id, 7);
}
