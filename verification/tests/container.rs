use md5::{Digest, Md5};
use smarty_pants::data_pack::graphics_node::GraphicsNode;
use smarty_pants::data_pack::particle_emitter::ParticleEmitter;
use smarty_pants::data_pack::{DataPack, EntityId};
use smarty_pants::data_pack::tamastring::TamaString;
use smarty_pants::data_view::DataView;
use smarty_pants::error::Error;
use smarty_pants::file::{
    bin_size_of, bin_type_of, is_card, open, save, window_title, BinSize, BinType, Container,
};
use smarty_pants::firmware::{
    read_firmware, read_menu_strings, save_firmware, save_menu_strings, Firmware,
};
use smarty_pants::smacard::{
    calc_checksum, read_card, read_card_header, save_card, save_card_header, write_digest,
    CardHeader, CardType, TamaSmaCard,
};
use smarty_pants::sprite_pack::image_def::{ImageSet, SubImage};
use smarty_pants::sprite_pack::palette::Color;
use smarty_pants::sprite_pack::SpritePack;
use smarty_pants::text::{
    char_code_to_word, decode_string, encode_string, word_to_char_code, CharEncoding, Text,
};

fn codes() -> Vec<CharEncoding> {
    let mut codes = Vec::new();
    for i in 0..=256u16 {
        let text = if i < 26 {
            ((b'a' + i as u8) as char).to_string()
        } else {
            format!("{{{}}}", i)
        };
        codes.push(CharEncoding::new(i, vec![text]));
    }
    codes.push(CharEncoding::new(0xf000, vec!["{name}".to_string(), "<name>".to_string()]));
    codes.push(CharEncoding::new(0xf001, vec![]));
    codes
}

#[test]
fn words_and_their_texts() {
    let codes = codes();
    assert_eq!(word_to_char_code(&codes, 2), Some("c".to_string()));
    assert_eq!(word_to_char_code(&codes, 0xf000), Some("{name}".to_string()));
    assert_eq!(word_to_char_code(&codes, 0xf001), None);
    assert_eq!(word_to_char_code(&codes, 0xf002), None);
    assert_eq!(word_to_char_code(&codes[..5], 200), None);
    assert_eq!(char_code_to_word(&codes, "c"), Some(2));
    assert_eq!(char_code_to_word(&codes, "<name>"), Some(0xf000));
    assert_eq!(char_code_to_word(&codes, "?"), None);
}

#[test]
fn strings_and_their_words() {
    let codes = codes();
    assert_eq!(encode_string(&codes, &[0, 1, 0xf000, 0xf001, 2]), "ab{name}c");
    assert_eq!(decode_string(&codes, "ab{NAME}c?<Name>{30}"), vec![0, 1, 0xf000, 2, 0xf000, 30]);
    assert_eq!(decode_string(&codes, "{nam"), Vec::<u16>::new());
    assert_eq!(decode_string(&codes, "{a{name}b"), vec![1]);
    let text = Text::from_string(&codes, "cab");
    assert_eq!(text.data, vec![2, 0, 1]);
    assert_eq!(text.string, "cab");
    let mut text = Text::from_data(&codes, &[1, 0xf000]);
    assert_eq!(text.string, "b{name}");
    text.set_string(&codes, "dd");
    assert_eq!(text.data, vec![3, 3]);
    let other = vec![CharEncoding::new(0, vec!["x".to_string()]); 4];
    text.update_string(&other);
    assert_eq!((text.data.clone(), text.string.as_str()), (vec![3, 3], "xx"));
    assert_eq!(DataView::new(&[1, 0, 0, 0, 2, 0, 3]).get_text(&codes, 0, 10).data, vec![1, 2]);
    assert_eq!(DataView::new(&[1, 0, 0, 0, 2, 0, 3]).get_text(&codes, 9, 10).string, "");
}

fn header() -> CardHeader {
    CardHeader {
        sector_count: 31,
        checksum: 0x1234,
        device_ids: [1, 0x01020304, 3],
        vendor_id: "VENDOR-ID-16-CHR".to_string(),
        product_id: "product id\u{e9}\u{0}\u{0}\u{0}\u{0}\u{ff}".to_string(),
        card_type: CardType::PromoItem,
        card_id: 7,
        year: 2024,
        month: 2,
        day: 29,
        revision: 5,
        md5: [9; 16],
    }
}

#[test]
fn card_header_bytes() {
    let bytes = save_card_header(&header()).unwrap();
    assert_eq!(bytes.len(), 0x1000);
    assert_eq!(bytes[..8], [31, 0, 0x34, 0x12, 1, 0, 0, 0]);
    assert_eq!(bytes[8..12], [4, 3, 2, 1]);
    assert_eq!(&bytes[16..32], b"VENDOR-ID-16-CHR");
    assert_eq!(bytes[42..48], [0xe9, 0, 0, 0, 0, 0xff]);
    assert_eq!(bytes[48..64], [2, 0, 7, 0, 0, 0, 0xe8, 7, 2, 0, 29, 0, 5, 0, 0, 0]);
    assert_eq!(bytes[64..80], [9; 16]);
    assert!(bytes[80..].iter().all(|b| *b == 0));
    let read = read_card_header(&DataView::new(&bytes)).unwrap();
    assert_eq!(read.vendor_id, header().vendor_id);
    assert_eq!(read.product_id, header().product_id);
    assert_eq!(read.card_type, CardType::PromoItem);
    assert_eq!(read.device_ids, [1, 0x01020304, 3]);
    assert_eq!((read.year, read.month, read.day, read.revision), (2024, 2, 29, 5));
    assert_eq!(read.md5, [9; 16]);
    assert_eq!(save_card_header(&read).unwrap(), bytes);
}

#[test]
fn card_header_with_errors() {
    let mut unknown = header();
    unknown.card_type = CardType::Unknown;
    assert_eq!(save_card_header(&unknown).err(), Some(Error::InvalidCardType));
    let mut short = header();
    short.vendor_id = "short".to_string();
    assert_eq!(save_card_header(&short).err(), Some(Error::InvalidCardId));
    let mut wide = header();
    wide.product_id = "product id 12345\u{100}"[1..].to_string();
    assert_eq!(save_card_header(&wide).err(), Some(Error::InvalidCardId));
    assert_eq!(read_card_header(&DataView::new(&[0; 79])).err(), Some(Error::CardTooShort));
    let mut cleared = header();
    cleared.clear_device_ids();
    assert_eq!(cleared.device_ids, [0, 0, 0]);
    assert_eq!(cleared.card_id, 7);
}

#[test]
fn checksum_wraps_round() {
    assert_eq!(calc_checksum(&[]), 0);
    assert_eq!(calc_checksum(&[1, 0, 2, 0, 9]), 3);
    assert_eq!(calc_checksum(&[0xff, 0xff, 0x02, 0x00]), 1);
    assert_eq!(calc_checksum(&[0x00, 0x80, 0x00, 0x80, 0x34, 0x12]), 0x1234);
}

#[test]
fn digest_goes_to_its_place() {
    let mut data = vec![1u8; 100];
    write_digest(&mut data, &[7; 16]);
    assert_eq!(data[63], 1);
    assert_eq!(data[64..80], [7; 16]);
    assert_eq!(data[80], 1);
    assert_eq!(data.len(), 100);
}

fn image(colors: u16) -> ImageSet {
    ImageSet {
        original_index: 0,
        width: 8,
        height: 8,
        width_in_sprites: 1,
        height_in_sprites: 1,
        is_quadrupled: false,
        first_palette_index: 0,
        palettes: vec![(0..colors).map(|c| Color::from_word(c * 3)).collect()],
        subimages: vec![SubImage {
            offset_x: 1,
            offset_y: 2,
            pixel_data: (0..64).map(|p| p % colors as u32).collect(),
        }],
    }
}

fn data_pack() -> DataPack {
    DataPack {
        table1: vec![vec![1, 2]],
        particle_emitters: vec![ParticleEmitter { data: vec![5; 33] }],
        scenes: vec![],
        tamastrings: vec![TamaString {
            id: EntityId::new(1),
            unknown1: 0,
            unknown2: 0,
            unknown3: 0,
            value: Text::from_data(&codes(), &[1, 2, 3]),
        }],
        table9: vec![],
        items: vec![],
        characters: vec![],
        graphics_nodes: vec![GraphicsNode { data: vec![1, 2] }],
        frame_groups: vec![],
        card_id: 0x55aa,
    }
}

fn card() -> TamaSmaCard {
    TamaSmaCard {
        header: header(),
        data_pack: data_pack(),
        sprite_pack: SpritePack { image_sets: vec![image(4), image(16)] },
    }
}

#[test]
fn card_is_built_and_sealed() {
    let mut card = card();
    card.header.sector_count = 0;
    let bytes =
        save_card(&mut card.header, &card.data_pack, &card.sprite_pack, BinSize::Card128KB)
            .unwrap();
    assert_eq!(bytes.len(), 0x20000);
    assert_eq!(card.header.sector_count, 31);
    assert_eq!(bytes[..2], [31, 0]);
    assert_eq!(
        bytes[0x20000 - 16..],
        [50, 132, 171, 86, 34, 17, 220, 254, 142, 107, 85, 255, 181, 16, 127, 51]
    );
    assert_eq!(bytes[0x1000..0x1004], [0x32, 0x32, 4, 0]);
    assert_eq!(bytes[0x1008..0x100c], 68u32.to_le_bytes());
    let pack_len = u32::from_le_bytes([bytes[0x100c], bytes[0x100d], bytes[0x100e], bytes[0x100f]]);
    let counted = u32::from_le_bytes([bytes[0x1010], bytes[0x1011], bytes[0x1012], bytes[0x1013]]);
    assert_eq!(counted + 2, pack_len);
    let sprites_at = u32::from_le_bytes([bytes[0x1018], bytes[0x1019], bytes[0x101a], bytes[0x101b]]);
    assert_eq!(sprites_at, 68 + pack_len);
    assert_eq!(sprites_at % 32, 0);
    let mut sum = 0u16;
    for pair in bytes[1000..].chunks(2) {
        sum = sum.wrapping_add(u16::from_le_bytes([pair[0], pair[1]]));
    }
    assert_eq!(bytes[2..4], sum.to_le_bytes());
    let mut hasher = Md5::new();
    hasher.update(&bytes[..64]);
    assert_eq!(bytes[64..80], hasher.finalize()[..]);
    assert_ne!(bytes[64..80], bytes[48..64]);
}

#[test]
fn card_round_trips() {
    let mut card = card();
    let bytes =
        save_card(&mut card.header, &card.data_pack, &card.sprite_pack, BinSize::Card1MB).unwrap();
    assert_eq!(bytes.len(), 0x100000);
    let read = read_card(&codes(), &DataView::new(&bytes)).unwrap();
    assert_eq!(read.header.sector_count, 255);
    assert_eq!(read.header.vendor_id, "VENDOR-ID-16-CHR");
    assert_eq!(read.data_pack.card_id, 0x55aa);
    assert_eq!(read.data_pack.table1, vec![vec![1, 2]]);
    assert_eq!(read.data_pack.tamastrings[0].value.string, "bcd");
    assert_eq!(read.sprite_pack.image_sets.len(), 2);
    assert_eq!(read.sprite_pack.image_sets[1].palettes[0].len(), 16);
    let mut again = read;
    let saved = save_card(
        &mut again.header,
        &again.data_pack,
        &again.sprite_pack,
        bin_size_of(bytes.len()),
    )
    .unwrap();
    assert_eq!(saved, bytes);
}

#[test]
fn card_with_errors() {
    let mut card = card();
    assert_eq!(
        save_card(&mut card.header, &card.data_pack, &card.sprite_pack, BinSize::TooBig).err(),
        Some(Error::InvalidCardSize)
    );
    assert_eq!(
        save_card(&mut card.header, &card.data_pack, &card.sprite_pack, BinSize::Firmware).err(),
        Some(Error::InvalidCardSize)
    );
    card.data_pack.particle_emitters =
        (0..2000).map(|_| ParticleEmitter { data: vec![1; 33] }).collect();
    match save_card(&mut card.header, &card.data_pack, &card.sprite_pack, BinSize::Card128KB) {
        Err(Error::DataTooLarge { size, limit }) => {
            assert_eq!(limit, 0x20000 - 16);
            assert!(size > limit);
        }
        other => panic!("{:?}", other.map(|b| b.len())),
    }
    assert_eq!(read_card(&codes(), &DataView::new(&[0; 100])).err(), Some(Error::CardTooShort));
    let mut bytes = vec![0u8; 0x1100];
    assert_eq!(read_card(&codes(), &DataView::new(&bytes)).err(), Some(Error::TooFewPacks));
    bytes[0x1002] = 2;
    assert_eq!(
        read_card(&codes(), &DataView::new(&bytes)).err(),
        Some(Error::PackNotFound { pack: 0 })
    );
    bytes[0x1008] = 68;
    bytes[0x1011] = 0xff;
    assert_eq!(
        read_card(&codes(), &DataView::new(&bytes)).err(),
        Some(Error::PackNotFound { pack: 0 })
    );
}

#[test]
fn kinds_and_sizes_of_images() {
    assert_eq!(bin_type_of(16777216), BinType::Firmware);
    assert_eq!(bin_type_of(16777215), BinType::SmaCard);
    assert_eq!(bin_size_of(16777216), BinSize::Firmware);
    assert_eq!(bin_size_of(0x20000), BinSize::Card128KB);
    assert_eq!(bin_size_of(0x20001), BinSize::Card1MB);
    assert_eq!(bin_size_of(0x100000), BinSize::Card1MB);
    assert_eq!(bin_size_of(0x200000), BinSize::Card2MB);
    assert_eq!(bin_size_of(0x200001), BinSize::TooBig);
}

#[test]
fn menu_strings_fill_their_room() {
    let codes = codes();
    let strings = vec![
        Text::from_data(&codes, &[1, 2, 3]),
        Text::from_data(&codes, &[]),
        Text::from_data(&codes, &[9]),
    ];
    let bytes = save_menu_strings(&strings).unwrap();
    assert_eq!(bytes.len(), 29990);
    assert_eq!(
        bytes[..32],
        [3, 0, 5, 0, 9, 0, 10, 0, 12, 0, 1, 0, 2, 0, 3, 0, 0, 0, 0, 0, 9, 0, 0, 0, 0, 0, 0, 0, 0,
            0, 0, 0]
    );
    let read = read_menu_strings(&codes, &DataView::new(&bytes)).unwrap();
    assert_eq!(read.len(), 3);
    assert_eq!(read[0].data, vec![1, 2, 3]);
    assert_eq!(read[0].string, "bcd");
    assert!(read[1].data.is_empty());
    assert_eq!(read[2].data, vec![9]);
    let long = vec![Text::from_data(&codes, &vec![1; 14991])];
    assert_eq!(save_menu_strings(&long).unwrap().len(), 29990);
    let longer = vec![Text::from_data(&codes, &vec![1; 14992])];
    assert_eq!(
        save_menu_strings(&longer).err(),
        Some(Error::SizeExceeded { size: 29992, limit: 29990 })
    );
    assert_eq!(
        read_menu_strings(&codes, &DataView::new(&[2, 0, 4, 0, 5, 0])).err(),
        Some(Error::MenuStringsTruncated)
    );
    assert_eq!(
        read_menu_strings(&codes, &DataView::new(&[1, 0, 3, 0, 2, 0])).err(),
        Some(Error::MenuStringsTruncated)
    );
}

const MENU_AT: usize = 0x2000;

fn firmware(use_patch_header: bool) -> Firmware {
    Firmware {
        data_pack: data_pack(),
        sprite_pack: SpritePack { image_sets: vec![image(4)] },
        menu_strings: vec![Text::from_data(&codes(), &[4, 5]); 505],
        use_patch_header,
    }
}

fn blank_image() -> Vec<u8> {
    let mut original = vec![0xeeu8; 16777216];
    original[MENU_AT..MENU_AT + 4].copy_from_slice(&[0xf9, 0x01, 0xfb, 0x01]);
    original
}

fn patch_header() -> Vec<u8> {
    let mut header = vec![0x11u8; 1024];
    header[..8].copy_from_slice(&[0x4f, 0x86, 0xa0, 0x86, 0x0a, 0xfe, 0x84, 0x30]);
    header
}

#[test]
fn firmware_keeps_its_length_and_round_trips() {
    let original = blank_image();
    let saved = save_firmware(&original, &firmware(false), &[]).unwrap();
    assert_eq!(saved.len(), original.len());
    assert_eq!(saved[..MENU_AT], original[..MENU_AT]);
    assert_eq!(saved[MENU_AT..MENU_AT + 6], [0xf9, 0x01, 0xfb, 0x01, 0xfe, 0x01]);
    assert_eq!(saved[MENU_AT + 29990], 0xee);
    assert_eq!(saved[0x6CE000 - 1], 0xee);
    assert_eq!(saved[0x6CE000..0x6CE004], 40u32.to_le_bytes());
    assert_eq!(saved[0x730000 - 1], 0);
    assert_eq!(saved[0x730000..0x730004], 16u32.to_le_bytes());
    assert_eq!(saved[16777215], 0xee);
    let read = read_firmware(&codes(), &DataView::new(&saved)).unwrap();
    assert!(!read.use_patch_header);
    assert_eq!(read.data_pack.card_id, 0x55aa);
    assert_eq!(read.menu_strings.len(), 505);
    assert_eq!(read.menu_strings[504].data, vec![4, 5]);
    assert_eq!(read.sprite_pack.image_sets.len(), 1);
}

#[test]
fn patch_header_is_put_in_front_and_the_length_kept() {
    let original = save_firmware(&blank_image(), &firmware(false), &[]).unwrap();
    let mut with = read_firmware(&codes(), &DataView::new(&original)).unwrap();
    with.sprite_pack = SpritePack { image_sets: vec![image(4)] };
    with.use_patch_header = true;
    let header = patch_header();
    let saved = save_firmware(&original, &with, &header).unwrap();
    assert_eq!(saved.len(), original.len());
    assert_eq!(saved[..1024], header[..]);
    assert_eq!(saved[1024..], original[..original.len() - 1024]);
    let read = read_firmware(&codes(), &DataView::new(&saved)).unwrap();
    assert!(read.use_patch_header);
    assert_eq!(read.data_pack.card_id, 0x55aa);
    assert_eq!(read.menu_strings[0].data, vec![4, 5]);

    let mut without = read;
    without.use_patch_header = false;
    let back = save_firmware(&saved, &without, &[]).unwrap();
    assert_eq!(back.len(), original.len());
    assert_eq!(back[..original.len() - 1024], original[..original.len() - 1024]);
    assert!(back[original.len() - 1024..].iter().all(|b| *b == 0xff));

    assert_eq!(
        save_firmware(&original, &with, &header[..1000]).err(),
        Some(Error::SizeMismatch { expected: 1024, size: 1000 })
    );
}

#[test]
fn firmware_with_errors() {
    let mut original = blank_image();
    original[MENU_AT] = 0;
    assert_eq!(
        save_firmware(&original, &firmware(false), &[]).err(),
        Some(Error::MenuStringsNotFound)
    );
    let original = save_firmware(&blank_image(), &firmware(false), &[]).unwrap();
    assert_eq!(
        read_firmware(&codes(), &DataView::new(&original[..0x730000 - 1])).err(),
        Some(Error::FirmwareTooShort)
    );
    let mut unmarked = original.clone();
    unmarked[MENU_AT] = 0;
    assert_eq!(
        read_firmware(&codes(), &DataView::new(&unmarked)).err(),
        Some(Error::MenuStringsNotFound)
    );
    let mut big = firmware(false);
    big.data_pack.particle_emitters =
        (0..7000).map(|_| ParticleEmitter { data: vec![1; 33] }).collect();
    match save_firmware(&original, &big, &[]) {
        Err(Error::SizeExceeded { size, limit }) => {
            assert_eq!(limit, 0x62000);
            assert!(size > limit);
        }
        other => panic!("{:?}", other.map(|b| b.len())),
    }
}

#[test]
fn images_are_opened_by_their_length() {
    let original = save_firmware(&blank_image(), &firmware(false), &[]).unwrap();
    let mut opened = open(&codes(), &DataView::new(&original)).unwrap();
    assert!(matches!(opened, Container::Firmware(_)));
    let saved = save(&mut opened, &original, BinSize::Firmware, &[]).unwrap();
    assert_eq!(saved, original);

    let mut card = card();
    let bytes =
        save_card(&mut card.header, &card.data_pack, &card.sprite_pack, BinSize::Card128KB)
            .unwrap();
    let mut opened = open(&codes(), &DataView::new(&bytes)).unwrap();
    assert!(matches!(opened, Container::SmaCard(_)));
    assert_eq!(save(&mut opened, &[], BinSize::Card128KB, &[]).unwrap(), bytes);
    assert_eq!(
        save(&mut opened, &[], BinSize::Firmware, &[]).err(),
        Some(Error::InvalidCardSize)
    );
}

#[test]
fn the_title_names_the_file_and_marks_changes() {
    assert_eq!(window_title(None, false), "Smarty Pants");
    assert_eq!(window_title(None, true), "Smarty Pants");
    assert_eq!(window_title(Some("card.bin"), false), "Smarty Pants - card.bin");
    assert_eq!(window_title(Some("card.bin"), true), "Smarty Pants - card.bin*");
    assert!(is_card(BinSize::Card128KB) && is_card(BinSize::Card1MB) && is_card(BinSize::Card2MB));
    assert!(!is_card(BinSize::Firmware) && !is_card(BinSize::TooBig));
}
