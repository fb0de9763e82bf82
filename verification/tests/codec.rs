use smarty_pants::data_pack::scene::{read_scene_layer, save_scene_layer, SceneLayer};
use smarty_pants::data_pack::{assemble_tables, get_table_offsets, EntityId};
use smarty_pants::data_view::{bytes_to_words, words_to_bytes, BitWriter, DataView};
use smarty_pants::error::Error;
use smarty_pants::sprite_pack::pixels::{pack_pixels, unpack_pixels};

fn empty_layer() -> SceneLayer {
    SceneLayer {
        x: None,
        y: None,
        image_id: None,
        subimage_index: None,
        unknown1: None,
        unknown2: None,
        unknown3: None,
        unknown4: None,
        unknown5: None,
        unknown6: None,
        unknown7: None,
        unknown8: None,
        flag1: false,
        flag2: false,
        flag3: false,
        flag4: false,
    }
}

#[test]
fn entity_id_round_trips_every_word() {
    for word in 0..=u16::MAX {
        assert_eq!(EntityId::new(word).to_word(), word);
    }
}

#[test]
fn entity_id_layout() {
    let card = EntityId::new(0x8312);
    assert_eq!(card.card_id, Some(3));
    assert_eq!(card.entity_id, 0x12);
    let global = EntityId::new(0x7abc);
    assert_eq!(global.card_id, None);
    assert_eq!(global.entity_id, 0x7abc);
    assert_eq!(EntityId { card_id: Some(0x7f), entity_id: 0xff }.to_word(), 0xffff);
}

fn directory(offsets: &[u32], len: usize) -> Vec<u8> {
    let mut data = Vec::new();
    for offset in offsets {
        data.extend_from_slice(&(offset / 2).to_le_bytes());
    }
    data.resize(len, 0);
    data
}

#[test]
fn table_directory_sizes_by_differences() {
    let mut offsets = vec![80u32, 100, 100, 250];
    offsets.resize(20, 250);
    let data = directory(&offsets, 300);
    let (found, sizes) = get_table_offsets(&DataView::new(&data)).unwrap();
    assert_eq!(found[..4], [80, 100, 100, 250]);
    assert_eq!(sizes[..3], [20, 0, 150]);
    assert_eq!(sizes[3], 0);
    assert_eq!(found[19], 250);
    assert_eq!(sizes[19], 50);
}

#[test]
fn table_directory_rejects_decreasing_offset() {
    let mut offsets = vec![80u32, 100, 90];
    offsets.resize(20, 100);
    let data = directory(&offsets, 300);
    assert_eq!(
        get_table_offsets(&DataView::new(&data)),
        Err(Error::InvalidTableOffset { table: 1 })
    );
}

#[test]
fn table_directory_rejects_last_offset_behind_end() {
    let offsets = vec![400u32; 20];
    let data = directory(&offsets, 300);
    assert_eq!(
        get_table_offsets(&DataView::new(&data)),
        Err(Error::InvalidTableOffset { table: 19 })
    );
}

#[test]
fn table_directory_rejects_short_data() {
    assert_eq!(
        get_table_offsets(&DataView::new(&[0u8; 79])),
        Err(Error::DirectoryTooShort)
    );
}

#[test]
fn minimal_data_pack() {
    let data = directory(&[80u32; 20], 80);
    let (offsets, sizes) = get_table_offsets(&DataView::new(&data)).unwrap();
    assert_eq!(offsets, vec![80; 20]);
    assert_eq!(sizes, vec![0; 20]);
    let tables: Vec<Vec<u8>> = vec![Vec::new(); 20];
    assert_eq!(assemble_tables(&tables, 0).unwrap(), data);
}

#[test]
fn scene_layer_with_only_x() {
    let mut layer = empty_layer();
    layer.x = Some(5);
    let bytes = save_scene_layer(&layer);
    assert_eq!(bytes, vec![0x01, 0x00, 0x05, 0x00]);
    let read = read_scene_layer(&DataView::new(&bytes), 0).unwrap();
    assert_eq!(read, layer);
    assert_eq!(read.x, Some(5));
    assert_eq!(read.y, None);
    assert_eq!(read.image_id, None);
}

#[test]
fn scene_layer_keeps_zero_fields_and_flags() {
    let mut layer = empty_layer();
    layer.y = Some(0);
    layer.unknown1 = Some(-2);
    layer.unknown8 = Some(0xbeef);
    layer.image_id = Some(EntityId { card_id: Some(2), entity_id: 7 });
    layer.flag2 = true;
    layer.flag4 = true;
    let bytes = save_scene_layer(&layer);
    assert_eq!(
        bytes,
        vec![0x0e, 0xa8, 0x00, 0x00, 0x07, 0x82, 0xfe, 0xff, 0xef, 0xbe]
    );
    assert_eq!(read_scene_layer(&DataView::new(&bytes), 0), Some(layer));
}

#[test]
fn scene_layer_cut_off_is_not_read() {
    assert_eq!(read_scene_layer(&DataView::new(&[0x03, 0x00, 0x05, 0x00]), 0), None);
    assert_eq!(read_scene_layer(&DataView::new(&[0x01]), 0), None);
}

#[test]
fn sprite_of_two_bits_a_pixel() {
    let pixels: Vec<u32> = (0..64).map(|i| (i * 7 + i / 8) % 4).collect();
    let bytes = pack_pixels(&pixels, 2);
    assert_eq!(bytes.len(), 16);
    assert_eq!(bytes[0], {
        let p = &pixels[..4];
        (p[0] << 6 | p[1] << 4 | p[2] << 2 | p[3]) as u8
    });
    let read = unpack_pixels(&DataView::new(&bytes), 0, 16, 64, 2);
    assert_eq!(read, pixels);
}

#[test]
fn pack_and_unpack_at_every_depth() {
    for bpp in [2usize, 4, 6, 8] {
        let pixels: Vec<u32> = (0..64u32).map(|i| (i * 37 + 11) % (1 << bpp)).collect();
        let bytes = pack_pixels(&pixels, bpp);
        assert_eq!(bytes.len(), 64 * bpp / 8);
        let read = unpack_pixels(&DataView::new(&bytes), 0, bytes.len(), 64, bpp);
        assert_eq!(read, pixels);
    }
}

#[test]
fn pack_fills_the_last_byte_with_zeros() {
    assert_eq!(pack_pixels(&[0b101, 0b011, 0b110], 3), vec![0b1010_1111, 0b0000_0000]);
    assert_eq!(pack_pixels(&[0x3f], 6), vec![0b1111_1100]);
}

#[test]
fn bit_writer_writes_high_bits_first() {
    let mut writer = BitWriter::new();
    writer.write_bit(true);
    writer.write_bits(0b0110, 4);
    writer.write_bits(0, 0);
    writer.end();
    assert_eq!(writer.bytes, vec![0b1011_0000]);
    assert_eq!(writer.shift, 0);
}

#[test]
fn words_and_bytes() {
    assert_eq!(words_to_bytes(&[0x1234, 0xff00]), vec![0x34, 0x12, 0x00, 0xff]);
    assert_eq!(bytes_to_words(&[0x34, 0x12, 0x00, 0xff, 0x01]), vec![0x1234, 0xff00]);
}

#[test]
fn data_view_reads() {
    let view = DataView::new(&[0x01, 0x02, 0x03, 0x84, 0xff, 0xff]);
    assert_eq!(view.len(), 6);
    assert_eq!(view.get_u8(3), 0x84);
    assert_eq!(view.get_u16(1), 0x0302);
    assert_eq!(view.get_i16(4), -1);
    assert_eq!(view.get_i16(2), -0x7bfd);
    assert_eq!(view.get_u32(0), 0x84030201);
    assert_eq!(view.chunk(2, 3).data, vec![0x03, 0x84, 0xff]);
    assert_eq!(view.get_bits(3, 1), vec![1, 0, 0, 0, 0, 1, 0, 0]);
    assert_eq!(view.find_bytes(&[0xff, 0xff]), Some(4));
    assert_eq!(view.find_bytes(&[0x02, 0x04]), None);
    assert_eq!(view.find_bytes(&[]), Some(0));
    assert_eq!(DataView::new(&[]).find_bytes(&[]), None);
}
