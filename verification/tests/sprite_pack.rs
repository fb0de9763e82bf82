use smarty_pants::data_view::DataView;
use smarty_pants::error::Error;
use smarty_pants::sprite_pack::image_def::{
    get_image_sets, save_image_sets, ImageSet, SubImage,
};
use smarty_pants::sprite_pack::palette::{get_palettes, save_palettes, Color};
use smarty_pants::sprite_pack::raster::Raster;
use smarty_pants::sprite_pack::sprite::{
    get_sprites, save_pixel_data, save_sprites, store_chunk, Sprite, SpriteDef,
};
use smarty_pants::sprite_pack::pixels::pack_pixels;
use smarty_pants::sprite_pack::SpritePack;

#[test]
fn colour_words() {
    assert_eq!(Color::from_word(0x0000).as_vec(), vec![0, 0, 0, 255]);
    assert_eq!(Color::from_word(0x8000).as_vec(), vec![0, 0, 0, 0]);
    assert_eq!(Color::from_word(0x7fff).as_vec(), vec![248, 248, 248, 255]);
    assert_eq!(Color::from_word(0x7c00).as_vec(), vec![248, 0, 0, 255]);
    assert_eq!(Color::from_word(0x03e0).as_vec(), vec![0, 248, 0, 255]);
    assert_eq!(Color::from_word(0x001f).as_vec(), vec![0, 0, 248, 255]);
    assert_eq!(Color::new(8, 16, 24, 255).as_word(), 0x0443);
    assert_eq!(Color::new(8, 16, 24, 255).as_bytes(), [0x43, 0x04]);
    assert_eq!(Color::from_bytes([0x43, 0x04]).as_rgba(), [8, 16, 24, 255]);
    assert_eq!(Color::new(0, 0, 0, 0).as_word(), 0x8000);
}

#[test]
fn colour_words_round_trip() {
    for word in 0..=u16::MAX {
        assert_eq!(Color::from_word(word).as_word(), word);
    }
}

#[test]
fn colours_are_equal_by_their_words() {
    assert!(Color::new(8, 16, 31, 255) == Color::new(8, 16, 24, 200));
    assert!(Color::new(8, 16, 24, 255) != Color::new(8, 16, 24, 0));
    assert!(Color::new(0, 0, 0, 255) != Color::new(0, 0, 8, 255));
}

#[test]
fn colours_of_pixels() {
    assert_eq!(Color::from_rgba(&[255, 255, 255, 255]).as_vec(), vec![248, 248, 248, 255]);
    assert_eq!(Color::from_rgba(&[13, 100, 7, 255]).as_vec(), vec![8, 96, 0, 255]);
    assert_eq!(Color::from_rgba(&[13, 100, 7, 254]).as_vec(), vec![0, 0, 0, 0]);
}

#[test]
fn palettes_as_bytes() {
    let colors = get_palettes(&[0x43, 0x04, 0x00, 0x80, 0xff]).unwrap();
    assert_eq!(colors.len(), 2);
    assert_eq!(colors[0].as_vec(), vec![8, 16, 24, 255]);
    assert_eq!(save_palettes(&colors).unwrap(), vec![0x43, 0x04, 0x00, 0x80]);
}

fn sprite(index: usize, width: u32, height: u32, bpp: u32, seed: u32) -> Sprite {
    Sprite {
        index,
        width,
        height,
        bpp,
        offset_x: -3,
        offset_y: 4,
        is_quadrupled: false,
        pixels: (0..width * height).map(|i| (i * seed + i / 5) % (1 << bpp)).collect(),
    }
}

fn chunk_of(pool: &[u8], def: &SpriteDef, len: usize) -> Vec<u8> {
    let at = def.pixel_data_index as usize * len;
    pool[at..at + len].to_vec()
}

#[test]
fn pixel_pool_shares_equal_sprites() {
    let sprites = vec![
        sprite(0, 8, 8, 2, 3),
        sprite(1, 16, 16, 4, 7),
        sprite(2, 8, 8, 2, 3),
        sprite(3, 8, 8, 6, 11),
        sprite(4, 16, 16, 4, 7),
        sprite(5, 8, 8, 2, 5),
    ];
    let (pool, defs) = save_pixel_data(&sprites).unwrap();
    assert_eq!(defs.len(), 6);
    let mut naive = 0;
    for (sprite, def) in sprites.iter().zip(&defs) {
        let bytes = pack_pixels(&sprite.pixels, sprite.bpp as usize);
        naive += bytes.len();
        assert_eq!(chunk_of(&pool, def, bytes.len()), bytes);
        assert_eq!(def.index, sprite.index);
        assert_eq!((def.offset_x, def.offset_y), (-3, 4));
        assert_eq!((def.width as u32, def.height as u32, def.bpp as u32),
            (sprite.width, sprite.height, sprite.bpp));
    }
    assert_eq!(defs[0].pixel_data_index, defs[2].pixel_data_index);
    assert_eq!(defs[1].pixel_data_index, defs[4].pixel_data_index);
    assert_eq!(defs[1].pixel_data_index, 0);
    assert!(pool.len() < naive);
    assert_eq!(pool.len(), 128 + 48 + 16 + 16 + 16);
}

#[test]
fn pixel_pool_of_nothing() {
    let (pool, defs) = save_pixel_data(&[]).unwrap();
    assert!(pool.is_empty());
    assert!(defs.is_empty());
}

#[test]
fn pixel_pool_rejects_what_a_record_cannot_hold() {
    let mut wide = sprite(0, 8, 8, 2, 1);
    wide.width = 256;
    assert_eq!(
        save_pixel_data(&[sprite(0, 8, 8, 2, 1), wide]).err(),
        Some(Error::InvalidSprite { sprite: 1 })
    );
    let mut far = sprite(0, 8, 8, 2, 1);
    far.offset_x = 40000;
    assert_eq!(save_pixel_data(&[far]).err(), Some(Error::InvalidSprite { sprite: 0 }));
}

#[test]
fn sprite_records() {
    let def = SpriteDef {
        index: 0,
        pixel_data_index: 0x0102,
        offset_x: -2,
        offset_y: 3,
        bpp: 6,
        width: 32,
        height: 16,
        is_quadrupled: false,
    };
    let bytes = save_sprites(&[def]).unwrap();
    assert_eq!(bytes, vec![0x02, 0x01, 0xfe, 0xff, 0x03, 0x00, 0x62, 0x00]);
    let bad = SpriteDef {
        index: 0,
        pixel_data_index: 0,
        offset_x: 0,
        offset_y: 0,
        bpp: 3,
        width: 8,
        height: 8,
        is_quadrupled: false,
    };
    assert_eq!(save_sprites(&[bad]).err(), Some(Error::InvalidSprite { sprite: 0 }));
}

#[test]
fn sprites_from_records_and_pool() {
    let sprites = vec![sprite(0, 8, 8, 2, 3), sprite(1, 16, 8, 4, 7)];
    let (pool, defs) = save_pixel_data(&sprites).unwrap();
    let records = save_sprites(&defs).unwrap();
    let read = get_sprites(&DataView::new(&records), &DataView::new(&pool)).unwrap();
    assert_eq!(read.len(), 2);
    for (a, b) in read.iter().zip(&sprites) {
        assert_eq!(a.index, b.index);
        assert_eq!((a.width, a.height, a.bpp), (b.width, b.height, b.bpp));
        assert_eq!((a.offset_x, a.offset_y), (-3, 4));
        assert_eq!(a.pixels, b.pixels);
        assert!(!a.is_quadrupled);
    }
    assert_eq!(
        get_sprites(&DataView::new(&records), &DataView::new(&pool[..pool.len() - 1])).err(),
        Some(Error::PixelDataNotFound { sprite: defs.iter().position(|d| {
            (d.pixel_data_index as usize + 1) * (d.width as usize * d.height as usize
                * d.bpp as usize / 8) == pool.len()
        }).unwrap() })
    );
}

fn palette(count: usize, seed: u16) -> Vec<Color> {
    (0..count).map(|i| Color::from_word((i as u16 * 37 + seed) & 0x7fff)).collect()
}

fn image(index: usize, columns: u32, rows: u32, colors: Vec<Color>, subimages: usize) -> ImageSet {
    let (width, height) = (columns * 8, rows * 8);
    let count = colors.len() as u32;
    ImageSet {
        original_index: index,
        width,
        height,
        width_in_sprites: columns,
        height_in_sprites: rows,
        is_quadrupled: false,
        first_palette_index: 0,
        palettes: vec![colors],
        subimages: (0..subimages)
            .map(|s| SubImage {
                offset_x: 10 * s as i32,
                offset_y: -5,
                pixel_data: (0..width * height)
                    .map(|p| (p * 7 + s as u32 + p / width) % count)
                    .collect(),
            })
            .collect(),
    }
}

#[test]
fn image_cut_into_sprites() {
    let set = image(0, 2, 1, palette(4, 1), 2);
    let sprites = set.to_sprites(2, 10).unwrap();
    assert_eq!(sprites.len(), 4);
    assert_eq!(sprites[0].index, 10);
    assert_eq!(sprites[3].index, 13);
    assert_eq!((sprites[1].width, sprites[1].height, sprites[1].bpp), (8, 8, 2));
    assert_eq!((sprites[0].offset_x, sprites[0].offset_y), (4, -1));
    assert_eq!((sprites[1].offset_x, sprites[1].offset_y), (12, -1));
    assert_eq!((sprites[2].offset_x, sprites[2].offset_y), (14, -1));
    for y in 0..8 {
        for x in 0..8 {
            assert_eq!(sprites[1].pixels[y * 8 + x], set.subimages[0].pixel_data[y * 16 + 8 + x]);
            assert_eq!(sprites[2].pixels[y * 8 + x], set.subimages[1].pixel_data[y * 16 + x]);
        }
    }
    let summary = set.to_summary();
    assert_eq!((summary.width, summary.height, summary.palette_count), (16, 8, 1));
    assert_eq!(summary.subimages[1].offset_x, 10);
}

#[test]
fn image_that_cannot_be_cut() {
    let mut set = image(3, 2, 1, palette(4, 1), 1);
    set.subimages[0].pixel_data.pop();
    assert_eq!(set.to_sprites(2, 0).err(), Some(Error::InvalidImage { image: 3 }));
    let mut set = image(4, 2, 1, palette(4, 1), 1);
    set.width_in_sprites = 0;
    assert_eq!(set.to_sprites(2, 0).err(), Some(Error::InvalidImage { image: 4 }));
}

#[test]
fn palettes_are_padded_and_found_again() {
    let sets = vec![
        image(0, 1, 1, palette(3, 1), 1),
        image(1, 2, 2, palette(5, 9), 2),
        image(2, 1, 1, palette(3, 1), 1),
        image(3, 1, 1, palette(17, 3), 1),
    ];
    let (data, sprites, colors) = save_image_sets(&sets).unwrap();
    assert_eq!(data.len(), 24);
    assert_eq!(sprites.len(), 1 + 8 + 1 + 1);
    assert_eq!(colors.len() % 4, 0);
    assert_eq!(colors.len(), 4 + 16 + 64);
    let mut first_sprite = 0;
    for (i, set) in sets.iter().enumerate() {
        let record = &data[6 * i..6 * i + 6];
        assert_eq!(u16::from_le_bytes([record[0], record[1]]), first_sprite);
        assert_eq!(record[2] as u32, set.width_in_sprites);
        assert_eq!(record[3] as u32, set.height_in_sprites);
        let at = 4 * u16::from_le_bytes([record[4], record[5]]) as usize;
        for (c, color) in set.palettes[0].iter().enumerate() {
            assert!(colors[at + c] == *color);
        }
        first_sprite += (set.subimages.len() as u32 * set.width_in_sprites
            * set.height_in_sprites) as u16;
    }
    assert_eq!(data[4..6], data[16..18]);
    assert!(colors[3] == Color::new(0, 0, 0, 0));
    assert_eq!(sprites[1].bpp, 4);
    assert_eq!(sprites[10].bpp, 6);
}

#[test]
fn palette_that_begins_like_another_is_shared() {
    let mut long = palette(4, 1);
    long.extend(palette(3, 500));
    let sets = vec![image(0, 1, 1, palette(4, 1), 1), image(1, 1, 1, long.clone(), 1)];
    let (data, _, colors) = save_image_sets(&sets).unwrap();
    assert_eq!(colors.len(), 16);
    assert_eq!(data[4..6], [0, 0]);
    assert_eq!(data[10..12], [0, 0]);
    for (c, color) in long.iter().enumerate() {
        assert!(colors[c] == *color);
    }
}

#[test]
fn too_many_colours() {
    let sets = vec![image(0, 1, 1, palette(4, 1), 1), image(1, 1, 1, palette(257, 3), 1)];
    assert_eq!(
        save_image_sets(&sets).err(),
        Some(Error::TooManyColors { image: 1, count: 257 })
    );
    let mut none = image(0, 1, 1, palette(4, 1), 1);
    none.palettes.clear();
    assert_eq!(save_image_sets(&[none]).err(), Some(Error::InvalidImage { image: 0 }));
}

fn same_images(a: &[ImageSet], b: &[ImageSet]) {
    assert_eq!(a.len(), b.len());
    for (x, y) in a.iter().zip(b) {
        assert_eq!((x.width, x.height), (y.width, y.height));
        assert_eq!(
            (x.width_in_sprites, x.height_in_sprites),
            (y.width_in_sprites, y.height_in_sprites)
        );
        assert_eq!(x.subimages.len(), y.subimages.len());
        for (s, t) in x.subimages.iter().zip(&y.subimages) {
            assert_eq!((s.offset_x, s.offset_y), (t.offset_x, t.offset_y));
            assert_eq!(s.pixel_data, t.pixel_data);
        }
        for (c, color) in y.palettes[0].iter().enumerate() {
            assert!(x.palettes[0][c] == *color);
        }
    }
}

#[test]
fn sprite_pack_round_trips() {
    let sets = vec![
        image(0, 1, 1, palette(4, 1), 1),
        image(1, 2, 2, palette(16, 9), 2),
        image(2, 1, 2, palette(64, 3), 3),
    ];
    let pack = SpritePack { image_sets: sets };
    let bytes = pack.as_bytes().unwrap();
    assert_eq!(bytes[..4], 16u32.to_le_bytes());
    assert_eq!(bytes[4..8], (16u32 + 18).to_le_bytes());
    let pool_at = u32::from_le_bytes([bytes[12], bytes[13], bytes[14], bytes[15]]);
    assert_eq!(pool_at % 32, 0);
    let read = SpritePack::from_data(&DataView::new(&bytes)).unwrap();
    same_images(&read.image_sets, &pack.image_sets);
    assert_eq!(read.image_sets[1].first_palette_index, 1);
    assert_eq!(read.image_sets[1].original_index, 1);
    assert_eq!(read.as_bytes().unwrap(), bytes);
}

#[test]
fn sprite_pack_with_errors() {
    assert_eq!(
        SpritePack::from_data(&DataView::new(&[0; 15])).err(),
        Some(Error::SpritePackTooShort)
    );
    let mut header = Vec::new();
    for start in [16u32, 16, 12, 16] {
        header.extend_from_slice(&start.to_le_bytes());
    }
    assert_eq!(
        SpritePack::from_data(&DataView::new(&header)).err(),
        Some(Error::InvalidSectionOffset { section: 1 })
    );
    let mut header = Vec::new();
    for start in [16u32, 16, 16, 17] {
        header.extend_from_slice(&start.to_le_bytes());
    }
    assert_eq!(
        SpritePack::from_data(&DataView::new(&header)).err(),
        Some(Error::InvalidSectionOffset { section: 2 })
    );
    let pack = SpritePack { image_sets: vec![image(0, 1, 1, palette(4, 1), 1)] };
    let mut bytes = pack.as_bytes().unwrap();
    bytes[16] = 9;
    assert_eq!(
        SpritePack::from_data(&DataView::new(&bytes)).err(),
        Some(Error::SpriteNotFound { image: 0 })
    );
    let mut bytes = pack.as_bytes().unwrap();
    bytes[20] = 9;
    assert_eq!(
        SpritePack::from_data(&DataView::new(&bytes)).err(),
        Some(Error::PaletteNotFound { image: 0 })
    );
    let bytes = pack.as_bytes().unwrap();
    assert_eq!(
        SpritePack::from_data(&DataView::new(&bytes[..bytes.len() - 1])).err(),
        Some(Error::PixelDataNotFound { sprite: 0 })
    );
}

#[test]
fn image_with_more_palettes() {
    let sets = vec![image(0, 1, 1, palette(4, 1), 1), image(1, 1, 1, palette(4, 90), 1)];
    let (data, sprites, mut colors) = save_image_sets(&sets).unwrap();
    colors.extend(palette(8, 700));
    let mut data = data;
    data[10] = 3;
    let read = get_image_sets(&DataView::new(&data), &sprites, &colors).unwrap();
    assert_eq!(read[0].palettes.len(), 3);
    assert_eq!(read[1].palettes.len(), 1);
    assert!(read[0].palettes[1][0] == palette(4, 90)[0]);
    assert!(read[0].palettes[2][1] == palette(8, 700)[1]);
    assert!(read[1].palettes[0][0] == palette(8, 700)[4]);
}

#[test]
fn images_as_pictures() {
    let set = image(0, 1, 1, palette(4, 1), 2);
    let images = set.to_images(0).unwrap();
    assert_eq!(images.len(), 2);
    assert_eq!((images[0].width, images[0].height), (8, 8));
    assert_eq!(images[0].data.len(), 256);
    let first = set.subimages[0].pixel_data[5] as usize;
    assert_eq!(images[0].data[20..24], set.palettes[0][first].as_rgba());
    assert_eq!(set.to_images(1).err(), Some(Error::PaletteNotFound { image: 0 }));
    let mut bad = image(0, 1, 1, palette(4, 1), 1);
    bad.subimages[0].pixel_data[9] = 4;
    assert_eq!(bad.to_images(0).err(), Some(Error::ColorNotFound { pixel: 9 }));
    let pack = SpritePack { image_sets: vec![set] };
    assert_eq!(pack.get_image_data().unwrap()[0].len(), 2);
}

fn sheet_of(set: &ImageSet) -> Raster {
    set.to_spritesheet().unwrap()
}

#[test]
fn sheet_of_an_image() {
    let mut set = image(0, 1, 1, palette(4, 1), 2);
    set.palettes.push(palette(4, 300));
    let sheet = sheet_of(&set);
    assert_eq!((sheet.width, sheet.height), (16, 16));
    assert_eq!(sheet.data.len(), 16 * 16 * 4);
    let at = |x: usize, y: usize| sheet.data[4 * (y * 16 + x)..4 * (y * 16 + x) + 4].to_vec();
    let pixel = |s: usize, x: usize, y: usize| set.subimages[s].pixel_data[y * 8 + x] as usize;
    assert_eq!(at(3, 2), set.palettes[0][pixel(0, 3, 2)].as_vec());
    assert_eq!(at(11, 2), set.palettes[0][pixel(1, 3, 2)].as_vec());
    assert_eq!(at(3, 10), set.palettes[1][pixel(0, 3, 2)].as_vec());
    assert_eq!(at(15, 15), set.palettes[1][pixel(1, 7, 7)].as_vec());
}

#[test]
fn sheet_taken_back_with_locked_colours() {
    let set = image(0, 1, 1, palette(4, 1), 2);
    let sheet = sheet_of(&set);
    let mut copy = image(0, 1, 1, palette(4, 1), 2);
    for sub in copy.subimages.iter_mut() {
        sub.pixel_data = vec![0; 64];
    }
    copy.replace_spritesheet(&sheet, true).unwrap();
    assert_eq!(copy.subimages[0].pixel_data, set.subimages[0].pixel_data);
    assert_eq!(copy.subimages[1].pixel_data, set.subimages[1].pixel_data);
    assert_eq!(copy.subimages[1].offset_x, 10);
    assert_eq!(copy.palettes[0].len(), 4);
}

#[test]
fn sheet_with_a_colour_that_the_locked_palette_lacks() {
    let mut set = image(0, 1, 1, palette(4, 1), 1);
    let mut sheet = sheet_of(&set);
    sheet.data[4 * 9..4 * 9 + 4].copy_from_slice(&[248, 248, 0, 255]);
    let before = set.subimages[0].pixel_data.clone();
    assert_eq!(
        set.replace_spritesheet(&sheet, true).err(),
        Some(Error::ColorNotFound { pixel: 9 })
    );
    assert_eq!(set.subimages[0].pixel_data, before);
}

#[test]
fn transparent_pixels_match_any_transparent_colour() {
    let mut colors = palette(3, 1);
    colors.push(Color::from_word(0x8123));
    let mut set = image(0, 1, 1, colors, 1);
    let mut sheet = sheet_of(&set);
    sheet.data[0..4].copy_from_slice(&[200, 100, 50, 0]);
    set.replace_spritesheet(&sheet, true).unwrap();
    assert_eq!(set.subimages[0].pixel_data[0], 3);
}

#[test]
fn sheet_gives_new_palettes() {
    let mut set = image(0, 1, 1, palette(4, 1), 1);
    set.palettes.push(palette(4, 300));
    let mut sheet = sheet_of(&set);
    let red = [248, 0, 0, 255];
    let blue = [0, 0, 248, 255];
    for p in 0..64 {
        let color = if p % 2 == 0 { red } else { blue };
        sheet.data[4 * p..4 * p + 4].copy_from_slice(&color);
        let other = if p % 2 == 0 { blue } else { red };
        sheet.data[4 * (64 + p)..4 * (64 + p) + 4].copy_from_slice(&other);
    }
    set.replace_spritesheet(&sheet, false).unwrap();
    assert_eq!(set.palettes.len(), 2);
    assert_eq!(set.palettes[0].len(), 2);
    assert_eq!(set.palettes[0][0].as_rgba(), red);
    assert_eq!(set.palettes[0][1].as_rgba(), blue);
    assert_eq!(set.palettes[1][0].as_rgba(), blue);
    assert_eq!(set.palettes[1][1].as_rgba(), red);
    assert_eq!(set.subimages[0].pixel_data[..4], [0, 1, 0, 1]);
}

#[test]
fn sheet_of_another_size() {
    let mut set = image(0, 1, 1, palette(4, 1), 2);
    let sheet = Raster::new(8, 8, vec![0; 256]).unwrap();
    assert_eq!(
        set.replace_spritesheet(&sheet, true).err(),
        Some(Error::DimensionMismatch {
            expected_width: 16,
            expected_height: 8,
            width: 8,
            height: 8
        })
    );
    assert!(Raster::new(8, 8, vec![0; 255]).is_none());
}

fn plain_sprite(index: usize, pixels: Vec<u32>) -> Sprite {
    Sprite {
        index,
        width: 8,
        height: 8,
        bpp: 2,
        offset_x: 0,
        offset_y: 0,
        is_quadrupled: false,
        pixels,
    }
}

#[test]
fn records_come_in_the_order_of_their_numbers() {
    let mut second = sprite(1, 8, 8, 2, 3);
    second.offset_x = 7;
    let mut first = sprite(0, 16, 8, 4, 5);
    first.offset_y = -9;
    let third = sprite(2, 8, 8, 2, 3);
    let sprites = vec![second.clone(), third.clone(), first.clone()];
    let (pool, defs) = save_pixel_data(&sprites).unwrap();
    let found: Vec<usize> = defs.iter().map(|d| d.index).collect();
    assert_eq!(found, vec![0, 1, 2]);
    assert_eq!((defs[0].width, defs[0].height, defs[0].bpp, defs[0].offset_y), (16, 8, 4, -9));
    assert_eq!((defs[1].width, defs[1].height, defs[1].bpp, defs[1].offset_x), (8, 8, 2, 7));
    assert_eq!(defs[0].pixel_data_index, 0);
    assert_eq!(defs[1].pixel_data_index, defs[2].pixel_data_index);
    assert_eq!(pool.len(), 64 + 16);
    assert_eq!(chunk_of(&pool, &defs[0], 64), pack_pixels(&first.pixels, 4));
    assert_eq!(chunk_of(&pool, &defs[1], 16), pack_pixels(&second.pixels, 2));

    let same = vec![plain_sprite(5, vec![0; 64]), plain_sprite(5, vec![1; 64]), plain_sprite(2, vec![2; 64])];
    let (_, defs) = save_pixel_data(&same).unwrap();
    let found: Vec<(usize, u16)> = defs.iter().map(|d| (d.index, d.pixel_data_index)).collect();
    assert_eq!(found, vec![(2, 2), (5, 0), (5, 1)]);
}

#[test]
fn equal_sprites_share_one_chunk() {
    let sprites = vec![plain_sprite(0, vec![1; 64]), plain_sprite(1, vec![1; 64])];
    let (pool, defs) = save_pixel_data(&sprites).unwrap();
    assert_eq!(pool, vec![0x55; 16]);
    assert_eq!(defs[0].pixel_data_index, 0);
    assert_eq!(defs[1].pixel_data_index, 0);
}

#[test]
fn a_single_sprite_is_the_whole_pool() {
    let pixels: Vec<u32> = (0..64).map(|i| i % 4).collect();
    let (pool, defs) = save_pixel_data(&[plain_sprite(0, pixels)]).unwrap();
    assert_eq!(pool, vec![0x1B; 16]);
    assert_eq!(defs.len(), 1);
    assert_eq!((defs[0].index, defs[0].pixel_data_index), (0, 0));
}

#[test]
fn chunks_go_to_the_next_multiple_of_their_length() {
    let mut pool = vec![1, 2, 3, 4, 5, 6];
    assert_eq!(store_chunk(&mut pool, &vec![1, 2, 3, 4]), Ok(0));
    assert_eq!(pool, vec![1, 2, 3, 4, 5, 6]);
    assert_eq!(store_chunk(&mut pool, &vec![5, 6, 0, 0]), Ok(2));
    assert_eq!(pool, vec![1, 2, 3, 4, 5, 6, 0, 0, 5, 6, 0, 0]);
    assert_eq!(store_chunk(&mut pool, &vec![5, 6, 0, 0]), Ok(1));
    assert_eq!(store_chunk(&mut pool, &vec![9, 9, 9]), Ok(4));
    assert_eq!(pool.len(), 15);
    assert_eq!(store_chunk(&mut pool, &vec![]), Ok(0));
    assert_eq!(pool.len(), 15);
    let mut empty = Vec::new();
    assert_eq!(store_chunk(&mut empty, &vec![7, 8]), Ok(0));
    assert_eq!(empty, vec![7, 8]);
}

#[test]
fn a_sprite_pack_is_written_the_same_each_time() {
    let sets = vec![
        image(0, 2, 1, palette(4, 1), 2),
        image(1, 1, 1, palette(4, 1), 1),
        image(2, 1, 2, palette(16, 5), 1),
    ];
    let pack = SpritePack { image_sets: sets.clone() };
    let again = SpritePack { image_sets: sets };
    let bytes = pack.as_bytes().unwrap();
    assert_eq!(again.as_bytes().unwrap(), bytes);
    assert_eq!(pack.as_bytes().unwrap(), bytes);
    assert!(SpritePack::from_data(&DataView::new(&bytes)).is_ok());
    let mut with_tail = bytes.clone();
    with_tail.extend_from_slice(&[0xff; 40]);
    let read = SpritePack::from_data(&DataView::new(&with_tail)).unwrap();
    same_images(&read.image_sets, &pack.image_sets);
}
