//! Telling the kinds of image apart.

use vstd::prelude::*;
use vstd::string::*;
use crate::data_view::DataView;
use crate::error::Error;
use crate::firmware::{
    Firmware, firmware_fails, firmware_is, firmware_saved, firmware_unsaved, read_firmware,
    save_firmware,
};
use crate::smacard::{
    TamaSmaCard, card_fails, card_is, card_unsaved, card_length, card_saved, card_sectors, is_card_size, read_card,
    save_card, CARD_HEADER_SIZE,
};
use crate::text::CharEncoding;

verus! {

/// The length of a firmware image.
pub const FIRMWARE_SIZE: usize = 0x100_0000;

/// The kind of an image.
#[derive(Clone, Copy, Debug, PartialEq, Eq, Structural)]
pub enum BinType {
    Firmware,
    SmaCard,
}

/// The size of an image: that of a firmware image, one of the three of a
/// card, or none of them.
#[derive(Clone, Copy, Debug, PartialEq, Eq, Structural)]
pub enum BinSize {
    Firmware,
    Card128KB,
    Card1MB,
    Card2MB,
    TooBig,
}

/// The kind of an image of `len` bytes: a firmware image has 16 MiB, all else
/// is a card.
pub open spec fn kind_of(len: int) -> BinType {
    if len == FIRMWARE_SIZE {
        BinType::Firmware
    } else {
        BinType::SmaCard
    }
}

/// The size of an image of `len` bytes: for a card the least of the three
/// sizes of cards that holds it.
pub open spec fn size_of(len: int) -> BinSize {
    if len == FIRMWARE_SIZE {
        BinSize::Firmware
    } else if len <= 0x2_0000 {
        BinSize::Card128KB
    } else if len <= 0x10_0000 {
        BinSize::Card1MB
    } else if len <= 0x20_0000 {
        BinSize::Card2MB
    } else {
        BinSize::TooBig
    }
}

/// The kind of an image of `len` bytes.
pub fn bin_type_of(len: usize) -> (kind: BinType)
    ensures
        kind == kind_of(len as int),
{
    if len == FIRMWARE_SIZE {
        BinType::Firmware
    } else {
        BinType::SmaCard
    }
}

/// The size that an image of `len` bytes has or is filled up to.
pub fn bin_size_of(len: usize) -> (size: BinSize)
    ensures
        size == size_of(len as int),
{
    if len == FIRMWARE_SIZE {
        BinSize::Firmware
    } else if len <= 0x2_0000 {
        BinSize::Card128KB
    } else if len <= 0x10_0000 {
        BinSize::Card1MB
    } else if len <= 0x20_0000 {
        BinSize::Card2MB
    } else {
        BinSize::TooBig
    }
}

/// What an image holds: the records of a firmware image or those of a card.
#[derive(Clone)]
pub enum Container {
    Firmware(Firmware),
    SmaCard(TamaSmaCard),
}

/// Whether `container` is what the image `s` holds.
pub open spec fn container_is(container: Container, s: Seq<u8>, codes: Seq<CharEncoding>) -> bool {
    match container {
        Container::Firmware(firmware) => s.len() == FIRMWARE_SIZE && firmware_is(
            firmware,
            s,
            codes,
        ),
        Container::SmaCard(card) => s.len() != FIRMWARE_SIZE && s.len() >= CARD_HEADER_SIZE
            && card_is(card, s, codes),
    }
}

/// The records of an image: those of a firmware image where it has the
/// length of one, else those of a card.
pub fn open(char_codes: &[CharEncoding], data: &DataView) -> (result: Result<Container, Error>)
    ensures
        match result {
            Ok(container) => container_is(container, data@, char_codes@),
            Err(error) => if data@.len() == FIRMWARE_SIZE {
                firmware_fails(data@, error)
            } else {
                card_fails(data@, error)
            },
        },
{
    match bin_type_of(data.len()) {
        BinType::Firmware => match read_firmware(char_codes, data) {
            Ok(firmware) => Ok(Container::Firmware(firmware)),
            Err(e) => Err(e),
        },
        BinType::SmaCard => match read_card(char_codes, data) {
            Ok(card) => Ok(Container::SmaCard(card)),
            Err(e) => Err(e),
        },
    }
}

/// The image of the records given. A firmware image is written into a copy
/// of `original_data` and has its length; `patch_header` is the patch header
/// of 1024 bytes, for where one has to be put in front. A card is built anew
/// in the size `bin_size`, and its header is given the number of sectors of
/// that size.
pub fn save(
    container: &mut Container,
    original_data: &[u8],
    bin_size: BinSize,
    patch_header: &[u8],
) -> (result: Result<Vec<u8>, Error>)
    ensures
        match result {
            Ok(out) => match *old(container) {
                Container::Firmware(firmware) => *final(container) == *old(container)
                    && out@.len() == original_data@.len() && firmware_saved(
                    out@,
                    original_data@,
                    firmware,
                    patch_header@,
                ),
                Container::SmaCard(_) => *final(container) matches Container::SmaCard(card)
                    && out@.len() == card_length(bin_size) && card.header.sector_count
                    == card_sectors(bin_size) && card_saved(
                    out@,
                    card.header,
                    card.data_pack,
                    card.sprite_pack,
                    bin_size,
                ),
            },
            Err(error) => match *old(container) {
                Container::Firmware(firmware) => *final(container) == *old(container)
                    && firmware_unsaved(original_data@, firmware, patch_header@, error),
                Container::SmaCard(card) => *final(container) matches Container::SmaCard(kept)
                    && kept.header.sector_count == card.header.sector_count && card_unsaved(
                    card.header,
                    card.data_pack,
                    card.sprite_pack,
                    bin_size,
                    error,
                ),
            },
        },
{
    match container {
        Container::Firmware(firmware) => {
            let out = match save_firmware(original_data, firmware, patch_header) {
                Ok(out) => out,
                Err(e) => {
                    return Err(e);
                },
            };
            if out.len() != original_data.len() {
                return Err(
                    Error::SizeMismatch { expected: original_data.len(), size: out.len() },
                );
            }
            Ok(out)
        },
        Container::SmaCard(card) => save_card(
            &mut card.header,
            &card.data_pack,
            &card.sprite_pack,
            bin_size,
        ),
    }
}

/// Whether a size is one of a card.
pub fn is_card(size: BinSize) -> (yes: bool)
    ensures
        yes == is_card_size(size),
{
    match size {
        BinSize::Card128KB | BinSize::Card1MB | BinSize::Card2MB => true,
        _ => false,
    }
}

/// The title of the window: the name of the program; behind it, where a file
/// is open, a hyphen between blanks and the name of the file, with a star
/// where the file was changed and not saved.
pub open spec fn title_of(file_name: Option<Seq<char>>, is_modified: bool) -> Seq<char> {
    match file_name {
        Some(name) => "Smarty Pants - "@ + name + if is_modified {
            "*"@
        } else {
            ""@
        },
        None => "Smarty Pants"@,
    }
}

/// The title of the window.
pub fn window_title(file_name: Option<&str>, is_modified: bool) -> (title: String)
    ensures
        title@ == title_of(
            match file_name {
                Some(name) => Some(name@),
                None => None,
            },
            is_modified,
        ),
{
    match file_name {
        Some(name) => {
            let mut title = "Smarty Pants - ".to_owned();
            title.append(name);
            if is_modified {
                title.append("*");
            }
            proof {
                reveal_strlit("");
                assert(title@ =~= title_of(Some(name@), is_modified));
            }
            title
        },
        None => "Smarty Pants".to_owned(),
    }
}

} // verus!
