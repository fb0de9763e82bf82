//! The card: a header, a summary of its packs, the data pack and the sprite
//! pack, filled up to the size of the card and sealed with two checksums.

use vstd::prelude::*;

pub mod round_trip;
use vstd::string::*;
use md5::{Digest, Md5};
use crate::data_view::{
    DataView, bytes_to_words, le_u16, le_u32, push_all, push_fill, push_u16, push_u32, splice,
    spliced, u16_bytes, u32_bytes, words_of_bytes,
};
use crate::data_pack::{
    DataPack, assembled, data_pack_fails, data_pack_is, data_pack_readable, data_pack_unsaved, directory_fits, get_data_pack, laid_parts, pack_fits, TABLE_COUNT,
    pack_tables, save_data_pack, zeros, };
use crate::file::BinSize;
use crate::sprite_pack::{
    SpritePack, padding_to, sprite_pack_fails, sprite_pack_is, sprite_pack_saved,
    sprite_pack_unsaved,
};
use crate::text::{CharEncoding, push_char};
use crate::error::Error;

verus! {

/// The kind of a card.
#[derive(Clone, Copy, Debug, PartialEq, Eq, Structural)]
pub enum CardType {
    TamaSmaCard,
    PromoTreasure,
    PromoItem,
    Unknown,
}

/// The fields of the header of a card.
#[derive(Clone)]
pub struct CardHeader {
    pub sector_count: u16,
    pub checksum: u16,
    pub device_ids: [u32; 3],
    pub vendor_id: String,
    pub product_id: String,
    pub card_type: CardType,
    pub card_id: u16,
    pub year: u16,
    pub month: u16,
    pub day: u16,
    pub revision: u16,
    pub md5: [u8; 16],
}

/// The records of a card.
#[derive(Clone)]
pub struct TamaSmaCard {
    pub header: CardHeader,
    pub data_pack: DataPack,
    pub sprite_pack: SpritePack,
}

/// The number of bytes of the header that hold fields.
pub const HEADER_FIELDS_SIZE: usize = 80;

/// The number of bytes of the header with the zero bytes behind its fields,
/// and so the place of the packs.
pub const CARD_HEADER_SIZE: usize = 0x1000;

/// The number of bytes of the summary of the packs, and so the place of the
/// data pack among the packs.
pub const PACK_SUMMARY_SIZE: usize = 68;

/// The number of characters of a vendor or product id.
pub const ID_SIZE: usize = 16;

/// The word that the summary of the packs begins with.
pub const PACK_MAGIC: u16 = 0x3232;

/// The byte from which on the words of a card are summed for its checksum.
pub const CHECKSUM_START: usize = 1000;

/// The number of bytes of the header that the digest is taken of, and the
/// place of the digest.
pub const DIGEST_START: usize = 64;

/// The id that the 16 bytes from `at` on hold, a character for each byte.
pub open spec fn id_text(s: Seq<u8>, at: int) -> Seq<char> {
    Seq::new(ID_SIZE as nat, |i: int| s[at + i] as char)
}

/// Whether an id can be written: 16 characters that fit a byte each.
pub open spec fn id_ok(id: Seq<char>) -> bool {
    id.len() == ID_SIZE && forall|i: int| 0 <= i < ID_SIZE ==> (#[trigger] id[i] as u32) < 0x100
}

/// The 16 bytes of an id.
pub open spec fn id_bytes(id: Seq<char>) -> Seq<u8> {
    Seq::new(ID_SIZE as nat, |i: int| id[i] as u8)
}

/// The word of a card type.
pub open spec fn card_type_word(card_type: CardType) -> u16 {
    match card_type {
        CardType::TamaSmaCard => 0,
        CardType::PromoTreasure => 1,
        CardType::PromoItem => 2,
        CardType::Unknown => 3,
    }
}

/// The card type of a word.
pub open spec fn word_card_type(word: u16) -> CardType {
    if word == 0 {
        CardType::TamaSmaCard
    } else if word == 1 {
        CardType::PromoTreasure
    } else if word == 2 {
        CardType::PromoItem
    } else {
        CardType::Unknown
    }
}

/// Whether `header` is what the first 80 bytes of `s` hold.
pub open spec fn header_is(header: CardHeader, s: Seq<u8>) -> bool {
    &&& header.sector_count == le_u16(s, 0)
    &&& header.checksum == le_u16(s, 2)
    &&& header.device_ids@ == seq![le_u32(s, 4), le_u32(s, 8), le_u32(s, 12)]
    &&& header.vendor_id@ == id_text(s, 16)
    &&& header.product_id@ == id_text(s, 32)
    &&& header.card_type == word_card_type(le_u16(s, 48))
    &&& header.card_id == le_u16(s, 50)
    &&& header.year == le_u16(s, 54)
    &&& header.month == le_u16(s, 56)
    &&& header.day == le_u16(s, 58)
    &&& header.revision == le_u16(s, 60)
    &&& header.md5@ == s.subrange(64, 80)
}

/// The 80 bytes of the fields of a header.
pub open spec fn header_fields(header: CardHeader) -> Seq<u8> {
    u16_bytes(header.sector_count) + u16_bytes(header.checksum) + u32_bytes(header.device_ids@[0])
        + u32_bytes(header.device_ids@[1]) + u32_bytes(header.device_ids@[2]) + id_bytes(
        header.vendor_id@,
    ) + id_bytes(header.product_id@) + u16_bytes(card_type_word(header.card_type)) + u16_bytes(
        header.card_id,
    ) + seq![0u8, 0u8] + u16_bytes(header.year) + u16_bytes(header.month) + u16_bytes(header.day)
        + u16_bytes(header.revision) + seq![0u8, 0u8] + header.md5@
}

/// The bytes of a header: its fields, and zero bytes up to the place of the
/// packs.
pub open spec fn header_bytes(header: CardHeader) -> Seq<u8> {
    header_fields(header) + zeros((CARD_HEADER_SIZE - HEADER_FIELDS_SIZE) as nat)
}

/// Whether a header can be written: its type is known, and its ids are 16
/// characters of a byte each.
pub open spec fn header_writable(header: CardHeader) -> bool {
    &&& header.card_type != CardType::Unknown
    &&& id_ok(header.vendor_id@)
    &&& id_ok(header.product_id@)
}

/// The id that the 16 bytes from `at` on hold.
fn read_id(data: &DataView, at: usize) -> (id: String)
    requires
        at + ID_SIZE <= data.data.len(),
    ensures
        id@ == id_text(data@, at as int),
{
    let mut id = String::new();
    let mut i: usize = 0;
    while i < ID_SIZE
        invariant
            i <= ID_SIZE,
            at + ID_SIZE <= data.data.len(),
            id@ == id_text(data@, at as int).subrange(0, i as int),
        decreases ID_SIZE - i,
    {
        let byte = data.get_u8(at + i);
        push_char(&mut id, byte as char);
        i += 1;
        assert(id@ =~= id_text(data@, at as int).subrange(0, i as int));
    }
    assert(id_text(data@, at as int).subrange(0, ID_SIZE as int) =~= id_text(data@, at as int));
    id
}

/// Appends the 16 bytes of an id, if it can be written.
fn push_id(data: &mut Vec<u8>, id: &String) -> (written: bool)
    ensures
        written == id_ok(id@),
        written ==> final(data)@ == old(data)@ + id_bytes(id@),
        !written ==> final(data)@.len() >= old(data)@.len(),
{
    let text = id.as_str();
    if text.unicode_len() != ID_SIZE {
        return false;
    }
    let mut i: usize = 0;
    while i < ID_SIZE
        invariant
            i <= ID_SIZE,
            text@ == id@,
            text@.len() == ID_SIZE,
            forall|k: int| 0 <= k < i ==> (#[trigger] id@[k] as u32) < 0x100,
            data@ == old(data)@ + id_bytes(id@).subrange(0, i as int),
        decreases ID_SIZE - i,
    {
        let code = text.get_char(i) as u32;
        if code > 0xff {
            return false;
        }
        data.push(code as u8);
        i += 1;
        assert(data@ =~= old(data)@ + id_bytes(id@).subrange(0, i as int));
    }
    assert(id_bytes(id@).subrange(0, ID_SIZE as int) =~= id_bytes(id@));
    true
}

/// The header of a card.
pub fn read_card_header(data: &DataView) -> (result: Result<CardHeader, Error>)
    ensures
        match result {
            Ok(header) => data@.len() >= HEADER_FIELDS_SIZE && header_is(header, data@),
            Err(Error::CardTooShort) => data@.len() < HEADER_FIELDS_SIZE,
            Err(_) => false,
        },
{
    if data.len() < HEADER_FIELDS_SIZE {
        return Err(Error::CardTooShort);
    }
    let device_ids = [data.get_u32(4), data.get_u32(8), data.get_u32(12)];
    let card_type = match data.get_u16(48) {
        0 => CardType::TamaSmaCard,
        1 => CardType::PromoTreasure,
        2 => CardType::PromoItem,
        _ => CardType::Unknown,
    };
    let md5 = [
        data.get_u8(64),
        data.get_u8(65),
        data.get_u8(66),
        data.get_u8(67),
        data.get_u8(68),
        data.get_u8(69),
        data.get_u8(70),
        data.get_u8(71),
        data.get_u8(72),
        data.get_u8(73),
        data.get_u8(74),
        data.get_u8(75),
        data.get_u8(76),
        data.get_u8(77),
        data.get_u8(78),
        data.get_u8(79),
    ];
    assert(md5@ =~= data@.subrange(64, 80));
    assert(device_ids@ =~= seq![le_u32(data@, 4), le_u32(data@, 8), le_u32(data@, 12)]);
    Ok(
        CardHeader {
            sector_count: data.get_u16(0),
            checksum: data.get_u16(2),
            device_ids,
            vendor_id: read_id(data, 16),
            product_id: read_id(data, 32),
            card_type,
            card_id: data.get_u16(50),
            year: data.get_u16(54),
            month: data.get_u16(56),
            day: data.get_u16(58),
            revision: data.get_u16(60),
            md5,
        },
    )
}

/// The bytes of a header, up to the place of the packs.
pub fn save_card_header(header: &CardHeader) -> (result: Result<Vec<u8>, Error>)
    ensures
        match result {
            Ok(data) => header_writable(*header) && data@ == header_bytes(*header) && data@.len()
                == CARD_HEADER_SIZE,
            Err(Error::InvalidCardType) => header.card_type == CardType::Unknown,
            Err(Error::InvalidCardId) => header.card_type != CardType::Unknown
                && !header_writable(*header),
            Err(_) => false,
        },
{
    let card_type: u16 = match header.card_type {
        CardType::TamaSmaCard => 0,
        CardType::PromoTreasure => 1,
        CardType::PromoItem => 2,
        CardType::Unknown => {
            return Err(Error::InvalidCardType);
        },
    };
    let mut data: Vec<u8> = Vec::new();
    push_u16(&mut data, header.sector_count);
    push_u16(&mut data, header.checksum);
    push_u32(&mut data, header.device_ids[0]);
    push_u32(&mut data, header.device_ids[1]);
    push_u32(&mut data, header.device_ids[2]);
    if !push_id(&mut data, &header.vendor_id) {
        return Err(Error::InvalidCardId);
    }
    if !push_id(&mut data, &header.product_id) {
        return Err(Error::InvalidCardId);
    }
    push_u16(&mut data, card_type);
    push_u16(&mut data, header.card_id);
    push_u16(&mut data, 0);
    push_u16(&mut data, header.year);
    push_u16(&mut data, header.month);
    push_u16(&mut data, header.day);
    push_u16(&mut data, header.revision);
    push_u16(&mut data, 0);
    let mut i: usize = 0;
    let ghost before = data@;
    while i < 16
        invariant
            i <= 16,
            data@ == before + header.md5@.subrange(0, i as int),
        decreases 16 - i,
    {
        data.push(header.md5[i]);
        i += 1;
        assert(data@ =~= before + header.md5@.subrange(0, i as int));
    }
    assert(header.md5@.subrange(0, 16) =~= header.md5@);
    assert(u16_bytes(0) =~= seq![0u8, 0u8]);
    assert(data@ =~= header_fields(*header));
    push_fill(&mut data, 0, CARD_HEADER_SIZE - HEADER_FIELDS_SIZE);
    Ok(data)
}

/// The sum of words, as 16 bits hold it.
pub open spec fn word_sum(words: Seq<u16>) -> u16
    decreases words.len(),
{
    if words.len() == 0 {
        0
    } else {
        ((word_sum(words.drop_last()) + words.last()) % 0x1_0000) as u16
    }
}

/// The checksum of bytes: the sum of their words, as 16 bits hold it.
pub fn calc_checksum(data: &[u8]) -> (checksum: u16)
    ensures
        checksum == word_sum(words_of_bytes(data@)),
{
    let words = bytes_to_words(data);
    let mut checksum: u16 = 0;
    let n = words.len();
    let mut i: usize = 0;
    assert(words@.subrange(0, 0) =~= Seq::<u16>::empty());
    while i < n
        invariant
            i <= n,
            n == words@.len(),
            checksum == word_sum(words@.subrange(0, i as int)),
        decreases n - i,
    {
        proof {
            assert(words@.subrange(0, i + 1).drop_last() =~= words@.subrange(0, i as int));
            assert(words@.subrange(0, i + 1).last() == words@[i as int]);
        }
        checksum = ((checksum as u32 + words[i] as u32) % 0x1_0000) as u16;
        i += 1;
    }
    assert(words@.subrange(0, n as int) =~= words@);
    checksum
}

/// The MD5 digest of bytes, as the crate `md-5` computes it.
pub uninterp spec fn md5_of(data: Seq<u8>) -> Seq<u8>;

/// `Md5::new`, `update` and `finalize` of the crate `md-5`: the digest of the
/// bytes given, which depends on nothing else and is 16 bytes long.
#[verifier::external_body]
fn md5_digest(data: &[u8]) -> (digest: Vec<u8>)
    ensures
        digest@ == md5_of(data@),
        digest@.len() == 16,
{
    let mut hasher = Md5::new();
    hasher.update(data);
    hasher.finalize().to_vec()
}

/// Writes the checksum of a card into its header: the sum of the words from
/// byte 1000 on goes to byte 2.
pub fn write_checksum(data: &mut Vec<u8>)
    requires
        old(data).len() >= CHECKSUM_START,
    ensures
        final(data)@ == spliced(
            old(data)@,
            2,
            u16_bytes(
                word_sum(
                    words_of_bytes(
                        old(data)@.subrange(CHECKSUM_START as int, old(data)@.len() as int),
                    ),
                ),
            ),
        ),
{
    let tail = DataView::new(data.as_slice()).chunk(CHECKSUM_START, data.len() - CHECKSUM_START);
    let checksum = calc_checksum(tail.data.as_slice());
    let mut bytes: Vec<u8> = Vec::new();
    push_u16(&mut bytes, checksum);
    assert(bytes@ =~= u16_bytes(checksum));
    splice(data, 2, bytes.as_slice());
}

/// Writes a digest of 16 bytes into the header of a card, at byte 64.
pub fn write_digest(data: &mut Vec<u8>, digest: &[u8])
    requires
        old(data).len() >= HEADER_FIELDS_SIZE,
        digest@.len() == 16,
    ensures
        final(data)@ == spliced(old(data)@, DIGEST_START as int, digest@),
{
    splice(data, DIGEST_START, digest);
}

impl CardHeader {
    /// Forgets the devices that the card has been used with.
    pub fn clear_device_ids(&mut self)
        ensures
            final(self).device_ids@ == seq![0u32, 0u32, 0u32],
            final(self).sector_count == old(self).sector_count,
            final(self).checksum == old(self).checksum,
            final(self).vendor_id == old(self).vendor_id,
            final(self).product_id == old(self).product_id,
            final(self).card_type == old(self).card_type,
            final(self).card_id == old(self).card_id,
            final(self).year == old(self).year,
            final(self).month == old(self).month,
            final(self).day == old(self).day,
            final(self).revision == old(self).revision,
            final(self).md5 == old(self).md5,
    {
        let cleared = [0u32, 0u32, 0u32];
        assert(cleared@ =~= seq![0u32, 0u32, 0u32]);
        self.device_ids = cleared;
    }
}

/// The number of packs that the summary tells of.
pub open spec fn pack_count(s: Seq<u8>) -> int {
    le_u16(s, 2) as int
}

/// The byte at which pack `i` starts, counted from the summary.
pub open spec fn pack_offset(s: Seq<u8>, i: int) -> int {
    le_u32(s, 16 * i + 8) as int
}

/// The number of bytes of pack `i`.
pub open spec fn pack_size(s: Seq<u8>, i: int) -> int {
    le_u32(s, 16 * i + 16) as int
}

/// Whether pack `i` is there and lies inside the data.
pub open spec fn pack_found(s: Seq<u8>, i: int) -> bool {
    &&& pack_offset(s, i) > 0
    &&& pack_size(s, i) > 0
    &&& pack_offset(s, i) + pack_size(s, i) <= s.len()
}

/// The bytes of pack `i`.
pub open spec fn pack_bytes(s: Seq<u8>, i: int) -> Seq<u8> {
    s.subrange(pack_offset(s, i), pack_offset(s, i) + pack_size(s, i))
}

/// Whether the summary is whole and tells of two packs at least.
pub open spec fn summary_ok(s: Seq<u8>) -> bool {
    s.len() >= PACK_SUMMARY_SIZE && pack_count(s) >= 2
}

/// The bytes of pack `i`, if it is there; whether it is there without lying
/// inside the data is told by the second part.
fn find_pack(data: &DataView, i: usize) -> (found: Result<Option<DataView>, Error>)
    requires
        data.data.len() >= PACK_SUMMARY_SIZE,
        i < 2,
    ensures
        match found {
            Ok(Some(pack)) => pack_found(data@, i as int) && pack@ == pack_bytes(data@, i as int),
            Ok(None) => pack_offset(data@, i as int) == 0 || pack_size(data@, i as int) == 0,
            Err(Error::PackNotFound { pack }) => pack == i && !pack_found(data@, i as int),
            Err(_) => false,
        },
{
    let offset = data.get_u32(16 * i + 8);
    let size = data.get_u32(16 * i + 16);
    if offset == 0 || size == 0 {
        return Ok(None);
    }
    if offset as u64 + size as u64 > data.len() as u64 {
        return Err(Error::PackNotFound { pack: i });
    }
    Ok(Some(data.chunk(offset as usize, size as usize)))
}

/// Whether reading the packs of a card, from the summary `s` on, fails as
/// `error` says: the summary is cut off, or tells of fewer than two packs;
/// or pack `pack` is not there, or not inside the data; or the data pack
/// fails; or the data pack does not and the sprite pack fails.
pub open spec fn card_packs_fail(s: Seq<u8>, error: Error) -> bool {
    match error {
        Error::CardTooShort => s.len() < PACK_SUMMARY_SIZE,
        Error::TooFewPacks => s.len() >= PACK_SUMMARY_SIZE && pack_count(s) < 2,
        Error::PackNotFound { pack } => {
            &&& summary_ok(s)
            &&& pack < 2
            &&& !pack_found(s, pack as int)
            &&& pack_found(s, 0) ==> data_pack_readable(pack_bytes(s, 0))
        },
        _ => {
            &&& summary_ok(s)
            &&& (pack_found(s, 0) && data_pack_fails(pack_bytes(s, 0), error)) || ((pack_found(
                s,
                0,
            ) ==> data_pack_readable(pack_bytes(s, 0))) && pack_found(s, 1) && sprite_pack_fails(
                pack_bytes(s, 1),
                error,
            ))
        },
    }
}

/// Whether reading the card `s` fails as `error` says: it is too short for
/// its header and the summary of its packs, or reading its packs fails.
pub open spec fn card_fails(s: Seq<u8>, error: Error) -> bool {
    match error {
        Error::CardTooShort => s.len() < CARD_HEADER_SIZE + PACK_SUMMARY_SIZE,
        _ => s.len() >= CARD_HEADER_SIZE + PACK_SUMMARY_SIZE && card_packs_fail(
            s.subrange(CARD_HEADER_SIZE as int, s.len() as int),
            error,
        ),
    }
}

/// The data pack and the sprite pack of a card, from the summary of its packs
/// on. Packs behind the first two are not looked at.
pub fn read_card_packs(char_codes: &[CharEncoding], data: &DataView) -> (result: Result<
    (DataPack, SpritePack),
    Error,
>)
    ensures
        match result {
            Ok((data_pack, sprite_pack)) => {
                &&& summary_ok(data@)
                &&& pack_found(data@, 0)
                &&& pack_found(data@, 1)
                &&& data_pack_is(data_pack, pack_bytes(data@, 0), char_codes@)
                &&& sprite_pack_is(sprite_pack, pack_bytes(data@, 1))
            },
            Err(error) => card_packs_fail(data@, error),
        },
{
    if data.len() < PACK_SUMMARY_SIZE {
        return Err(Error::CardTooShort);
    }
    if data.get_u16(2) < 2 {
        return Err(Error::TooFewPacks);
    }
    let data_pack = match find_pack(data, 0) {
        Ok(Some(pack)) => match get_data_pack(char_codes, &pack) {
            Ok(found) => Some(found),
            Err(e) => {
                return Err(e);
            },
        },
        Ok(None) => None,
        Err(e) => {
            return Err(e);
        },
    };
    let sprite_pack = match find_pack(data, 1) {
        Ok(Some(pack)) => match SpritePack::from_data(&pack) {
            Ok(found) => Some(found),
            Err(e) => {
                return Err(e);
            },
        },
        Ok(None) => None,
        Err(e) => {
            return Err(e);
        },
    };
    match data_pack {
        Some(data_pack) => match sprite_pack {
            Some(sprite_pack) => Ok((data_pack, sprite_pack)),
            None => Err(Error::PackNotFound { pack: 1 }),
        },
        None => Err(Error::PackNotFound { pack: 0 }),
    }
}

/// Whether `card` is what the bytes `s` hold.
pub open spec fn card_is(card: TamaSmaCard, s: Seq<u8>, codes: Seq<CharEncoding>) -> bool {
    let packs = s.subrange(CARD_HEADER_SIZE as int, s.len() as int);
    &&& header_is(card.header, s)
    &&& summary_ok(packs)
    &&& pack_found(packs, 0)
    &&& pack_found(packs, 1)
    &&& data_pack_is(card.data_pack, pack_bytes(packs, 0), codes)
    &&& sprite_pack_is(card.sprite_pack, pack_bytes(packs, 1))
}

/// The header and the packs of a card.
pub fn read_card(char_codes: &[CharEncoding], data: &DataView) -> (result: Result<
    TamaSmaCard,
    Error,
>)
    ensures
        match result {
            Ok(card) => data@.len() >= CARD_HEADER_SIZE && card_is(card, data@, char_codes@),
            Err(error) => card_fails(data@, error),
        },
{
    let header = match read_card_header(data) {
        Ok(header) => header,
        Err(e) => {
            return Err(e);
        },
    };
    if data.len() < CARD_HEADER_SIZE {
        return Err(Error::CardTooShort);
    }
    let packs = data.chunk(CARD_HEADER_SIZE, data.len() - CARD_HEADER_SIZE);
    match read_card_packs(char_codes, &packs) {
        Ok((data_pack, sprite_pack)) => Ok(TamaSmaCard { header, data_pack, sprite_pack }),
        Err(e) => Err(e),
    }
}

/// The number of bytes of a card of a size.
pub open spec fn card_length(size: BinSize) -> int {
    match size {
        BinSize::Card128KB => 0x2_0000,
        BinSize::Card1MB => 0x10_0000,
        BinSize::Card2MB => 0x20_0000,
        _ => 0,
    }
}

/// The number of sectors that the header of a card of a size tells of.
pub open spec fn card_sectors(size: BinSize) -> u16 {
    match size {
        BinSize::Card128KB => 31,
        BinSize::Card1MB => 255,
        BinSize::Card2MB => 511,
        _ => 0,
    }
}

/// Whether a size is one of a card.
pub open spec fn is_card_size(size: BinSize) -> bool {
    size == BinSize::Card128KB || size == BinSize::Card1MB || size == BinSize::Card2MB
}

/// The 16 bytes with which a card ends.
pub open spec fn card_trailer() -> Seq<u8> {
    seq![
        50u8,
        132u8,
        171u8,
        86u8,
        34u8,
        17u8,
        220u8,
        254u8,
        142u8,
        107u8,
        85u8,
        255u8,
        181u8,
        16u8,
        127u8,
        51u8,
    ]
}

/// The data pack as it stands on a card: with a zero word behind it, and zero
/// bytes up to the next place among the packs that is a multiple of 32.
pub open spec fn card_data_pack(pack: Seq<u8>) -> Seq<u8> {
    let end = PACK_SUMMARY_SIZE + pack.len() + 2;
    pack + zeros((2 + padding_to(end, 32)) as nat)
}

/// The summary of the packs: the magic word, the number of packs, and for
/// the data pack and the sprite pack the place, the size, and the size that
/// counts.
pub open spec fn pack_summary(data_pack_len: int, sprite_pack_len: int) -> Seq<u8> {
    u16_bytes(PACK_MAGIC) + u16_bytes(4) + zeros(4) + u32_bytes(PACK_SUMMARY_SIZE as u32)
        + u32_bytes(data_pack_len as u32) + u32_bytes((data_pack_len - 2) as u32) + zeros(4)
        + u32_bytes((PACK_SUMMARY_SIZE + data_pack_len) as u32) + u32_bytes(sprite_pack_len as u32)
        + u32_bytes(sprite_pack_len as u32) + zeros(32)
}

/// The bytes of a card in front of the zero bytes that fill it up: the
/// header, the summary of the packs, and the packs.
pub open spec fn card_body(header: CardHeader, pack: Seq<u8>, sprites: Seq<u8>) -> Seq<u8> {
    let data_pack = card_data_pack(pack);
    header_bytes(header) + pack_summary(data_pack.len() as int, sprites.len() as int) + data_pack
        + sprites
}

/// A card of `length` bytes before it is sealed: the body, zero bytes, and
/// the trailer.
pub open spec fn card_unsealed(body: Seq<u8>, length: int) -> Seq<u8> {
    body + zeros((length - 16 - body.len()) as nat) + card_trailer()
}

/// The 16 bytes of a digest.
pub open spec fn digest_bytes(digest: Seq<u8>) -> Seq<u8> {
    Seq::new(16, |i: int| digest[i])
}

/// A card with its two checksums: the sum of the words from byte 1000 on at
/// byte 2, and then the digest of the first 64 bytes at byte 64.
pub open spec fn card_sealed(unsealed: Seq<u8>) -> Seq<u8> {
    let summed = spliced(
        unsealed,
        2,
        u16_bytes(
            word_sum(words_of_bytes(unsealed.subrange(CHECKSUM_START as int, unsealed.len() as int))),
        ),
    );
    spliced(
        summed,
        DIGEST_START as int,
        digest_bytes(md5_of(summed.subrange(0, DIGEST_START as int))),
    )
}

/// Whether `out` is a card of the size `size` written for the header and the
/// packs given.
pub open spec fn card_saved(
    out: Seq<u8>,
    header: CardHeader,
    data_pack: DataPack,
    sprite_pack: SpritePack,
    size: BinSize,
) -> bool {
    exists|sprites: Seq<u8>| #[trigger]
        sprite_pack_saved(sprites, sprite_pack.image_sets@) && {
            let pack = assembled(pack_tables(data_pack), PACK_SUMMARY_SIZE as int);
            let body = card_body(header, pack, sprites);
            &&& pack_fits(data_pack)
            &&& directory_fits(
                laid_parts(pack_tables(data_pack), PACK_SUMMARY_SIZE as int, TABLE_COUNT as int),
            )
            &&& header_writable(header)
            &&& is_card_size(size)
            &&& body.len() <= card_length(size) - 16
            &&& out == card_sealed(card_unsealed(body, card_length(size)))
        }
}

fn trailer_bytes() -> (bytes: Vec<u8>)
    ensures
        bytes@ == card_trailer(),
{
    let mut bytes: Vec<u8> = Vec::new();
    bytes.push(50);
    bytes.push(132);
    bytes.push(171);
    bytes.push(86);
    bytes.push(34);
    bytes.push(17);
    bytes.push(220);
    bytes.push(254);
    bytes.push(142);
    bytes.push(107);
    bytes.push(85);
    bytes.push(255);
    bytes.push(181);
    bytes.push(16);
    bytes.push(127);
    bytes.push(51);
    assert(bytes@ =~= card_trailer());
    bytes
}

/// Puts a zero word behind the data pack, and zero bytes up to the next place
/// among the packs that is a multiple of 32.
fn pad_data_pack(pack: &mut Vec<u8>)
    requires
        old(pack).len() <= 0xffff_0000,
    ensures
        final(pack)@ == card_data_pack(old(pack)@),
        final(pack)@.len() <= 0xffff_0000 + 34,
{
    let end = PACK_SUMMARY_SIZE as u64 + pack.len() as u64 + 2;
    let gap = ((32 - end % 32) % 32) as usize;
    push_fill(pack, 0, 2 + gap);
}

/// The summary of the packs.
fn save_pack_summary(data_pack_len: usize, sprite_pack_len: usize) -> (data: Vec<u8>)
    requires
        2 <= data_pack_len <= 0xffff_0000 + 34,
        sprite_pack_len <= 0xffff_0000,
    ensures
        data@ == pack_summary(data_pack_len as int, sprite_pack_len as int),
        data@.len() == PACK_SUMMARY_SIZE,
{
    let mut data: Vec<u8> = Vec::new();
    push_u16(&mut data, PACK_MAGIC);
    push_u16(&mut data, 4);
    push_fill(&mut data, 0, 4);
    push_u32(&mut data, PACK_SUMMARY_SIZE as u32);
    push_u32(&mut data, data_pack_len as u32);
    push_u32(&mut data, (data_pack_len - 2) as u32);
    push_fill(&mut data, 0, 4);
    push_u32(&mut data, (PACK_SUMMARY_SIZE + data_pack_len) as u32);
    push_u32(&mut data, sprite_pack_len as u32);
    push_u32(&mut data, sprite_pack_len as u32);
    push_fill(&mut data, 0, 32);
    assert(data@ =~= pack_summary(data_pack_len as int, sprite_pack_len as int));
    data
}

/// Fills a card up to `length` bytes with zero bytes and the trailer, and
/// seals it with its two checksums.
fn seal_card(data: &mut Vec<u8>, length: usize)
    requires
        old(data).len() + 16 <= length,
        length >= 0x2_0000,
    ensures
        final(data)@ == card_sealed(card_unsealed(old(data)@, length as int)),
        final(data)@.len() == length,
{
    let room = length - 16 - data.len();
    push_fill(data, 0, room);
    let trailer = trailer_bytes();
    push_all(data, trailer.as_slice());
    assert(data@ =~= card_unsealed(old(data)@, length as int));
    write_checksum(data);
    let head = DataView::new(data.as_slice()).chunk(0, DIGEST_START);
    let digest = md5_digest(head.data.as_slice());
    assert(digest@ =~= digest_bytes(digest@));
    write_digest(data, digest.as_slice());
}

/// The number of sectors and of bytes of a card of a size.
fn card_dimensions(size: BinSize) -> (found: Option<(u16, usize)>)
    ensures
        match found {
            Some((sectors, length)) => is_card_size(size) && sectors == card_sectors(size)
                && length == card_length(size),
            None => !is_card_size(size),
        },
{
    match size {
        BinSize::Card128KB => Some((31, 0x2_0000)),
        BinSize::Card1MB => Some((255, 0x10_0000)),
        BinSize::Card2MB => Some((511, 0x20_0000)),
        _ => None,
    }
}

/// Whether the data pack of a card can be written: every offset fits the
/// field that holds it.
pub open spec fn pack_saves(data_pack: DataPack) -> bool {
    pack_fits(data_pack) && directory_fits(
        laid_parts(pack_tables(data_pack), PACK_SUMMARY_SIZE as int, TABLE_COUNT as int),
    )
}

/// Whether writing a card fails as `error` says: a pack cannot be written,
/// or is over its limit; or the packs can be written and the size is none of
/// a card; or it is one and the header cannot be written, for its type or
/// for an id; or all can be written and the card is too small for it.
pub open spec fn card_unsaved(
    header: CardHeader,
    data_pack: DataPack,
    sprite_pack: SpritePack,
    size: BinSize,
    error: Error,
) -> bool {
    match error {
        Error::SizeExceeded { size: needed, limit } => {
            let pack = assembled(pack_tables(data_pack), PACK_SUMMARY_SIZE as int);
            ||| data_pack_unsaved(data_pack, PACK_SUMMARY_SIZE as int, error)
            ||| pack_saves(data_pack) && sprite_pack_unsaved(sprite_pack.image_sets@, error)
            ||| pack_saves(data_pack) && limit == 0xffff_0000 && needed > limit && (needed
                == pack.len() || (pack.len() <= limit && exists|sprites: Seq<u8>| #[trigger]
                sprite_pack_saved(sprites, sprite_pack.image_sets@) && needed == sprites.len()))
        },
        Error::InvalidCardSize => pack_fits(data_pack) && !is_card_size(size),
        Error::InvalidCardType => {
            &&& pack_fits(data_pack)
            &&& is_card_size(size)
            &&& header.card_type == CardType::Unknown
        },
        Error::InvalidCardId => {
            &&& pack_fits(data_pack)
            &&& is_card_size(size)
            &&& header.card_type != CardType::Unknown
            &&& !header_writable(header)
        },
        Error::DataTooLarge { size: needed, limit } => {
            &&& pack_fits(data_pack)
            &&& is_card_size(size)
            &&& header_writable(header)
            &&& limit == card_length(size) - 16
            &&& needed > limit
            &&& exists|sprites: Seq<u8>| #[trigger]
                sprite_pack_saved(sprites, sprite_pack.image_sets@) && needed == CARD_HEADER_SIZE
                    + PACK_SUMMARY_SIZE + card_data_pack(
                    assembled(pack_tables(data_pack), PACK_SUMMARY_SIZE as int),
                ).len() + sprites.len()
        },
        _ => pack_fits(data_pack) && sprite_pack_unsaved(sprite_pack.image_sets@, error),
    }
}

/// The bytes of a card of the size `bin_size`. The header is given the
/// number of sectors of that size.
pub fn save_card(
    header: &mut CardHeader,
    data_pack: &DataPack,
    sprite_pack: &SpritePack,
    bin_size: BinSize,
) -> (result: Result<Vec<u8>, Error>)
    ensures
        final(header).checksum == old(header).checksum,
        final(header).device_ids == old(header).device_ids,
        final(header).vendor_id == old(header).vendor_id,
        final(header).product_id == old(header).product_id,
        final(header).card_type == old(header).card_type,
        final(header).card_id == old(header).card_id,
        final(header).year == old(header).year,
        final(header).month == old(header).month,
        final(header).day == old(header).day,
        final(header).revision == old(header).revision,
        final(header).md5 == old(header).md5,
        match result {
            Ok(out) => {
                &&& final(header).sector_count == card_sectors(bin_size)
                &&& out@.len() == card_length(bin_size)
                &&& card_saved(out@, *final(header), *data_pack, *sprite_pack, bin_size)
            },
            Err(error) => final(header).sector_count == old(header).sector_count && card_unsaved(
                *old(header),
                *data_pack,
                *sprite_pack,
                bin_size,
                error,
            ),
        },
{
    let mut pack = match save_data_pack(data_pack, PACK_SUMMARY_SIZE) {
        Ok(pack) => pack,
        Err(e) => {
            return Err(e);
        },
    };
    let ghost bare = pack@;
    let sprites = match sprite_pack.as_bytes() {
        Ok(sprites) => sprites,
        Err(e) => {
            return Err(e);
        },
    };
    if pack.len() > 0xffff_0000 {
        return Err(Error::SizeExceeded { size: pack.len(), limit: 0xffff_0000 });
    }
    if sprites.len() > 0xffff_0000 {
        return Err(Error::SizeExceeded { size: sprites.len(), limit: 0xffff_0000 });
    }
    pad_data_pack(&mut pack);
    let (sectors, length) = match card_dimensions(bin_size) {
        Some(found) => found,
        None => {
            return Err(Error::InvalidCardSize);
        },
    };
    let kept = header.sector_count;
    header.sector_count = sectors;
    let mut data = match save_card_header(header) {
        Ok(data) => data,
        Err(e) => {
            header.sector_count = kept;
            return Err(e);
        },
    };
    let summary = save_pack_summary(pack.len(), sprites.len());
    push_all(&mut data, summary.as_slice());
    push_all(&mut data, pack.as_slice());
    push_all(&mut data, sprites.as_slice());
    assert(data@ =~= card_body(*header, bare, sprites@));
    if data.len() > length - 16 {
        assert(data@.len() == CARD_HEADER_SIZE + PACK_SUMMARY_SIZE + card_data_pack(bare).len()
            + sprites@.len());
        assert(sprite_pack_saved(sprites@, sprite_pack.image_sets@));
        header.sector_count = kept;
        return Err(Error::DataTooLarge { size: data.len(), limit: length - 16 });
    }
    seal_card(&mut data, length);
    Ok(data)
}

} // verus!
