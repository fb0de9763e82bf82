//! What is written for a card is read back from it.

use vstd::prelude::*;
use crate::data_pack::round_trip::{lemma_data_pack_read_back, pack_wf};
use crate::data_pack::{
    DataPack, assembled, directory_fits, laid_parts, pack_fits,
    pack_tables, zeros, TABLE_COUNT,
};
use crate::data_view::{le_u16, le_u32, u16_bytes, u32_bytes};
use crate::file::BinSize;
use crate::smacard::{
    CardHeader, TamaSmaCard, card_body, card_data_pack, card_is, card_length, card_saved,
    card_sealed, card_trailer, card_unsealed, header_bytes, header_fields,
    card_type_word, header_is, header_writable, id_bytes, id_ok, id_text, is_card_size, pack_bytes, pack_count, pack_found, pack_offset,
    pack_size, pack_summary, summary_ok, CARD_HEADER_SIZE, HEADER_FIELDS_SIZE, PACK_SUMMARY_SIZE,
};
use crate::sprite_pack::image_def::ImageSet;
use crate::sprite_pack::round_trip::{
    images_in_depth, images_wf, lemma_sprite_pack_round_trip, lemma_sprite_pack_unique,
    same_pictures,
};
use crate::sprite_pack::{SpritePack, padding_to, sprite_pack_saved};
use crate::text::CharEncoding;

verus! {

/// The four bytes of a word, where they stand, are read as that word.
pub proof fn lemma_le_u32_of(s: Seq<u8>, at: int, word: u32)
    requires
        0 <= at,
        at + 4 <= s.len(),
        s.subrange(at, at + 4) == u32_bytes(word),
    ensures
        le_u32(s, at) == word,
{
    let part = s.subrange(at, at + 4);
    assert(part[0] == s[at]);
    assert(part[1] == s[at + 1]);
    assert(part[2] == s[at + 2]);
    assert(part[3] == s[at + 3]);
}

/// The two bytes of a word, where they stand, are read as that word.
pub proof fn lemma_le_u16_of(s: Seq<u8>, at: int, word: u16)
    requires
        0 <= at,
        at + 2 <= s.len(),
        s.subrange(at, at + 2) == u16_bytes(word),
    ensures
        le_u16(s, at) == word,
{
    let part = s.subrange(at, at + 2);
    assert(part[0] == s[at]);
    assert(part[1] == s[at + 1]);
}

/// The header of a card has 4096 bytes.
pub proof fn lemma_header_len(header: CardHeader)
    requires
        header_writable(header),
    ensures
        header_fields(header).len() == HEADER_FIELDS_SIZE,
        header_bytes(header).len() == CARD_HEADER_SIZE,
{
    assert(header.md5@.len() == 16);
}

/// Sealing a card leaves it as long as it is, and changes nothing from byte
/// 80 on.
pub proof fn lemma_sealed_tail(unsealed: Seq<u8>)
    requires
        unsealed.len() >= HEADER_FIELDS_SIZE,
    ensures
        card_sealed(unsealed).len() == unsealed.len(),
        forall|k: int|
            HEADER_FIELDS_SIZE <= k < unsealed.len() ==> #[trigger] card_sealed(unsealed)[k]
                == unsealed[k],
{
}

/// The summary of the packs tells where the data pack and the sprite pack
/// stand behind it, and how long they are: the data pack without the last
/// two bytes that are put behind it, the sprite pack as it is.
pub proof fn lemma_summary_read(data_pack_len: int, sprite_pack_len: int, rest: Seq<u8>)
    requires
        2 <= data_pack_len,
        0 <= sprite_pack_len,
        PACK_SUMMARY_SIZE + data_pack_len + sprite_pack_len <= 0x20_0000,
    ensures
        pack_summary(data_pack_len, sprite_pack_len).len() == PACK_SUMMARY_SIZE,
        pack_count(pack_summary(data_pack_len, sprite_pack_len) + rest) == 4,
        pack_offset(pack_summary(data_pack_len, sprite_pack_len) + rest, 0) == PACK_SUMMARY_SIZE,
        pack_size(pack_summary(data_pack_len, sprite_pack_len) + rest, 0) == data_pack_len - 2,
        pack_offset(pack_summary(data_pack_len, sprite_pack_len) + rest, 1) == PACK_SUMMARY_SIZE
            + data_pack_len,
        pack_size(pack_summary(data_pack_len, sprite_pack_len) + rest, 1) == sprite_pack_len,
{
    let summary = pack_summary(data_pack_len, sprite_pack_len);
    let s = summary + rest;
    assert(summary.len() == PACK_SUMMARY_SIZE);
    assert(s.subrange(2, 4) =~= u16_bytes(4));
    lemma_le_u16_of(s, 2, 4);
    assert(s.subrange(8, 12) =~= u32_bytes(PACK_SUMMARY_SIZE as u32));
    lemma_le_u32_of(s, 8, PACK_SUMMARY_SIZE as u32);
    assert(s.subrange(16, 20) =~= u32_bytes((data_pack_len - 2) as u32));
    assert(s.subrange(12, 16) =~= u32_bytes(data_pack_len as u32));
    lemma_le_u32_of(s, 12, data_pack_len as u32);
    lemma_le_u32_of(s, 16, (data_pack_len - 2) as u32);
    assert(s.subrange(24, 28) =~= u32_bytes((PACK_SUMMARY_SIZE + data_pack_len) as u32));
    lemma_le_u32_of(s, 24, (PACK_SUMMARY_SIZE + data_pack_len) as u32);
    assert(s.subrange(28, 32) =~= u32_bytes(sprite_pack_len as u32));
    lemma_le_u32_of(s, 28, sprite_pack_len as u32);
    assert(s.subrange(32, 36) =~= u32_bytes(sprite_pack_len as u32));
    lemma_le_u32_of(s, 32, sprite_pack_len as u32);
}

/// What stands behind the first part of a card that is filled up and
/// sealed: the parts behind the first, the zero bytes, and the trailer.
pub proof fn lemma_sealed_parts(front: Seq<u8>, back: Seq<u8>, length: int)
    requires
        front.len() >= HEADER_FIELDS_SIZE,
        front.len() + back.len() <= length - 16,
    ensures
        card_sealed(card_unsealed(front + back, length)).len() == length,
        card_sealed(card_unsealed(front + back, length)).subrange(front.len() as int, length)
            == back + zeros((length - 16 - front.len() - back.len()) as nat) + card_trailer(),
{
    let unsealed = card_unsealed(front + back, length);
    let out = card_sealed(unsealed);
    assert(card_trailer().len() == 16);
    assert(unsealed.len() == length);
    lemma_sealed_tail(unsealed);
    let got = out.subrange(front.len() as int, length);
    let wanted = back + zeros((length - 16 - front.len() - back.len()) as nat) + card_trailer();
    assert forall|k: int| 0 <= k < got.len() implies got[k] == wanted[k] by {
        assert(out[front.len() + k] == unsealed[front.len() + k]);
    }
    assert(got =~= wanted);
}

/// The two packs that stand behind a summary and in front of other bytes
/// are where the summary says.
pub proof fn lemma_packs_found(first: Seq<u8>, cut: int, second: Seq<u8>, rest: Seq<u8>)
    requires
        2 < first.len(),
        0 <= cut,
        cut == first.len() - 2,
        0 < second.len(),
        PACK_SUMMARY_SIZE + first.len() + second.len() <= 0x20_0000,
    ensures
        ({
            let packs = pack_summary(first.len() as int, second.len() as int) + first + second
                + rest;
            &&& summary_ok(packs)
            &&& pack_found(packs, 0)
            &&& pack_found(packs, 1)
            &&& pack_bytes(packs, 0) == first.subrange(0, cut)
            &&& pack_bytes(packs, 1) == second
        }),
{
    let summary = pack_summary(first.len() as int, second.len() as int);
    let packs = summary + first + second + rest;
    lemma_summary_read(first.len() as int, second.len() as int, first + second + rest);
    assert(packs =~= summary + (first + second + rest));
    let at = PACK_SUMMARY_SIZE as int;
    assert(packs.subrange(at, at + cut) =~= first.subrange(0, cut));
    assert(packs.subrange(at + first.len(), at + first.len() + second.len()) =~= second);
}

/// The packs of a card as it is written: behind the header stand the
/// summary, the data pack with zero bytes behind it, and the sprite pack,
/// and the summary tells where.
pub proof fn lemma_card_packs(header: CardHeader, pack: Seq<u8>, sprites: Seq<u8>, length: int)
    requires
        header_writable(header),
        pack.len() > 0,
        sprites.len() > 0,
        card_body(header, pack, sprites).len() <= length - 16,
        length <= 0x20_0000,
    ensures
        ({
            let out = card_sealed(card_unsealed(card_body(header, pack, sprites), length));
            let packs = out.subrange(CARD_HEADER_SIZE as int, out.len() as int);
            let tail = card_data_pack(pack).len() - 2 - pack.len();
            &&& out.len() == length
            &&& summary_ok(packs)
            &&& pack_found(packs, 0)
            &&& pack_found(packs, 1)
            &&& tail >= 0
            &&& pack_bytes(packs, 0) == pack + zeros(tail as nat)
            &&& pack_bytes(packs, 1) == sprites
        }),
{
    let front = header_bytes(header);
    let padded = card_data_pack(pack);
    let summary = pack_summary(padded.len() as int, sprites.len() as int);
    let back = summary + padded + sprites;
    lemma_header_len(header);
    let gap = padding_to(PACK_SUMMARY_SIZE + pack.len() + 2, 32);
    assert(0 <= gap < 32);
    assert(padded.len() == pack.len() + 2 + gap);
    assert(padded.subrange(0, padded.len() - 2) =~= pack + zeros(gap as nat));
    assert(card_body(header, pack, sprites) =~= front + back);
    lemma_sealed_parts(front, back, length);
    let rest = zeros((length - 16 - front.len() - back.len()) as nat) + card_trailer();
    lemma_packs_found(padded, padded.len() - 2, sprites, rest);
    assert(back + zeros((length - 16 - front.len() - back.len()) as nat) + card_trailer()
        =~= summary + padded + sprites + rest);
}

/// The packs of a card written for a well-formed data pack and whole images,
/// whose pixels fit their depth, are read back from it: the data pack would
/// be written in the same tables, and the images are as many, each of the
/// same size and grid, with the same pixels at the same offsets.
pub proof fn lemma_card_round_trip(
    out: Seq<u8>,
    header: CardHeader,
    data_pack: DataPack,
    sprite_pack: SpritePack,
    size: BinSize,
    codes: Seq<CharEncoding>,
    card: TamaSmaCard,
)
    requires
        card_saved(out, header, data_pack, sprite_pack, size),
        pack_wf(data_pack, codes),
        images_wf(sprite_pack.image_sets@),
        images_in_depth(sprite_pack.image_sets@),
        card_is(card, out, codes),
    ensures
        out.len() == card_length(size),
        pack_tables(card.data_pack) == pack_tables(data_pack),
        card.sprite_pack.image_sets@.len() == sprite_pack.image_sets@.len(),
        forall|i: int|
            0 <= i < sprite_pack.image_sets@.len() ==> same_pictures(
                #[trigger] card.sprite_pack.image_sets@[i],
                sprite_pack.image_sets@[i],
            ),
{
    let sprites = choose|sprites: Seq<u8>| #[trigger]
        sprite_pack_saved(sprites, sprite_pack.image_sets@) && {
            let pack = assembled(pack_tables(data_pack), PACK_SUMMARY_SIZE as int);
            let body = card_body(header, pack, sprites);
            &&& pack_fits(data_pack)
            &&& directory_fits(
                laid_parts(pack_tables(data_pack), PACK_SUMMARY_SIZE as int, TABLE_COUNT as int),
            )
            &&& header_writable(header)
            &&& is_card_size(size)
            &&& body.len() <= card_length(size) - 16
            &&& out == card_sealed(card_unsealed(body, card_length(size)))
        };
    let pack = assembled(pack_tables(data_pack), PACK_SUMMARY_SIZE as int);
    lemma_pack_not_empty(data_pack);
    lemma_sprites_not_empty(sprites, sprite_pack.image_sets@);
    lemma_card_packs(header, pack, sprites, card_length(size));
    let tail = card_data_pack(pack).len() - 2 - pack.len();
    lemma_data_pack_read_back(
        data_pack,
        card.data_pack,
        codes,
        PACK_SUMMARY_SIZE as int,
        zeros(tail as nat),
    );
    assert(sprites + Seq::<u8>::empty() =~= sprites);
    lemma_sprite_pack_round_trip(
        sprites,
        Seq::empty(),
        sprite_pack.image_sets@,
        card.sprite_pack,
    );
}

/// A sprite pack as it is written has its header at least.
pub proof fn lemma_sprites_not_empty(bytes: Seq<u8>, sets: Seq<ImageSet>)
    requires
        sprite_pack_saved(bytes, sets),
    ensures
        bytes.len() >= 16,
{
}

/// Sealing a card changes its checksum and its digest, and nothing else.
pub proof fn lemma_sealed_head(unsealed: Seq<u8>)
    requires
        unsealed.len() >= HEADER_FIELDS_SIZE,
    ensures
        card_sealed(unsealed).len() == unsealed.len(),
        forall|k: int|
            0 <= k < unsealed.len() && !(2 <= k < 4) && !(64 <= k < 80) ==> #[trigger] card_sealed(
                unsealed,
            )[k] == unsealed[k],
{
}

/// An id whose characters fit a byte each is read back from its bytes.
pub proof fn lemma_id_read(id: Seq<char>, s: Seq<u8>, at: int)
    requires
        id_ok(id),
        0 <= at,
        at + 16 <= s.len(),
        forall|i: int| 0 <= i < 16 ==> #[trigger] s[at + i] == id_bytes(id)[i],
    ensures
        id_text(s, at) == id,
{
    assert forall|i: int| 0 <= i < 16 implies id_text(s, at)[i] == id[i] by {
        assert(s[at + i] == id_bytes(id)[i]);
        assert((id[i] as u32) < 0x100);
        vstd::utf8::char_u32_cast(id[i], id[i] as u32);
        assert(id_bytes(id)[i] as u32 == id[i] as u32);
    }
    assert(id_text(s, at) =~= id);
}

/// Where the fields of a header stand among its bytes.
pub proof fn lemma_header_field_places(header: CardHeader)
    requires
        header_writable(header),
    ensures
        header_fields(header).len() == HEADER_FIELDS_SIZE,
        header_fields(header).subrange(0, 2) == u16_bytes(header.sector_count),
        header_fields(header).subrange(4, 8) == u32_bytes(header.device_ids@[0]),
        header_fields(header).subrange(8, 12) == u32_bytes(header.device_ids@[1]),
        header_fields(header).subrange(12, 16) == u32_bytes(header.device_ids@[2]),
        header_fields(header).subrange(16, 32) == id_bytes(header.vendor_id@),
        header_fields(header).subrange(32, 48) == id_bytes(header.product_id@),
        header_fields(header).subrange(48, 50) == u16_bytes(card_type_word(header.card_type)),
        header_fields(header).subrange(50, 52) == u16_bytes(header.card_id),
        header_fields(header).subrange(54, 56) == u16_bytes(header.year),
        header_fields(header).subrange(56, 58) == u16_bytes(header.month),
        header_fields(header).subrange(58, 60) == u16_bytes(header.day),
        header_fields(header).subrange(60, 62) == u16_bytes(header.revision),
{
    let fields = header_fields(header);
    assert(header.md5@.len() == 16);
    assert(fields.subrange(0, 2) =~= u16_bytes(header.sector_count));
    assert(fields.subrange(4, 8) =~= u32_bytes(header.device_ids@[0]));
    assert(fields.subrange(8, 12) =~= u32_bytes(header.device_ids@[1]));
    assert(fields.subrange(12, 16) =~= u32_bytes(header.device_ids@[2]));
    assert(fields.subrange(16, 32) =~= id_bytes(header.vendor_id@));
    assert(fields.subrange(32, 48) =~= id_bytes(header.product_id@));
    assert(fields.subrange(48, 50) =~= u16_bytes(card_type_word(header.card_type)));
    assert(fields.subrange(50, 52) =~= u16_bytes(header.card_id));
    assert(fields.subrange(54, 56) =~= u16_bytes(header.year));
    assert(fields.subrange(56, 58) =~= u16_bytes(header.month));
    assert(fields.subrange(58, 60) =~= u16_bytes(header.day));
    assert(fields.subrange(60, 62) =~= u16_bytes(header.revision));
}

/// Bytes that are those of other bytes from `from` up to `to` are the same
/// part.
pub proof fn lemma_same_part(s: Seq<u8>, fields: Seq<u8>, from: int, to: int)
    requires
        0 <= from <= to,
        to <= s.len(),
        to <= fields.len(),
        forall|k: int| from <= k < to ==> #[trigger] s[k] == fields[k],
    ensures
        s.subrange(from, to) == fields.subrange(from, to),
{
    assert(s.subrange(from, to) =~= fields.subrange(from, to));
}

/// The fields of a header, written, are read as they are: all but the
/// checksum and the digest, which sealing the card sets.
pub proof fn lemma_header_fields_read(header: CardHeader, read: CardHeader, s: Seq<u8>)
    requires
        header_writable(header),
        s.len() >= HEADER_FIELDS_SIZE,
        forall|k: int|
            0 <= k < HEADER_FIELDS_SIZE && !(2 <= k < 4) && !(64 <= k < 80) ==> #[trigger] s[k]
                == header_fields(header)[k],
        header_is(read, s),
    ensures
        read.sector_count == header.sector_count,
        read.device_ids@ == header.device_ids@,
        read.vendor_id@ == header.vendor_id@,
        read.product_id@ == header.product_id@,
        read.card_type == header.card_type,
        read.card_id == header.card_id,
        read.year == header.year,
        read.month == header.month,
        read.day == header.day,
        read.revision == header.revision,
{
    let fields = header_fields(header);
    lemma_header_field_places(header);
    lemma_same_part(s, fields, 0, 2);
    lemma_le_u16_of(s, 0, header.sector_count);
    lemma_same_part(s, fields, 4, 8);
    lemma_le_u32_of(s, 4, header.device_ids@[0]);
    lemma_same_part(s, fields, 8, 12);
    lemma_le_u32_of(s, 8, header.device_ids@[1]);
    lemma_same_part(s, fields, 12, 16);
    lemma_le_u32_of(s, 12, header.device_ids@[2]);
    assert(header.device_ids@.len() == 3);
    assert(read.device_ids@ =~= header.device_ids@);
    assert forall|i: int| 0 <= i < 16 implies #[trigger] s[16 + i] == id_bytes(
        header.vendor_id@,
    )[i] by {
        assert(s[16 + i] == fields[16 + i]);
        assert(fields.subrange(16, 32)[i] == fields[16 + i]);
    }
    lemma_id_read(header.vendor_id@, s, 16);
    assert forall|i: int| 0 <= i < 16 implies #[trigger] s[32 + i] == id_bytes(
        header.product_id@,
    )[i] by {
        assert(s[32 + i] == fields[32 + i]);
        assert(fields.subrange(32, 48)[i] == fields[32 + i]);
    }
    lemma_id_read(header.product_id@, s, 32);
    lemma_same_part(s, fields, 48, 50);
    lemma_le_u16_of(s, 48, card_type_word(header.card_type));
    lemma_same_part(s, fields, 50, 52);
    lemma_le_u16_of(s, 50, header.card_id);
    lemma_same_part(s, fields, 54, 56);
    lemma_le_u16_of(s, 54, header.year);
    lemma_same_part(s, fields, 56, 58);
    lemma_le_u16_of(s, 56, header.month);
    lemma_same_part(s, fields, 58, 60);
    lemma_le_u16_of(s, 58, header.day);
    lemma_same_part(s, fields, 60, 62);
    lemma_le_u16_of(s, 60, header.revision);
}

/// The header of a card is read back from what is written for it, but for
/// the checksum and the digest, which are those of the card.
pub proof fn lemma_card_header_round_trip(
    out: Seq<u8>,
    header: CardHeader,
    data_pack: DataPack,
    sprite_pack: SpritePack,
    size: BinSize,
    read: CardHeader,
)
    requires
        card_saved(out, header, data_pack, sprite_pack, size),
        header_is(read, out),
    ensures
        read.sector_count == header.sector_count,
        read.device_ids@ == header.device_ids@,
        read.vendor_id@ == header.vendor_id@,
        read.product_id@ == header.product_id@,
        read.card_type == header.card_type,
        read.card_id == header.card_id,
        read.year == header.year,
        read.month == header.month,
        read.day == header.day,
        read.revision == header.revision,
{
    let sprites = choose|sprites: Seq<u8>| #[trigger]
        sprite_pack_saved(sprites, sprite_pack.image_sets@) && {
            let pack = assembled(pack_tables(data_pack), PACK_SUMMARY_SIZE as int);
            let body = card_body(header, pack, sprites);
            &&& pack_fits(data_pack)
            &&& directory_fits(
                laid_parts(pack_tables(data_pack), PACK_SUMMARY_SIZE as int, TABLE_COUNT as int),
            )
            &&& header_writable(header)
            &&& is_card_size(size)
            &&& body.len() <= card_length(size) - 16
            &&& out == card_sealed(card_unsealed(body, card_length(size)))
        };
    let pack = assembled(pack_tables(data_pack), PACK_SUMMARY_SIZE as int);
    let body = card_body(header, pack, sprites);
    let unsealed = card_unsealed(body, card_length(size));
    lemma_header_len(header);
    assert(body.len() >= CARD_HEADER_SIZE);
    lemma_sealed_head(unsealed);
    assert forall|k: int|
        0 <= k < HEADER_FIELDS_SIZE && !(2 <= k < 4) && !(64 <= k < 80) implies #[trigger] out[k]
        == header_fields(header)[k] by {
        assert(out[k] == unsealed[k]);
        assert(unsealed[k] == body[k]);
        assert(body[k] == header_bytes(header)[k]);
    }
    lemma_header_fields_read(header, read, out);
}

/// A data pack as it is written has its directory at least.
pub proof fn lemma_pack_not_empty(pack: DataPack)
    ensures
        assembled(pack_tables(pack), PACK_SUMMARY_SIZE as int).len() > 0,
{
}

/// The card of a header and packs is one: what is written for them in one
/// size is the same, byte for byte.
pub proof fn lemma_card_unique(
    first: Seq<u8>,
    second: Seq<u8>,
    header: CardHeader,
    data_pack: DataPack,
    sprite_pack: SpritePack,
    size: BinSize,
)
    requires
        card_saved(first, header, data_pack, sprite_pack, size),
        card_saved(second, header, data_pack, sprite_pack, size),
    ensures
        first == second,
{
    let pack = assembled(pack_tables(data_pack), PACK_SUMMARY_SIZE as int);
    let a = choose|sprites: Seq<u8>| #[trigger]
        sprite_pack_saved(sprites, sprite_pack.image_sets@) && first == card_sealed(
            card_unsealed(card_body(header, pack, sprites), card_length(size)),
        );
    let b = choose|sprites: Seq<u8>| #[trigger]
        sprite_pack_saved(sprites, sprite_pack.image_sets@) && second == card_sealed(
            card_unsealed(card_body(header, pack, sprites), card_length(size)),
        );
    lemma_sprite_pack_unique(a, b, sprite_pack.image_sets@);
}

} // verus!
