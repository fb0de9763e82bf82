//! The first pair of tables: blocks of words behind a table of their starts.

use vstd::prelude::*;
use crate::data_view::{DataView, bytes_of_words, words_of_bytes};
use crate::data_pack::{
    block_end, block_ok, entry_at, read_blocks, read_offsets, save_blocks, start_words,
    starts_fit, word_parts,
};
use crate::data_pack::blocks::joined;
use crate::error::Error;

verus! {

/// The byte offset of each block: twice each entry of the table.
pub fn get_entity_offsets(data: &DataView) -> (offsets: Vec<usize>)
    ensures
        offsets@.len() == data@.len() / 2,
        forall|i: int| 0 <= i < offsets@.len() ==> #[trigger] offsets@[i] == 2 * entry_at(data@, i),
{
    read_offsets(data, 2)
}

/// The blocks at the offsets given, each up to the next offset and the last up
/// to the end of the data.
pub fn get_entities(data: &DataView, offsets: Vec<usize>) -> (result: Result<Vec<Vec<u16>>, Error>)
    ensures
        match result {
            Ok(blocks) => {
                &&& blocks@.len() == offsets@.len()
                &&& forall|k: int|
                    0 <= k < offsets@.len() ==> block_ok(offsets@, data@.len() as int, k)
                &&& forall|k: int|
                    0 <= k < blocks@.len() ==> (#[trigger] blocks@[k])@ == words_of_bytes(
                        data@.subrange(
                            offsets@[k] as int,
                            block_end(offsets@, data@.len() as int, k),
                        ),
                    )
            },
            Err(Error::InvalidBlockOffset { block }) => {
                &&& block < offsets@.len()
                &&& !block_ok(offsets@, data@.len() as int, block as int)
                &&& forall|k: int| 0 <= k < block ==> block_ok(offsets@, data@.len() as int, k)
            },
            Err(_) => false,
        },
{
    read_blocks(data, &offsets)
}

/// The table of the starts of the blocks, in words, and the blocks one behind
/// the other.
pub fn save_entities(entities: &[Vec<u16>]) -> (result: Result<(Vec<u8>, Vec<u8>), Error>)
    ensures
        match result {
            Ok((offsets, data)) => {
                let parts = word_parts(entities@);
                &&& starts_fit(parts, 2, entities@.len() as int)
                &&& offsets@ == bytes_of_words(start_words(parts, 2, entities@.len() as int))
                &&& data@ == joined(parts)
            },
            Err(Error::SizeExceeded { size, limit }) => {
                &&& !starts_fit(word_parts(entities@), 2, entities@.len() as int)
                &&& limit == 0xffff
                &&& size > limit
            },
            Err(_) => false,
        },
{
    save_blocks(entities, 2, false)
}

} // verus!
