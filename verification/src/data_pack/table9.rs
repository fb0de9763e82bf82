//! The ninth pair of tables: blocks of words behind a table of their starts,
//! which ends with the place where the last block ends.

use vstd::prelude::*;
use crate::data_view::{DataView, bytes_of_words, words_of_bytes};
use crate::data_pack::{
    block_is_bad, entry_at, read_offsets, read_sized_blocks, save_blocks, split_offsets,
    start_words, starts_fit, word_parts,
};
use crate::data_pack::blocks::joined;
use crate::error::Error;

verus! {

/// The byte offset and the size of each block: an entry of the table times
/// two, up to the next entry.
pub fn get_entity_offsets(data: &DataView) -> (result: Result<(Vec<usize>, Vec<usize>), Error>)
    ensures
        match result {
            Ok((starts, sizes)) => {
                &&& starts@.len() == sizes@.len()
                &&& starts@.len() == if data@.len() / 2 == 0 {
                    0
                } else {
                    data@.len() / 2 - 1
                }
                &&& forall|b: int|
                    0 <= b < starts@.len() ==> #[trigger] starts@[b] == 2 * entry_at(data@, b)
                &&& forall|b: int|
                    0 <= b < sizes@.len() ==> #[trigger] sizes@[b] == 2 * entry_at(data@, b + 1)
                        - 2 * entry_at(data@, b)
            },
            Err(Error::InvalidBlockOffset { block }) => {
                &&& block + 1 < data@.len() / 2
                &&& entry_at(data@, block + 1) < entry_at(data@, block as int)
                &&& forall|b: int|
                    0 <= b < block ==> #[trigger] entry_at(data@, b) <= entry_at(data@, b + 1)
            },
            Err(_) => false,
        },
{
    let offsets = read_offsets(data, 2);
    let ghost all = offsets@;
    match split_offsets(offsets) {
        Ok((starts, sizes)) => {
            proof {
                assert forall|b: int| 0 <= b < sizes@.len() implies #[trigger] sizes@[b] == 2
                    * entry_at(data@, b + 1) - 2 * entry_at(data@, b) by {
                    assert(all[b + 1] == 2 * entry_at(data@, b + 1));
                    assert(all[b] == 2 * entry_at(data@, b));
                }
            }
            Ok((starts, sizes))
        },
        Err(e) => {
            proof {
                if let Error::InvalidBlockOffset { block } = e {
                    assert(all[block + 1] == 2 * entry_at(data@, block + 1));
                    assert(all[block as int] == 2 * entry_at(data@, block as int));
                    assert forall|b: int| 0 <= b < block implies #[trigger] entry_at(data@, b)
                        <= entry_at(data@, b + 1) by {
                        assert(!block_is_bad(all, b));
                        assert(all[b + 1] == 2 * entry_at(data@, b + 1));
                        assert(all[b] == 2 * entry_at(data@, b));
                    }
                }
            }
            Err(e)
        },
    }
}

/// The blocks of `sizes[k]` bytes at `offsets[k]`.
pub fn get_entities(data: &DataView, offsets: Vec<usize>, sizes: Vec<usize>) -> (result: Result<
    Vec<Vec<u16>>,
    Error,
>)
    requires
        offsets@.len() <= sizes@.len(),
    ensures
        match result {
            Ok(blocks) => {
                &&& blocks@.len() == offsets@.len()
                &&& forall|k: int|
                    0 <= k < offsets@.len() ==> offsets@[k] + sizes@[k] <= data@.len()
                &&& forall|k: int|
                    0 <= k < blocks@.len() ==> (#[trigger] blocks@[k])@ == words_of_bytes(
                        data@.subrange(offsets@[k] as int, offsets@[k] + sizes@[k]),
                    )
            },
            Err(Error::InvalidBlockOffset { block }) => {
                &&& block < offsets@.len()
                &&& offsets@[block as int] + sizes@[block as int] > data@.len()
                &&& forall|k: int| 0 <= k < block ==> offsets@[k] + sizes@[k] <= data@.len()
            },
            Err(_) => false,
        },
{
    read_sized_blocks(data, &offsets, &sizes)
}

/// The table of the starts of the blocks and of the end of the last, in
/// words, and the blocks one behind the other.
pub fn save_entities(entities: &[Vec<u16>]) -> (result: Result<(Vec<u8>, Vec<u8>), Error>)
    ensures
        match result {
            Ok((offsets, data)) => {
                let parts = word_parts(entities@);
                &&& starts_fit(parts, 2, (entities@.len() + 1) as int)
                &&& offsets@ == bytes_of_words(start_words(parts, 2, (entities@.len() + 1) as int))
                &&& data@ == joined(parts)
            },
            Err(Error::SizeExceeded { size, limit }) => {
                &&& !starts_fit(word_parts(entities@), 2, (entities@.len() + 1) as int)
                &&& limit == 0xffff
                &&& size > limit
            },
            Err(_) => false,
        },
{
    save_blocks(entities, 2, true)
}

} // verus!
