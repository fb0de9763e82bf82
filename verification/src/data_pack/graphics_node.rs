//! Graphics nodes: blocks of words behind a table of their starts, counted in
//! units of four bytes.

use vstd::prelude::*;
use crate::data_view::{DataView, bytes_of_words, words_of_bytes};
use crate::data_pack::{
    block_end, block_ok, entry_at, read_blocks, read_offsets, start_words, starts_fit,
};
use crate::data_pack::blocks::{joined, part_start};
use crate::data_pack::item::push_words;
use crate::error::Error;

verus! {

/// A graphics node: the words of its block.
#[derive(Clone)]
pub struct GraphicsNode {
    pub data: Vec<u16>,
}

/// The bytes of each node.
pub open spec fn node_parts(nodes: Seq<GraphicsNode>) -> Seq<Seq<u8>> {
    Seq::new(nodes.len(), |k: int| bytes_of_words(nodes[k].data@))
}

/// The byte offset of each node: four times each entry of the table.
pub fn get_graphics_nodes_offsets(data: &DataView) -> (offsets: Vec<usize>)
    ensures
        offsets@.len() == data@.len() / 2,
        forall|i: int| 0 <= i < offsets@.len() ==> #[trigger] offsets@[i] == 4 * entry_at(data@, i),
{
    read_offsets(data, 4)
}

/// The nodes at the offsets given, each up to the next offset and the last up
/// to the end of the data.
pub fn get_graphics_nodes(data: &DataView, offsets: Vec<usize>) -> (result: Result<
    Vec<GraphicsNode>,
    Error,
>)
    ensures
        match result {
            Ok(nodes) => {
                &&& nodes@.len() == offsets@.len()
                &&& forall|k: int|
                    0 <= k < offsets@.len() ==> block_ok(offsets@, data@.len() as int, k)
                &&& forall|k: int|
                    0 <= k < nodes@.len() ==> (#[trigger] nodes@[k]).data@ == words_of_bytes(
                        data@.subrange(
                            offsets@[k] as int,
                            block_end(offsets@, data@.len() as int, k),
                        ),
                    )
            },
            Err(Error::InvalidBlockOffset { block }) => {
                &&& block < offsets@.len()
                &&& !block_ok(offsets@, data@.len() as int, block as int)
                &&& forall|k: int| 0 <= k < block ==> block_ok(offsets@, data@.len() as int, k)
            },
            Err(_) => false,
        },
{
    match read_blocks(data, &offsets) {
        Ok(blocks) => Ok(into_nodes(blocks)),
        Err(e) => Err(e),
    }
}

/// Blocks of words as graphics nodes, in the same order.
pub fn into_nodes(blocks: Vec<Vec<u16>>) -> (nodes: Vec<GraphicsNode>)
    ensures
        nodes@.len() == blocks@.len(),
        forall|k: int| 0 <= k < nodes@.len() ==> (#[trigger] nodes@[k]).data@ == blocks@[k]@,
{
    let ghost all = blocks@;
    let mut blocks = blocks;
    let n = blocks.len();
    // The blocks are taken from the back, and the nodes turned round after.
    let mut back: Vec<GraphicsNode> = Vec::new();
    while blocks.len() > 0
        invariant
            blocks@.len() + back@.len() == n,
            n == all.len(),
            blocks@ == all.subrange(0, blocks@.len() as int),
            forall|k: int|
                0 <= k < back@.len() ==> (#[trigger] back@[k]).data@ == all[n - 1 - k]@,
        decreases blocks@.len(),
    {
        let block = blocks.pop().unwrap();
        assert(blocks@ =~= all.subrange(0, blocks@.len() as int));
        back.push(GraphicsNode { data: block });
    }
    let mut nodes: Vec<GraphicsNode> = Vec::new();
    while back.len() > 0
        invariant
            nodes@.len() + back@.len() == n,
            n == all.len(),
            forall|k: int|
                0 <= k < back@.len() ==> (#[trigger] back@[k]).data@ == all[n - 1 - k]@,
            forall|k: int| 0 <= k < nodes@.len() ==> (#[trigger] nodes@[k]).data@ == all[k]@,
        decreases back@.len(),
    {
        let node = back.pop().unwrap();
        nodes.push(node);
    }
    nodes
}

/// The table of the starts of the nodes, in units of four bytes, and the nodes
/// one behind the other.
pub fn save_graphics_nodes(graphics_nodes: &[GraphicsNode]) -> (result: Result<
    (Vec<u8>, Vec<u8>),
    Error,
>)
    ensures
        match result {
            Ok((offsets, data)) => {
                let parts = node_parts(graphics_nodes@);
                &&& starts_fit(parts, 4, graphics_nodes@.len() as int)
                &&& offsets@ == bytes_of_words(start_words(parts, 4, graphics_nodes@.len() as int))
                &&& data@ == joined(parts)
            },
            Err(Error::SizeExceeded { size, limit }) => {
                &&& !starts_fit(node_parts(graphics_nodes@), 4, graphics_nodes@.len() as int)
                &&& limit == 0xffff
                &&& size > limit
            },
            Err(_) => false,
        },
{
    let ghost parts = node_parts(graphics_nodes@);
    let mut starts: Vec<u16> = Vec::new();
    let mut data: Vec<u8> = Vec::new();
    let n = graphics_nodes.len();
    let mut i: usize = 0;
    assert(parts.subrange(0, 0) =~= Seq::<Seq<u8>>::empty());
    while i < n
        invariant
            i <= n,
            n == graphics_nodes@.len(),
            parts == node_parts(graphics_nodes@),
            data@ == joined(parts.subrange(0, i as int)),
            starts@.len() == i,
            forall|k: int|
                0 <= k < i ==> #[trigger] part_start(parts, k) / 4 <= 0xffff && starts@[k]
                    == part_start(parts, k) / 4,
        decreases n - i,
    {
        let start = data.len() / 4;
        if start > 0xffff {
            proof {
                assert(part_start(parts, i as int) / 4 > 0xffff);
            }
            return Err(Error::SizeExceeded { size: start, limit: 0xffff });
        }
        starts.push(start as u16);
        push_words(&mut data, graphics_nodes[i].data.as_slice());
        proof {
            assert(parts.subrange(0, i + 1).drop_last() =~= parts.subrange(0, i as int));
            assert(parts.subrange(0, i + 1).last() == bytes_of_words(
                graphics_nodes@[i as int].data@,
            ));
        }
        i += 1;
    }
    proof {
        assert(parts.subrange(0, n as int) =~= parts);
        assert(starts@ =~= start_words(parts, 4, n as int));
    }
    Ok((crate::data_view::words_to_bytes(starts.as_slice()), data))
}

} // verus!
