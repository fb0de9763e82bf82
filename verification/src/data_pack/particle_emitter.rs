//! Particle emitters: rows of 33 words.

use vstd::prelude::*;
use crate::data_view::{DataView, bytes_of_words, words_of_bytes};
use crate::data_pack::read_words;
use crate::data_pack::blocks::joined;
use crate::data_pack::item::push_words;
use crate::error::Error;

verus! {

/// The number of bytes in the row of a particle emitter.
pub const EMITTER_SIZE: usize = 66;

/// A particle emitter: the 33 words of its row.
#[derive(Clone)]
pub struct ParticleEmitter {
    pub data: Vec<u16>,
}

/// Row `r` of a table of particle emitters.
pub open spec fn emitter_row(s: Seq<u8>, r: int) -> Seq<u16> {
    words_of_bytes(s.subrange(EMITTER_SIZE * r, EMITTER_SIZE * r + EMITTER_SIZE))
}

/// The bytes of each emitter.
pub open spec fn emitter_parts(emitters: Seq<ParticleEmitter>) -> Seq<Seq<u8>> {
    Seq::new(emitters.len(), |k: int| bytes_of_words(emitters[k].data@))
}

/// The emitters of a table, 66 bytes each; bytes behind the last whole row
/// are left out.
pub fn get_particle_emitters(data: &DataView) -> (emitters: Vec<ParticleEmitter>)
    ensures
        emitters@.len() == data@.len() / EMITTER_SIZE as nat,
        forall|r: int|
            0 <= r < emitters@.len() ==> (#[trigger] emitters@[r]).data@ == emitter_row(data@, r),
{
    let mut emitters: Vec<ParticleEmitter> = Vec::new();
    let count = data.len() / EMITTER_SIZE;
    let mut r: usize = 0;
    while r < count
        invariant
            r <= count,
            count == data.data.len() / EMITTER_SIZE,
            emitters@.len() == r,
            forall|k: int|
                0 <= k < r ==> (#[trigger] emitters@[k]).data@ == emitter_row(data@, k),
        decreases count - r,
    {
        let row = read_words(data, EMITTER_SIZE * r, EMITTER_SIZE);
        emitters.push(ParticleEmitter { data: row });
        r += 1;
    }
    emitters
}

/// The table of the emitters: the words of each, in order. This never fails.
pub fn save_particle_emitters(particle_emitters: &[ParticleEmitter]) -> (result: Result<
    Vec<u8>,
    Error,
>)
    ensures
        result matches Ok(data) && data@ == joined(emitter_parts(particle_emitters@)),
{
    let ghost parts = emitter_parts(particle_emitters@);
    let mut data: Vec<u8> = Vec::new();
    let n = particle_emitters.len();
    let mut i: usize = 0;
    assert(parts.subrange(0, 0) =~= Seq::<Seq<u8>>::empty());
    while i < n
        invariant
            i <= n,
            n == particle_emitters@.len(),
            parts == emitter_parts(particle_emitters@),
            data@ == joined(parts.subrange(0, i as int)),
        decreases n - i,
    {
        push_words(&mut data, particle_emitters[i].data.as_slice());
        proof {
            assert(parts.subrange(0, i + 1).drop_last() =~= parts.subrange(0, i as int));
            assert(parts.subrange(0, i + 1).last() == bytes_of_words(
                particle_emitters@[i as int].data@,
            ));
        }
        i += 1;
    }
    assert(parts.subrange(0, n as int) =~= parts);
    Ok(data)
}

} // verus!
