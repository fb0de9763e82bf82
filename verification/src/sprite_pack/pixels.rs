//! Pixels as bits: each colour index takes a fixed number of bits, most
//! significant first, and the bits fill bytes from the top down.

use vstd::prelude::*;
use crate::data_view::{
    BitWriter, DataView, bit_bytes, bits_value, bytes_bits, two_pow, value_bits, zero_bits,
    lemma_bits_value_of_value_bits, lemma_two_pow_positive, lemma_value_bits_len,
};

verus! {

/// The bits of colour indices, `bpp` bits each.
pub open spec fn pixel_bits(pixels: Seq<u32>, bpp: nat) -> Seq<bool>
    decreases pixels.len(),
{
    if pixels.len() == 0 {
        Seq::empty()
    } else {
        pixel_bits(pixels.drop_last(), bpp) + value_bits(pixels.last() as nat, bpp)
    }
}

/// `bits` with zero bits behind them up to a whole number of bytes.
pub open spec fn padded_bits(bits: Seq<bool>) -> Seq<bool> {
    bits + zero_bits(((8 - bits.len() % 8) % 8) as nat)
}

/// The bytes that hold `bits`, the last filled with zero bits.
pub open spec fn bits_bytes(bits: Seq<bool>) -> Seq<u8> {
    Seq::new(
        ((bits.len() + 7) / 8) as nat,
        |k: int| bits_value(padded_bits(bits).subrange(8 * k, 8 * k + 8)) as u8,
    )
}

/// The bytes that hold colour indices at `bpp` bits each.
pub open spec fn packed(pixels: Seq<u32>, bpp: nat) -> Seq<u8> {
    bits_bytes(pixel_bits(pixels, bpp))
}

/// The first `count` colour indices that `bytes` hold at `bpp` bits each.
pub open spec fn unpacked(bytes: Seq<u8>, bpp: nat, count: nat) -> Seq<u32> {
    Seq::new(
        count,
        |i: int| bits_value(bytes_bits(bytes).subrange(i * bpp, i * bpp + bpp)) as u32,
    )
}

/// Whether every colour index fits `bpp` bits.
pub open spec fn pixels_fit(pixels: Seq<u32>, bpp: nat) -> bool {
    forall|i: int| 0 <= i < pixels.len() ==> (#[trigger] pixels[i] as nat) < two_pow(bpp)
}

/// The bits spell a number below two to their count.
pub proof fn lemma_bits_value_bound(s: Seq<bool>)
    ensures
        bits_value(s) < two_pow(s.len()),
    decreases s.len(),
{
    if s.len() > 0 {
        lemma_bits_value_bound(s.drop_last());
    }
}

/// The bits of the number that bits spell are those bits.
pub proof fn lemma_value_bits_of_bits_value(s: Seq<bool>)
    ensures
        value_bits(bits_value(s), s.len()) == s,
    decreases s.len(),
{
    if s.len() > 0 {
        lemma_value_bits_of_bits_value(s.drop_last());
        let v = bits_value(s);
        assert(v / 2 == bits_value(s.drop_last()));
        assert((v % 2 == 1) == s.last());
        assert(s.drop_last().push(s.last()) =~= s);
    }
}

/// Each pixel takes `bpp` bits.
pub proof fn lemma_pixel_bits_len(pixels: Seq<u32>, bpp: nat)
    ensures
        pixel_bits(pixels, bpp).len() == pixels.len() * bpp,
    decreases pixels.len(),
{
    if pixels.len() > 0 {
        lemma_pixel_bits_len(pixels.drop_last(), bpp);
        lemma_value_bits_len(pixels.last() as nat, bpp);
        let n = pixels.len();
        assert((n - 1) * bpp + bpp == n * bpp) by (nonlinear_arith);
    }
}

/// The bits of pixel `i` stand at their place among the bits of all pixels.
pub proof fn lemma_pixel_bits_slice(pixels: Seq<u32>, bpp: nat, i: int)
    requires
        0 <= i < pixels.len(),
    ensures
        pixel_bits(pixels, bpp).len() == pixels.len() * bpp,
        0 <= i * bpp,
        i * bpp + bpp <= pixels.len() * bpp,
        pixel_bits(pixels, bpp).subrange(i * bpp, i * bpp + bpp) == value_bits(
            pixels[i] as nat,
            bpp,
        ),
    decreases pixels.len(),
{
    let n = pixels.len();
    let init = pixels.drop_last();
    lemma_pixel_bits_len(pixels, bpp);
    lemma_pixel_bits_len(init, bpp);
    lemma_value_bits_len(pixels.last() as nat, bpp);
    assert((n - 1) * bpp + bpp == n * bpp) by (nonlinear_arith);
    assert(0 <= i * bpp) by (nonlinear_arith)
        requires
            0 <= i,
    ;
    if i == n - 1 {
        assert(pixel_bits(pixels, bpp).subrange(i * bpp, i * bpp + bpp) =~= value_bits(
            pixels[i] as nat,
            bpp,
        ));
    } else {
        lemma_pixel_bits_slice(init, bpp, i);
        assert(i * bpp + bpp <= (n - 1) * bpp);
        assert(pixel_bits(pixels, bpp).subrange(i * bpp, i * bpp + bpp) =~= pixel_bits(
            init,
            bpp,
        ).subrange(i * bpp, i * bpp + bpp));
    }
}

/// The bits of the bytes that hold `bits` are `bits` filled up with zeros.
pub proof fn lemma_bits_of_bits_bytes(bits: Seq<bool>)
    ensures
        bytes_bits(bits_bytes(bits)) == padded_bits(bits),
{
    let b = bits_bytes(bits);
    let p = padded_bits(bits);
    assert(p.len() == 8 * b.len());
    assert forall|k: int| 0 <= k < p.len() implies bytes_bits(b)[k] == p[k] by {
        let byte = k / 8;
        let part = p.subrange(8 * byte, 8 * byte + 8);
        lemma_bits_value_bound(part);
        assert(two_pow(8) == 256) by {
            reveal_with_fuel(two_pow, 9);
        }
        lemma_value_bits_of_bits_value(part);
        assert(b[byte] as nat == bits_value(part));
        assert(value_bits(b[byte] as nat, 8)[k % 8] == part[k % 8]);
    }
    assert(bytes_bits(b) =~= p);
}

/// Bytes whose bits are `bits` filled up with zeros are the bytes that hold
/// `bits`.
pub proof fn lemma_bytes_of_padded_bits(bytes: Seq<u8>, bits: Seq<bool>)
    requires
        bytes_bits(bytes) == padded_bits(bits),
    ensures
        bytes == bits_bytes(bits),
{
    let p = padded_bits(bits);
    assert(8 * bytes.len() == p.len());
    assert forall|k: int| 0 <= k < bytes.len() implies bytes[k] == bits_bytes(bits)[k] by {
        let part = p.subrange(8 * k, 8 * k + 8);
        lemma_value_bits_len(bytes[k] as nat, 8);
        assert(part =~= value_bits(bytes[k] as nat, 8)) by {
            assert forall|j: int| 0 <= j < 8 implies part[j] == value_bits(bytes[k] as nat, 8)[j] by {
                assert(bytes_bits(bytes)[8 * k + j] == value_bits(
                    bytes[(8 * k + j) / 8] as nat,
                    8,
                )[(8 * k + j) % 8]);
            }
        }
        lemma_bits_value_of_value_bits(bytes[k] as nat, 8);
        assert(two_pow(8) == 256) by {
            reveal_with_fuel(two_pow, 9);
        }
    }
    assert(bytes =~= bits_bytes(bits));
}

/// Colour indices that fit their bits come out of the bytes that hold them as
/// they went in.
pub proof fn lemma_pack_round_trip(pixels: Seq<u32>, bpp: nat)
    requires
        pixels_fit(pixels, bpp),
    ensures
        unpacked(packed(pixels, bpp), bpp, pixels.len()) == pixels,
{
    let bits = pixel_bits(pixels, bpp);
    let bytes = packed(pixels, bpp);
    lemma_bits_of_bits_bytes(bits);
    lemma_pixel_bits_len(pixels, bpp);
    assert forall|i: int| 0 <= i < pixels.len() implies unpacked(bytes, bpp, pixels.len())[i]
        == pixels[i] by {
        lemma_pixel_bits_slice(pixels, bpp, i);
        assert(bytes_bits(bytes).subrange(i * bpp, i * bpp + bpp) =~= bits.subrange(
            i * bpp,
            i * bpp + bpp,
        ));
        lemma_bits_value_of_value_bits(pixels[i] as nat, bpp);
        lemma_two_pow_positive(bpp);
        assert((pixels[i] as nat) % two_pow(bpp) == pixels[i] as nat) by (nonlinear_arith)
            requires
                (pixels[i] as nat) < two_pow(bpp),
        ;
    }
    assert(unpacked(bytes, bpp, pixels.len()) =~= pixels);
}

/// The bytes that hold colour indices at `bpp` bits each, the last byte
/// filled with zero bits.
pub fn pack_pixels(pixels: &[u32], bpp: usize) -> (bytes: Vec<u8>)
    requires
        bpp <= 32,
    ensures
        bytes@ == packed(pixels@, bpp as nat),
{
    let mut bits = BitWriter::new();
    let n = pixels.len();
    let mut i: usize = 0;
    assert(pixels@.subrange(0, 0) =~= Seq::<u32>::empty());
    while i < n
        invariant
            i <= n,
            n == pixels@.len(),
            bpp <= 32,
            bits.wf(),
            bits.bits() == pixel_bits(pixels@.subrange(0, i as int), bpp as nat),
        decreases n - i,
    {
        bits.write_bits(pixels[i], bpp);
        proof {
            let next = pixels@.subrange(0, i + 1);
            assert(next.drop_last() =~= pixels@.subrange(0, i as int));
            assert(next.last() == pixels@[i as int]);
        }
        i += 1;
    }
    proof {
        assert(pixels@.subrange(0, n as int) =~= pixels@);
        lemma_value_bits_len(bits.byte_in_progress as nat, bits.shift as nat);
        assert(bits.bits().len() == 8 * bits.bytes@.len() + bits.shift);
    }
    let ghost all = bits.bits();
    bits.end();
    proof {
        assert(bytes_bits(bits.bytes@) == padded_bits(all));
        lemma_bytes_of_padded_bits(bits.bytes@, all);
    }
    bits.bytes
}

/// The first `count` colour indices that the `byte_count` bytes from
/// `offset` on hold at `bpp` bits each.
pub fn unpack_pixels(data: &DataView, offset: usize, byte_count: usize, count: usize, bpp: usize) -> (pixels:
    Vec<u32>)
    requires
        offset + byte_count <= data.data.len(),
        bpp <= 32,
        count * bpp <= 8 * byte_count,
    ensures
        pixels@ == unpacked(
            data@.subrange(offset as int, offset + byte_count),
            bpp as nat,
            count as nat,
        ),
{
    let bits = data.get_bits(offset, byte_count);
    let ghost part = data@.subrange(offset as int, offset + byte_count);
    let ghost flags = bytes_bits(part);
    let mut pixels: Vec<u32> = Vec::new();
    let mut i: usize = 0;
    let mut pos: usize = 0;
    while i < count
        invariant
            i <= count,
            bpp <= 32,
            count * bpp <= 8 * byte_count,
            flags == bytes_bits(part),
            flags.len() == 8 * byte_count,
            bits@ == bit_bytes(flags),
            bits.len() == 8 * byte_count,
            pos == i * bpp,
            pixels@.len() == i,
            forall|k: int|
                0 <= k < i ==> #[trigger] pixels@[k] == bits_value(
                    flags.subrange(k * bpp, k * bpp + bpp),
                ) as u32,
        decreases count - i,
    {
        proof {
            assert((i + 1) * bpp == i * bpp + bpp) by (nonlinear_arith);
            assert((i + 1) * bpp <= count * bpp) by (nonlinear_arith)
                requires
                    i + 1 <= count,
            ;
        }
        let mut value: u64 = 0;
        let mut j: usize = 0;
        assert(flags.subrange(pos as int, pos as int) =~= Seq::<bool>::empty());
        while j < bpp
            invariant
                j <= bpp <= 32,
                pos + bpp <= flags.len(),
                pos + bpp <= bits.len(),
                flags.len() == 8 * byte_count,
                bits@ == bit_bytes(flags),
                value == bits_value(flags.subrange(pos as int, pos + j)),
                value < two_pow(j as nat),
            decreases bpp - j,
        {
            proof {
                let next = flags.subrange(pos as int, pos + j + 1);
                assert(next.drop_last() =~= flags.subrange(pos as int, pos + j));
                assert(next.last() == flags[pos + j]);
                crate::data_view::lemma_two_pow_bound(j as nat, 31);
                reveal_with_fuel(two_pow, 2);
                assert(two_pow(31) == 2 * two_pow(30));
            }
            value = 2 * value + bits[pos + j] as u64;
            j += 1;
        }
        proof {
            crate::data_view::lemma_two_pow_bound(bpp as nat, 32);
            reveal_with_fuel(two_pow, 3);
            assert(two_pow(32) == 4 * two_pow(30));
        }
        pixels.push(value as u32);
        pos += bpp;
        i += 1;
    }
    assert(pixels@ =~= unpacked(part, bpp as nat, count as nat));
    pixels
}

} // verus!
