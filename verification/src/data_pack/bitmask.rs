//! Rows with optional fields: a 16-bit mask, then one word for each field that
//! the mask announces, in the order of the bits.

use vstd::prelude::*;
use crate::data_view::{
    DataView, bytes_of_words, le_u16, push_u16, two_pow, lemma_two_pow_positive,
};

verus! {

/// Whether bit `k` of `mask` is set.
pub open spec fn bit_set(mask: nat, k: nat) -> bool {
    (mask / two_pow(k)) % 2 == 1
}

/// The number with bit `k` set exactly where `bits[k]` holds.
pub open spec fn mask_of(bits: Seq<bool>) -> nat
    decreases bits.len(),
{
    if bits.len() == 0 {
        0
    } else {
        mask_of(bits.drop_last()) + if bits.last() {
            two_pow((bits.len() - 1) as nat)
        } else {
            0
        }
    }
}

/// The words of the fields that are present, in order.
pub open spec fn slot_words(slots: Seq<Option<u16>>) -> Seq<u16>
    decreases slots.len(),
{
    if slots.len() == 0 {
        Seq::empty()
    } else {
        slot_words(slots.drop_last()) + match slots.last() {
            Some(word) => seq![word],
            None => Seq::empty(),
        }
    }
}

/// The bits of a row's mask: one for each field, set where the field is
/// present, then the flags.
pub open spec fn row_bits(slots: Seq<Option<u16>>, flags: Seq<bool>) -> Seq<bool> {
    Seq::new(
        slots.len() + flags.len(),
        |k: int|
            if k < slots.len() {
                slots[k] is Some
            } else {
                flags[k - slots.len()]
            },
    )
}

/// The words of a row: the mask, then the fields that are present.
pub open spec fn row_words(slots: Seq<Option<u16>>, flags: Seq<bool>) -> Seq<u16> {
    seq![mask_of(row_bits(slots, flags)) as u16] + slot_words(slots)
}

/// The first `n` fields of the row whose mask is `mask` and whose words stand
/// in `s` from `base` on. Field `k` is present where bit `k` is set and
/// `carried[k]` holds; it is then the next word not yet taken.
pub open spec fn read_slots(s: Seq<u8>, base: int, mask: nat, carried: Seq<bool>, n: nat) -> Seq<
    Option<u16>,
>
    decreases n,
{
    if n == 0 {
        Seq::empty()
    } else {
        let before = read_slots(s, base, mask, carried, (n - 1) as nat);
        before.push(
            if carried[n - 1] && bit_set(mask, (n - 1) as nat) {
                Some(le_u16(s, base + 2 * slot_words(before).len()))
            } else {
                None
            },
        )
    }
}

/// All fields of the row at `offset`.
pub open spec fn row_slots(s: Seq<u8>, offset: int, carried: Seq<bool>) -> Seq<Option<u16>> {
    read_slots(s, offset + 2, le_u16(s, offset) as nat, carried, carried.len())
}

/// The length in bytes of the row at `offset`.
pub open spec fn row_size(s: Seq<u8>, offset: int, carried: Seq<bool>) -> int {
    2 + 2 * (slot_words(row_slots(s, offset, carried)).len() as int)
}

/// Whether the row at `offset` ends inside `s`.
pub open spec fn row_fits(s: Seq<u8>, offset: int, carried: Seq<bool>) -> bool {
    offset + row_size(s, offset, carried) <= s.len()
}

/// Reading `n` slots gives `n` of them.
pub proof fn lemma_read_slots_len(s: Seq<u8>, base: int, mask: nat, carried: Seq<bool>, n: nat)
    ensures
        read_slots(s, base, mask, carried, n).len() == n,
    decreases n,
{
    if n > 0 {
        lemma_read_slots_len(s, base, mask, carried, (n - 1) as nat);
    }
}

/// The fields read grow with `n`, and so does the number of words they take.
pub proof fn lemma_read_slots_grow(
    s: Seq<u8>,
    base: int,
    mask: nat,
    carried: Seq<bool>,
    k: nat,
    n: nat,
)
    requires
        k <= n,
    ensures
        slot_words(read_slots(s, base, mask, carried, k)).len() <= slot_words(
            read_slots(s, base, mask, carried, n),
        ).len(),
    decreases n,
{
    if k < n {
        lemma_read_slots_grow(s, base, mask, carried, k, (n - 1) as nat);
        let before = read_slots(s, base, mask, carried, (n - 1) as nat);
        let all = read_slots(s, base, mask, carried, n);
        assert(all.drop_last() =~= before);
    }
}

/// There are no more words than slots.
pub proof fn lemma_slot_words_len(slots: Seq<Option<u16>>)
    ensures
        slot_words(slots).len() <= slots.len(),
    decreases slots.len(),
{
    if slots.len() > 0 {
        lemma_slot_words_len(slots.drop_last());
    }
}

/// A mask of `n` bits is below two to the `n`.
pub proof fn lemma_mask_bound(bits: Seq<bool>)
    ensures
        mask_of(bits) < two_pow(bits.len()),
    decreases bits.len(),
{
    if bits.len() > 0 {
        lemma_mask_bound(bits.drop_last());
    }
}

/// Two to a sum is the product of the powers.
pub proof fn lemma_two_pow_adds(a: nat, b: nat)
    ensures
        two_pow(a + b) == two_pow(a) * two_pow(b),
    decreases b,
{
    if b == 0 {
        assert(two_pow(a) * 1 == two_pow(a));
    } else {
        lemma_two_pow_adds(a, (b - 1) as nat);
        let x = two_pow(a);
        let y = two_pow((b - 1) as nat);
        assert(x * (2 * y) == 2 * (x * y)) by (nonlinear_arith);
    }
}

/// Bit `k` of the mask of `bits` is set exactly where `bits[k]` holds.
pub proof fn lemma_mask_bit(bits: Seq<bool>, k: int)
    requires
        0 <= k < bits.len(),
    ensures
        bit_set(mask_of(bits), k as nat) == bits[k],
    decreases bits.len(),
{
    let n = (bits.len() - 1) as nat;
    let init = bits.drop_last();
    let m = mask_of(init);
    let b: nat = if bits.last() {
        1
    } else {
        0
    };
    lemma_mask_bound(init);
    lemma_two_pow_positive(n);
    lemma_two_pow_positive(k as nat);
    let pn = two_pow(n);
    let pk = two_pow(k as nat);
    assert(mask_of(bits) == m + b * pn) by (nonlinear_arith)
        requires
            mask_of(bits) == m + if b == 1 {
                pn
            } else {
                0
            },
            b <= 1,
    ;
    if k == n {
        assert(m + b * pn == b * pn + m);
        vstd::arithmetic::div_mod::lemma_fundamental_div_mod_converse(
            (m + b * pn) as int,
            pn as int,
            b as int,
            m as int,
        );
    } else {
        lemma_mask_bit(init, k);
        assert(init[k] == bits[k]);
        // two_pow(n) is two_pow(k) times an even number
        lemma_two_pow_adds(k as nat, (n - k) as nat);
        let c = two_pow((n - k - 1) as nat);
        assert(two_pow((n - k) as nat) == 2 * c);
        let q = m / pk;
        let r = m % pk;
        vstd::arithmetic::div_mod::lemma_fundamental_div_mod(m as int, pk as int);
        assert(m + b * pn == (q + 2 * (b * c)) * pk + r) by (nonlinear_arith)
            requires
                m == pk * q + r,
                pn == pk * (2 * c),
        ;
        vstd::arithmetic::div_mod::lemma_fundamental_div_mod_converse(
            (m + b * pn) as int,
            pk as int,
            (q + 2 * (b * c)) as int,
            r as int,
        );
        assert((q + 2 * (b * c)) % 2 == q % 2) by (nonlinear_arith);
    }
}

/// The row at `offset`, if it ends inside the data: its mask, its fields, and
/// the offset behind it.
pub fn read_row(data: &DataView, offset: usize, carried: &[bool]) -> (row: Option<
    (u16, Vec<Option<u16>>, usize),
>)
    requires
        carried@.len() <= 16,
    ensures
        match row {
            Some((mask, slots, next)) => {
                &&& row_fits(data@, offset as int, carried@)
                &&& mask == le_u16(data@, offset as int)
                &&& slots@ == row_slots(data@, offset as int, carried@)
                &&& next == offset + row_size(data@, offset as int, carried@)
            },
            None => !row_fits(data@, offset as int, carried@),
        },
{
    let len = data.len();
    if len < 2 || offset > len - 2 {
        return None;
    }
    let mask = data.get_u16(offset);
    let n = carried.len();
    let mut slots: Vec<Option<u16>> = Vec::new();
    let mut pos: usize = offset + 2;
    let mut weight: u32 = 1;
    let mut k: usize = 0;
    let ghost s = data@;
    let ghost base = offset + 2;
    while k < n
        invariant
            k <= n <= 16,
            n == carried@.len(),
            len == data.data.len(),
            s == data@,
            base == offset + 2,
            mask == le_u16(s, offset as int),
            weight as nat == two_pow(k as nat),
            weight <= 0x1_0000,
            slots@ == read_slots(s, base, mask as nat, carried@, k as nat),
            pos == base + 2 * slot_words(slots@).len(),
            pos <= len,
        decreases n - k,
    {
        proof {
            lemma_two_pow_positive(k as nat);
        }
        let ghost before = slots@;
        if carried[k] && (mask as u32 / weight) % 2 == 1 {
            if len - pos < 2 {
                proof {
                    lemma_read_slots_grow(s, base, mask as nat, carried@, (k + 1) as nat, n as nat);
                    let next = read_slots(s, base, mask as nat, carried@, (k + 1) as nat);
                    assert(next.drop_last() =~= before);
                }
                return None;
            }
            slots.push(Some(data.get_u16(pos)));
            pos += 2;
        } else {
            slots.push(None);
        }
        proof {
            assert(slots@.drop_last() =~= before);
            lemma_two_pow_le_16(k as nat);
        }
        weight = weight * 2;
        k += 1;
    }
    Some((mask, slots, pos))
}

/// The powers of two up to the sixteenth fit 17 bits; those below it, 16.
pub proof fn lemma_two_pow_le_16(k: nat)
    requires
        k <= 16,
    ensures
        two_pow(k) <= 0x1_0000,
        k < 16 ==> two_pow(k) <= 0x8000,
        two_pow(16) == 0x1_0000,
{
    reveal_with_fuel(two_pow, 17);
}

/// The bytes of a row: the mask, then each field that is present.
pub fn save_row(slots: &[Option<u16>], flags: &[bool]) -> (bytes: Vec<u8>)
    requires
        slots@.len() + flags@.len() <= 16,
    ensures
        bytes@ == bytes_of_words(row_words(slots@, flags@)),
{
    let ghost bits = row_bits(slots@, flags@);
    let n = slots.len();
    let m = flags.len();
    let mut mask: u32 = 0;
    let mut weight: u32 = 1;
    let mut k: usize = 0;
    assert(bits.subrange(0, 0) =~= Seq::<bool>::empty());
    while k < n + m
        invariant
            k <= n + m <= 16,
            n == slots@.len(),
            m == flags@.len(),
            bits == row_bits(slots@, flags@),
            weight as nat == two_pow(k as nat),
            mask as nat == mask_of(bits.subrange(0, k as int)),
            mask < weight,
            weight <= 0x1_0000,
        decreases n + m - k,
    {
        let set = if k < n {
            slots[k].is_some()
        } else {
            flags[k - n]
        };
        proof {
            assert(bits.subrange(0, k + 1).drop_last() =~= bits.subrange(0, k as int));
            assert(bits.subrange(0, k + 1).last() == set);
            lemma_two_pow_le_16(k as nat);
        }
        if set {
            mask = mask + weight;
        }
        weight = weight * 2;
        k += 1;
    }
    assert(bits.subrange(0, (n + m) as int) =~= bits);
    let mut words: Vec<u16> = Vec::new();
    words.push(mask as u16);
    let mut k: usize = 0;
    assert(slots@.subrange(0, 0) =~= Seq::<Option<u16>>::empty());
    assert(words@ =~= seq![mask as u16] + slot_words(slots@.subrange(0, 0)));
    while k < n
        invariant
            k <= n,
            n == slots@.len(),
            words@ == seq![mask as u16] + slot_words(slots@.subrange(0, k as int)),
        decreases n - k,
    {
        proof {
            assert(slots@.subrange(0, k + 1).drop_last() =~= slots@.subrange(0, k as int));
            assert(slots@.subrange(0, k + 1).last() == slots@[k as int]);
        }
        match slots[k] {
            Some(word) => {
                words.push(word);
            },
            None => {},
        }
        assert(words@ =~= seq![mask as u16] + slot_words(slots@.subrange(0, k + 1)));
        k += 1;
    }
    assert(slots@.subrange(0, n as int) =~= slots@);
    let mut bytes: Vec<u8> = Vec::new();
    let mut k: usize = 0;
    let w = words.len();
    assert(bytes@ =~= bytes_of_words(words@.subrange(0, 0)));
    while k < w
        invariant
            k <= w,
            w == words@.len(),
            bytes@ == bytes_of_words(words@.subrange(0, k as int)),
        decreases w - k,
    {
        let ghost before = bytes@;
        push_u16(&mut bytes, words[k]);
        assert(bytes@ =~= bytes_of_words(words@.subrange(0, k + 1))) by {
            let a = words@.subrange(0, k as int);
            let c = words@.subrange(0, k + 1);
            assert forall|i: int| 0 <= i < 2 * (k + 1) implies bytes@[i] == bytes_of_words(c)[i] by {
                if i < 2 * k {
                    assert(bytes@[i] == before[i]);
                    assert(a[i / 2] == c[i / 2]);
                }
            }
        }
        k += 1;
    }
    assert(words@.subrange(0, w as int) =~= words@);
    bytes
}

/// The words of the first `n` fields are the first of the words of all.
pub proof fn lemma_slot_words_prefix(slots: Seq<Option<u16>>, n: int)
    requires
        0 <= n <= slots.len(),
    ensures
        slot_words(slots.subrange(0, n)).len() <= slot_words(slots).len(),
        slot_words(slots).subrange(0, slot_words(slots.subrange(0, n)).len() as int) == slot_words(
            slots.subrange(0, n),
        ),
    decreases slots.len(),
{
    if n == slots.len() {
        assert(slots.subrange(0, n) =~= slots);
        assert(slot_words(slots).subrange(0, slot_words(slots).len() as int) =~= slot_words(slots));
    } else {
        let init = slots.drop_last();
        assert(init.subrange(0, n) =~= slots.subrange(0, n));
        lemma_slot_words_prefix(init, n);
        let part = slot_words(slots.subrange(0, n));
        assert(slot_words(slots).subrange(0, part.len() as int) =~= slot_words(init).subrange(
            0,
            part.len() as int,
        ));
    }
}

/// The word at place `j` of words written as bytes into `s` at `offset`.
pub proof fn lemma_word_in_bytes(s: Seq<u8>, offset: int, words: Seq<u16>, j: int)
    requires
        0 <= offset,
        offset + 2 * words.len() <= s.len(),
        s.subrange(offset, offset + 2 * words.len()) == bytes_of_words(words),
        0 <= j < words.len(),
    ensures
        le_u16(s, offset + 2 * j) == words[j],
{
    let part = s.subrange(offset, offset + 2 * words.len());
    assert(s[offset + 2 * j] == part[2 * j]);
    assert(s[offset + 2 * j + 1] == part[2 * j + 1]);
}

/// Reading the first `n` fields of a row that was written gives the fields
/// that were written.
pub proof fn lemma_read_written_slots(
    s: Seq<u8>,
    offset: int,
    slots: Seq<Option<u16>>,
    flags: Seq<bool>,
    carried: Seq<bool>,
    n: nat,
)
    requires
        slots.len() == carried.len(),
        slots.len() + flags.len() <= 16,
        forall|k: int| 0 <= k < slots.len() && slots[k] is Some ==> carried[k],
        0 <= offset,
        offset + 2 * row_words(slots, flags).len() <= s.len(),
        s.subrange(offset, offset + 2 * row_words(slots, flags).len()) == bytes_of_words(
            row_words(slots, flags),
        ),
        n <= slots.len(),
    ensures
        read_slots(s, offset + 2, mask_of(row_bits(slots, flags)), carried, n) == slots.subrange(
            0,
            n as int,
        ),
    decreases n,
{
    let mask = mask_of(row_bits(slots, flags));
    if n == 0 {
        assert(slots.subrange(0, 0) =~= Seq::<Option<u16>>::empty());
    } else {
        lemma_read_written_slots(s, offset, slots, flags, carried, (n - 1) as nat);
        let before = slots.subrange(0, n - 1);
        let bits = row_bits(slots, flags);
        lemma_mask_bit(bits, n - 1);
        assert(bits[n - 1] == (slots[n - 1] is Some));
        let c = slot_words(before).len() as int;
        match slots[n - 1] {
            Some(word) => {
                let upto = slots.subrange(0, n as int);
                assert(upto.drop_last() =~= before);
                assert(upto.last() == slots[n - 1]);
                lemma_slot_words_prefix(slots, n as int);
                assert(slot_words(upto)[c] == word);
                assert(slot_words(slots)[c] == slot_words(slots).subrange(
                    0,
                    slot_words(upto).len() as int,
                )[c]);
                let words = row_words(slots, flags);
                assert(words[1 + c] == word);
                lemma_word_in_bytes(s, offset, words, 1 + c);
            },
            None => {},
        }
        assert(read_slots(s, offset + 2, mask, carried, n) =~= slots.subrange(0, n as int));
    }
}

/// A row that was written reads back as it was: the same fields, the same
/// flags, and the same length.
pub proof fn lemma_row_round_trip(
    s: Seq<u8>,
    offset: int,
    slots: Seq<Option<u16>>,
    flags: Seq<bool>,
    carried: Seq<bool>,
)
    requires
        slots.len() == carried.len(),
        slots.len() + flags.len() <= 16,
        forall|k: int| 0 <= k < slots.len() && slots[k] is Some ==> carried[k],
        0 <= offset,
        offset + 2 * row_words(slots, flags).len() <= s.len(),
        s.subrange(offset, offset + 2 * row_words(slots, flags).len()) == bytes_of_words(
            row_words(slots, flags),
        ),
    ensures
        row_fits(s, offset, carried),
        row_slots(s, offset, carried) == slots,
        row_size(s, offset, carried) == 2 * row_words(slots, flags).len(),
        forall|j: int|
            0 <= j < flags.len() ==> bit_set(
                le_u16(s, offset) as nat,
                (slots.len() + j) as nat,
            ) == flags[j],
{
    let bits = row_bits(slots, flags);
    let mask = mask_of(bits);
    let words = row_words(slots, flags);
    lemma_mask_bound(bits);
    lemma_two_pow_le_16(bits.len());
    crate::data_view::lemma_two_pow_bound(bits.len(), 16);
    lemma_word_in_bytes(s, offset, words, 0);
    assert(le_u16(s, offset) as nat == mask);
    lemma_read_written_slots(s, offset, slots, flags, carried, slots.len());
    assert(slots.subrange(0, slots.len() as int) =~= slots);
    assert forall|j: int| 0 <= j < flags.len() implies bit_set(
        le_u16(s, offset) as nat,
        (slots.len() + j) as nat,
    ) == flags[j] by {
        lemma_mask_bit(bits, slots.len() + j);
    }
}

} // verus!
