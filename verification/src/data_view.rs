//! A read-only cursor over bytes with little-endian reads, and a writer that
//! packs single bits into bytes, most significant bit first.

use vstd::prelude::*;

verus! {

/// The 16-bit word whose low byte is `lo` and whose high byte is `hi`.
pub open spec fn word_of(lo: u8, hi: u8) -> u16 {
    (lo as int + 256 * (hi as int)) as u16
}

/// The little-endian 16-bit word at byte `i` of `s`.
pub open spec fn le_u16(s: Seq<u8>, i: int) -> u16 {
    word_of(s[i], s[i + 1])
}

/// The little-endian signed 16-bit word at byte `i` of `s`.
pub open spec fn le_i16(s: Seq<u8>, i: int) -> i16 {
    signed_of(le_u16(s, i))
}

/// The two's complement reading of a 16-bit word.
pub open spec fn signed_of(w: u16) -> i16 {
    if w < 0x8000 {
        w as i16
    } else {
        (w as int - 0x1_0000) as i16
    }
}

/// The 16-bit word that holds `v` in two's complement.
pub open spec fn unsigned_of(v: i16) -> u16 {
    if v >= 0 {
        v as u16
    } else {
        (v as int + 0x1_0000) as u16
    }
}

/// The little-endian 32-bit word at byte `i` of `s`.
pub open spec fn le_u32(s: Seq<u8>, i: int) -> u32 {
    (s[i] as int + 0x100 * (s[i + 1] as int) + 0x1_0000 * (s[i + 2] as int) + 0x100_0000 * (
    s[i + 3] as int)) as u32
}

/// The low byte of a word.
pub open spec fn lo_byte(w: u16) -> u8 {
    (w % 256) as u8
}

/// The high byte of a word.
pub open spec fn hi_byte(w: u16) -> u8 {
    (w / 256) as u8
}

/// The four little-endian bytes of a 32-bit word.
pub open spec fn u32_bytes(w: u32) -> Seq<u8> {
    seq![
        (w % 0x100) as u8,
        ((w / 0x100) % 0x100) as u8,
        ((w / 0x1_0000) % 0x100) as u8,
        (w / 0x100_0000) as u8,
    ]
}

/// The two little-endian bytes of a 16-bit word.
pub open spec fn u16_bytes(w: u16) -> Seq<u8> {
    seq![lo_byte(w), hi_byte(w)]
}

/// The words that `s` holds, two bytes each, low byte first. A last odd byte is
/// left out.
pub open spec fn words_of_bytes(s: Seq<u8>) -> Seq<u16> {
    Seq::new(s.len() / 2, |k: int| le_u16(s, 2 * k))
}

/// The bytes of `w`, two for each word, low byte first.
pub open spec fn bytes_of_words(w: Seq<u16>) -> Seq<u8> {
    Seq::new(
        2 * w.len(),
        |i: int|
            if i % 2 == 0 {
                lo_byte(w[i / 2])
            } else {
                hi_byte(w[i / 2])
            },
    )
}

/// The bytes of `w`, four for each word, lowest byte first.
pub open spec fn bytes_of_u32s(w: Seq<u32>) -> Seq<u8> {
    Seq::new(4 * w.len(), |i: int| u32_bytes(w[i / 4])[i % 4])
}

/// `w` cut or filled with zero words to exactly `len` words.
pub open spec fn resized(w: Seq<u16>, len: nat) -> Seq<u16> {
    Seq::new(
        len,
        |i: int|
            if i < w.len() {
                w[i]
            } else {
                0u16
            },
    )
}

/// The low `n` bits of `v`, most significant first.
pub open spec fn value_bits(v: nat, n: nat) -> Seq<bool>
    decreases n,
{
    if n == 0 {
        Seq::empty()
    } else {
        value_bits(v / 2, (n - 1) as nat).push(v % 2 == 1)
    }
}

/// The number that the bits of `s` spell, most significant first.
pub open spec fn bits_value(s: Seq<bool>) -> nat
    decreases s.len(),
{
    if s.len() == 0 {
        0
    } else {
        2 * bits_value(s.drop_last()) + if s.last() {
            1nat
        } else {
            0nat
        }
    }
}

/// The bits of all bytes of `s` in order, each byte most significant bit first.
pub open spec fn bytes_bits(s: Seq<u8>) -> Seq<bool> {
    Seq::new(8 * s.len(), |k: int| value_bits(s[k / 8] as nat, 8)[k % 8])
}

/// `n` zero bits.
pub open spec fn zero_bits(n: nat) -> Seq<bool> {
    Seq::new(n, |k: int| false)
}

/// Two to the power `n`.
pub open spec fn two_pow(n: nat) -> nat
    decreases n,
{
    if n == 0 {
        1
    } else {
        2 * two_pow((n - 1) as nat)
    }
}

/// A number is spelt in as many bits as asked for.
pub proof fn lemma_value_bits_len(v: nat, n: nat)
    ensures
        value_bits(v, n).len() == n,
    decreases n,
{
    if n > 0 {
        lemma_value_bits_len(v / 2, (n - 1) as nat);
    }
}

/// Reading back the low `n` bits of `v` gives `v` modulo two to the `n`.
pub proof fn lemma_bits_value_of_value_bits(v: nat, n: nat)
    ensures
        bits_value(value_bits(v, n)) == v % two_pow(n),
    decreases n,
{
    if n == 0 {
    } else {
        let rest = value_bits(v / 2, (n - 1) as nat);
        let all = value_bits(v, n);
        lemma_bits_value_of_value_bits(v / 2, (n - 1) as nat);
        assert(all.drop_last() =~= rest);
        assert(all.last() == (v % 2 == 1));
        let p = two_pow((n - 1) as nat);
        lemma_two_pow_positive((n - 1) as nat);
        vstd::arithmetic::div_mod::lemma_breakdown(v as int, 2, p as int);
    }
}

/// A power of two is positive.
pub proof fn lemma_two_pow_positive(n: nat)
    ensures
        two_pow(n) > 0,
    decreases n,
{
    if n > 0 {
        lemma_two_pow_positive((n - 1) as nat);
    }
}

/// The bits of a byte sequence grow by the eight bits of a byte pushed onto it.
pub proof fn lemma_bytes_bits_push(s: Seq<u8>, b: u8)
    ensures
        bytes_bits(s.push(b)) == bytes_bits(s) + value_bits(b as nat, 8),
{
    lemma_value_bits_len(b as nat, 8);
    assert(bytes_bits(s.push(b)) =~= bytes_bits(s) + value_bits(b as nat, 8));
}

/// Words written as bytes read back as the same words.
pub proof fn lemma_words_round_trip(w: Seq<u16>)
    ensures
        words_of_bytes(bytes_of_words(w)) == w,
{
    let b = bytes_of_words(w);
    assert forall|k: int| 0 <= k < w.len() implies le_u16(b, 2 * k) == w[k] by {
        assert(b[2 * k] == lo_byte(w[k]));
        assert(b[2 * k + 1] == hi_byte(w[k]));
    }
    assert(words_of_bytes(b) =~= w);
}

/// An even number of bytes read as words write back as the same bytes.
pub proof fn lemma_bytes_round_trip(b: Seq<u8>)
    requires
        b.len() % 2 == 0,
    ensures
        bytes_of_words(words_of_bytes(b)) == b,
{
    assert(bytes_of_words(words_of_bytes(b)) =~= b);
}

/// A signed word written in two's complement reads back unchanged, and so does
/// an unsigned one read as signed.
pub proof fn lemma_signed_round_trip(w: u16, v: i16)
    ensures
        unsigned_of(signed_of(w)) == w,
        signed_of(unsigned_of(v)) == v,
{
}

/// A view of bytes that are read as little-endian numbers.
pub struct DataView {
    pub data: Vec<u8>,
}

impl View for DataView {
    type V = Seq<u8>;

    open spec fn view(&self) -> Seq<u8> {
        self.data@
    }
}

impl DataView {
    /// A view of a copy of the bytes given.
    pub fn new(data: &[u8]) -> (view: DataView)
        ensures
            view@ == data@,
    {
        let mut copy: Vec<u8> = Vec::new();
        copy.extend_from_slice(data);
        DataView { data: copy }
    }

    /// The number of bytes.
    pub fn len(&self) -> (len: usize)
        ensures
            len == self@.len(),
    {
        self.data.len()
    }

    /// A copy of the `size` bytes from `start` on.
    pub fn chunk(&self, start: usize, size: usize) -> (part: DataView)
        requires
            start + size <= self.data.len(),
        ensures
            part@ == self@.subrange(start as int, start + size),
    {
        let mut copy: Vec<u8> = Vec::new();
        let mut k: usize = 0;
        while k < size
            invariant
                k <= size,
                start + size <= self.data.len(),
                copy@ == self.data@.subrange(start as int, start + k),
            decreases size - k,
        {
            copy.push(self.data[start + k]);
            k += 1;
            assert(copy@ =~= self.data@.subrange(start as int, start + k));
        }
        DataView { data: copy }
    }

    /// The byte at place `i`.
    pub fn get_u8(&self, i: usize) -> (byte: u8)
        requires
            i < self.data.len(),
        ensures
            byte == self@[i as int],
    {
        self.data[i]
    }

    /// The 16-bit word at byte `i`.
    pub fn get_u16(&self, i: usize) -> (word: u16)
        requires
            i + 1 < self.data.len(),
        ensures
            word == le_u16(self@, i as int),
    {
        self.data[i] as u16 + 256 * (self.data[i + 1] as u16)
    }

    /// The signed 16-bit word at byte `i`.
    pub fn get_i16(&self, i: usize) -> (word: i16)
        requires
            i + 1 < self.data.len(),
        ensures
            word == le_i16(self@, i as int),
    {
        to_signed(self.get_u16(i))
    }

    /// The 32-bit word at byte `i`.
    pub fn get_u32(&self, i: usize) -> (word: u32)
        requires
            i + 3 < self.data.len(),
        ensures
            word == le_u32(self@, i as int),
    {
        self.data[i] as u32 + 0x100 * (self.data[i + 1] as u32) + 0x1_0000 * (self.data[i
            + 2] as u32) + 0x100_0000 * (self.data[i + 3] as u32)
    }

    /// The bits of the `len` bytes from `i` on, one per element, each 0 or 1,
    /// every byte most significant bit first.
    pub fn get_bits(&self, i: usize, len: usize) -> (bits: Vec<u8>)
        requires
            i + len <= self.data.len(),
        ensures
            bits@ == bit_bytes(bytes_bits(self@.subrange(i as int, i + len))),
    {
        let mut bits: Vec<u8> = Vec::new();
        let mut j: usize = 0;
        assert(bits@ =~= bit_bytes(bytes_bits(self@.subrange(i as int, i + 0))));
        while j < len
            invariant
                j <= len,
                i + len <= self.data.len(),
                bits@ == bit_bytes(bytes_bits(self@.subrange(i as int, i + j))),
            decreases len - j,
        {
            let byte = self.data[i + j];
            let ghost before = bits@;
            let mut b: usize = 0;
            let mut weight: u8 = 128;
            proof {
                reveal_with_fuel(two_pow, 9);
                lemma_value_bits_len(byte as nat, 8);
            }
            while b < 8
                invariant
                    b <= 8,
                    b < 8 ==> weight as nat == two_pow((7 - b) as nat),
                    value_bits(byte as nat, 8).len() == 8,
                    bits@ == before + bit_bytes(value_bits(byte as nat, 8).subrange(0, b as int)),
                decreases 8 - b,
            {
                proof {
                    lemma_two_pow_positive((7 - b) as nat);
                    lemma_value_bit(byte as nat, 8, b as int);
                }
                let bit = (byte / weight) % 2;
                bits.push(bit);
                assert(bits@ =~= before + bit_bytes(
                    value_bits(byte as nat, 8).subrange(0, b + 1),
                ));
                if b < 7 {
                    proof {
                        reveal_with_fuel(two_pow, 2);
                    }
                    weight = weight / 2;
                }
                b += 1;
            }
            proof {
                let sub = self@.subrange(i as int, i + j);
                let next = self@.subrange(i as int, i + j + 1);
                assert(next =~= sub.push(byte));
                lemma_bytes_bits_push(sub, byte);
                assert(value_bits(byte as nat, 8).subrange(0, 8) =~= value_bits(byte as nat, 8));
                assert(bits@ =~= bit_bytes(bytes_bits(next)));
            }
            j += 1;
        }
        bits
    }

    /// The first place at which `bytes` occurs in the data.
    pub fn find_bytes(&self, bytes: &[u8]) -> (found: Option<usize>)
        ensures
            match found {
                Some(at) => occurs_at(self@, bytes@, at as int) && forall|j: int|
                    0 <= j < at ==> !occurs_at(self@, bytes@, j),
                None => forall|j: int| 0 <= j < self@.len() ==> !occurs_at(self@, bytes@, j),
            },
    {
        let n = self.data.len();
        let m = bytes.len();
        let mut i: usize = 0;
        while i < n
            invariant
                i <= n,
                n == self.data@.len(),
                m == bytes@.len(),
                forall|j: int| 0 <= j < i ==> !occurs_at(self@, bytes@, j),
            decreases n - i,
        {
            if m <= n - i {
                let mut k: usize = 0;
                while k < m && self.data[i + k] == bytes[k]
                    invariant
                        k <= m,
                        i + m <= n,
                        n == self.data@.len(),
                        m == bytes@.len(),
                        forall|j: int| 0 <= j < k ==> self.data@[i + j] == bytes@[j],
                    decreases m - k,
                {
                    k += 1;
                }
                if k == m {
                    return Some(i);
                }
            }
            i += 1;
        }
        None
    }
}

/// Whether `pattern` stands in `s` from place `at` on. Only places inside `s`
/// count, so nothing occurs in an empty sequence.
pub open spec fn occurs_at(s: Seq<u8>, pattern: Seq<u8>, at: int) -> bool {
    &&& 0 <= at < s.len()
    &&& at + pattern.len() <= s.len()
    &&& forall|j: int| 0 <= j < pattern.len() ==> s[at + j] == pattern[j]
}

/// Bit `i` of the low `n` bits of `v`, counted from the most significant, is
/// `v` divided by the weight of that place, modulo two.
pub proof fn lemma_value_bit(v: nat, n: nat, i: int)
    requires
        0 <= i < n,
    ensures
        value_bits(v, n).len() == n,
        value_bits(v, n)[i] == ((v / two_pow((n - 1 - i) as nat)) % 2 == 1),
    decreases n,
{
    lemma_value_bits_len(v, n);
    lemma_value_bits_len(v / 2, (n - 1) as nat);
    if i == n - 1 {
        let one = two_pow((n - 1 - i) as nat);
        assert(one == 1);
        assert(v / one == v) by (nonlinear_arith)
            requires
                one == 1,
        ;
    } else {
        lemma_value_bit(v / 2, (n - 1) as nat, i);
        let p = two_pow((n - 2 - i) as nat);
        lemma_two_pow_positive((n - 2 - i) as nat);
        assert(two_pow((n - 1 - i) as nat) == 2 * p);
        vstd::arithmetic::div_mod::lemma_div_denominator(v as int, 2, p as int);
    }
}

/// One byte, 0 or 1, for each bit.
pub open spec fn bit_bytes(bits: Seq<bool>) -> Seq<u8> {
    Seq::new(
        bits.len(),
        |k: int|
            if bits[k] {
                1u8
            } else {
                0u8
            },
    )
}

/// The two's complement reading of a word.
pub fn to_signed(w: u16) -> (v: i16)
    ensures
        v == signed_of(w),
{
    if w < 0x8000 {
        w as i16
    } else {
        (w as i32 - 0x1_0000) as i16
    }
}

/// The word that holds `v` in two's complement.
pub fn to_unsigned(v: i16) -> (w: u16)
    ensures
        w == unsigned_of(v),
{
    if v >= 0 {
        v as u16
    } else {
        (v as i32 + 0x1_0000) as u16
    }
}

/// The words that bytes hold, two bytes each.
pub fn bytes_to_words(bytes: &[u8]) -> (words: Vec<u16>)
    ensures
        words@ == words_of_bytes(bytes@),
{
    let mut words: Vec<u16> = Vec::new();
    let n = bytes.len();
    let mut i: usize = 0;
    while i < n && 1 < n - i
        invariant
            i <= n,
            n == bytes@.len(),
            i % 2 == 0,
            words@.len() == i / 2,
            forall|k: int| 0 <= k < words@.len() ==> words@[k] == le_u16(bytes@, 2 * k),
        decreases n - i,
    {
        let word = bytes[i] as u16 + 256 * (bytes[i + 1] as u16);
        words.push(word);
        i += 2;
    }
    assert(words@ =~= words_of_bytes(bytes@));
    words
}

/// The bytes of words, two for each.
pub fn words_to_bytes(words: &[u16]) -> (bytes: Vec<u8>)
    ensures
        bytes@ == bytes_of_words(words@),
{
    let mut bytes: Vec<u8> = Vec::new();
    let n = words.len();
    let mut i: usize = 0;
    while i < n
        invariant
            i <= n,
            n == words@.len(),
            bytes@ == bytes_of_words(words@.subrange(0, i as int)),
        decreases n - i,
    {
        let word = words[i];
        let ghost before = bytes@;
        bytes.push((word % 256) as u8);
        bytes.push((word / 256) as u8);
        assert(bytes@ =~= bytes_of_words(words@.subrange(0, i + 1))) by {
            let a = words@.subrange(0, i as int);
            let c = words@.subrange(0, i + 1);
            assert forall|k: int| 0 <= k < 2 * (i + 1) implies bytes@[k] == bytes_of_words(c)[k] by {
                if k < 2 * i {
                    assert(bytes@[k] == before[k]);
                    assert(a[k / 2] == c[k / 2]);
                }
            }
        }
        i += 1;
    }
    assert(words@.subrange(0, n as int) =~= words@);
    bytes
}

/// The words cut or filled up with zero words to the length given.
pub fn resize_words(words: &[u16], len: usize) -> (out: Vec<u16>)
    ensures
        out@ == resized(words@, len as nat),
{
    let mut out: Vec<u16> = Vec::new();
    let n = words.len();
    let mut i: usize = 0;
    while i < len
        invariant
            i <= len,
            n == words@.len(),
            out@ == resized(words@, i as nat),
        decreases len - i,
    {
        let word = if i < n {
            words[i]
        } else {
            0
        };
        out.push(word);
        i += 1;
        assert(out@ =~= resized(words@, i as nat));
    }
    out
}

/// Appends the two little-endian bytes of `word`.
pub fn push_u16(data: &mut Vec<u8>, word: u16)
    ensures
        final(data)@ == old(data)@ + u16_bytes(word),
{
    data.push((word % 256) as u8);
    data.push((word / 256) as u8);
    assert(data@ =~= old(data)@ + u16_bytes(word));
}

/// Appends the four little-endian bytes of `word`.
pub fn push_u32(data: &mut Vec<u8>, word: u32)
    ensures
        final(data)@ == old(data)@ + u32_bytes(word),
{
    data.push((word % 0x100) as u8);
    data.push(((word / 0x100) % 0x100) as u8);
    data.push(((word / 0x1_0000) % 0x100) as u8);
    data.push((word / 0x100_0000) as u8);
    assert(data@ =~= old(data)@ + u32_bytes(word));
}

/// The bytes of 32-bit words, lowest byte first.
pub fn u32s_to_bytes(words: &[u32]) -> (bytes: Vec<u8>)
    ensures
        bytes@ == bytes_of_u32s(words@),
{
    let mut bytes: Vec<u8> = Vec::new();
    let n = words.len();
    let mut i: usize = 0;
    while i < n
        invariant
            i <= n,
            n == words@.len(),
            bytes@ == bytes_of_u32s(words@.subrange(0, i as int)),
        decreases n - i,
    {
        let ghost before = bytes@;
        push_u32(&mut bytes, words[i]);
        assert(bytes@ =~= bytes_of_u32s(words@.subrange(0, i + 1))) by {
            let a = words@.subrange(0, i as int);
            let c = words@.subrange(0, i + 1);
            assert forall|k: int| 0 <= k < 4 * (i + 1) implies bytes@[k] == bytes_of_u32s(c)[k] by {
                if k < 4 * i {
                    assert(bytes@[k] == before[k]);
                    assert(a[k / 4] == c[k / 4]);
                }
            }
        }
        i += 1;
    }
    assert(words@.subrange(0, n as int) =~= words@);
    bytes
}

/// Appends `count` bytes of value `byte`.
pub fn push_fill(data: &mut Vec<u8>, byte: u8, count: usize)
    ensures
        final(data)@ == old(data)@ + Seq::new(count as nat, |k: int| byte),
{
    let mut i: usize = 0;
    while i < count
        invariant
            i <= count,
            data@ == old(data)@ + Seq::new(i as nat, |k: int| byte),
        decreases count - i,
    {
        data.push(byte);
        i += 1;
        assert(data@ =~= old(data)@ + Seq::new(i as nat, |k: int| byte));
    }
}

/// Appends all of `more`.
pub fn push_all(data: &mut Vec<u8>, more: &[u8])
    ensures
        final(data)@ == old(data)@ + more@,
{
    let n = more.len();
    let mut i: usize = 0;
    while i < n
        invariant
            i <= n,
            n == more@.len(),
            data@ == old(data)@ + more@.subrange(0, i as int),
        decreases n - i,
    {
        data.push(more[i]);
        i += 1;
        assert(data@ =~= old(data)@ + more@.subrange(0, i as int));
    }
    assert(more@.subrange(0, n as int) =~= more@);
}

/// `s` with the bytes from `at` on replaced by `part`.
pub open spec fn spliced(s: Seq<u8>, at: int, part: Seq<u8>) -> Seq<u8> {
    s.subrange(0, at) + part + s.subrange(at + part.len(), s.len() as int)
}

/// Whether `s` begins with `prefix`.
pub open spec fn has_prefix(s: Seq<u8>, prefix: Seq<u8>) -> bool {
    prefix.len() <= s.len() && s.subrange(0, prefix.len() as int) == prefix
}

/// Writes `part` over the bytes from `at` on.
pub fn splice(data: &mut Vec<u8>, at: usize, part: &[u8])
    requires
        at + part.len() <= old(data).len(),
    ensures
        final(data)@ == spliced(old(data)@, at as int, part@),
        final(data)@.len() == old(data)@.len(),
{
    let n = part.len();
    let mut k: usize = 0;
    while k < n
        invariant
            k <= n,
            n == part.len(),
            at + n <= data.len(),
            data@.len() == old(data)@.len(),
            data@ == spliced(old(data)@, at as int, part@.subrange(0, k as int)),
        decreases n - k,
    {
        data.set(at + k, part[k]);
        k += 1;
        assert(data@ =~= spliced(old(data)@, at as int, part@.subrange(0, k as int)));
    }
    assert(part@.subrange(0, n as int) =~= part@);
}

/// Whether the data begin with `prefix`.
pub fn starts_with(data: &[u8], prefix: &[u8]) -> (found: bool)
    ensures
        found == has_prefix(data@, prefix@),
{
    let n = prefix.len();
    if data.len() < n {
        return false;
    }
    let mut k: usize = 0;
    while k < n
        invariant
            k <= n,
            n == prefix.len(),
            n <= data.len(),
            forall|j: int| 0 <= j < k ==> data@[j] == prefix@[j],
        decreases n - k,
    {
        if data[k] != prefix[k] {
            assert(data@.subrange(0, n as int)[k as int] != prefix@[k as int]);
            return false;
        }
        k += 1;
    }
    assert(data@.subrange(0, n as int) =~= prefix@);
    true
}

/// A writer of single bits, most significant bit of each byte first.
pub struct BitWriter {
    pub bytes: Vec<u8>,
    pub byte_in_progress: u8,
    pub shift: usize,
}

impl BitWriter {
    /// The byte in progress holds `shift` bits, fewer than eight.
    pub open spec fn wf(&self) -> bool {
        &&& self.shift < 8
        &&& (self.byte_in_progress as nat) < two_pow(self.shift as nat)
    }

    /// All bits written so far, in the order written.
    pub open spec fn bits(&self) -> Seq<bool> {
        bytes_bits(self.bytes@) + value_bits(self.byte_in_progress as nat, self.shift as nat)
    }

    /// A writer that has written nothing.
    pub fn new() -> (writer: BitWriter)
        ensures
            writer.wf(),
            writer.bits() == Seq::<bool>::empty(),
            writer.bytes@.len() == 0,
            writer.shift == 0,
    {
        let writer = BitWriter { bytes: Vec::new(), byte_in_progress: 0, shift: 0 };
        assert(writer.bits() =~= Seq::<bool>::empty());
        writer
    }

    /// Writes one bit behind those written.
    pub fn write_bit(&mut self, bit: bool)
        requires
            old(self).wf(),
        ensures
            final(self).wf(),
            final(self).bits() == old(self).bits().push(bit),
            final(self).shift == (old(self).shift + 1) % 8,
            final(self).bytes@.len() == old(self).bytes@.len() + if old(self).shift == 7 {
                1int
            } else {
                0int
            },
    {
        proof {
            reveal_with_fuel(two_pow, 9);
        }
        let ghost v = self.byte_in_progress as nat;
        let ghost s = self.shift as nat;
        let next: u8 = self.byte_in_progress * 2 + if bit {
            1
        } else {
            0
        };
        assert(value_bits(next as nat, s + 1) == value_bits(v, s).push(bit)) by {
            assert((next as nat) / 2 == v);
        }
        self.shift += 1;
        if self.shift == 8 {
            proof {
                lemma_bytes_bits_push(self.bytes@, next);
            }
            self.bytes.push(next);
            self.byte_in_progress = 0;
            self.shift = 0;
            assert(self.bits() =~= old(self).bits().push(bit));
        } else {
            self.byte_in_progress = next;
            assert(self.bits() =~= old(self).bits().push(bit));
        }
    }

    /// Writes the low `num_bits` bits of `value`, most significant first; more
    /// than 32 count as 32, and none are written for 0.
    pub fn write_bits(&mut self, value: u32, num_bits: usize)
        requires
            old(self).wf(),
        ensures
            final(self).wf(),
            final(self).bits() == old(self).bits() + value_bits(
                value as nat,
                if num_bits > 32 {
                    32nat
                } else {
                    num_bits as nat
                },
            ),
    {
        let n: usize = if num_bits > 32 {
            32
        } else {
            num_bits
        };
        if n == 0 {
            assert(self.bits() =~= old(self).bits() + value_bits(value as nat, 0));
            return ;
        }
        let mut weight: u32 = 1;
        let mut k: usize = 1;
        while k < n
            invariant
                1 <= k <= n <= 32,
                weight as nat == two_pow((k - 1) as nat),
            decreases n - k,
        {
            proof {
                lemma_two_pow_bound((k - 1) as nat, 30);
            }
            weight = weight * 2;
            k += 1;
        }
        let mut j: usize = 0;
        proof {
            let top = (value as nat) / two_pow(n as nat);
            lemma_two_pow_positive(n as nat);
            vstd::arithmetic::div_mod::lemma_div_pos_is_pos(value as int, two_pow(n as nat) as int);
            assert(value_bits(top, 0).len() == 0);
            assert(self.bits() =~= old(self).bits() + value_bits(top, 0));
        }
        while j < n
            invariant
                j <= n <= 32,
                self.wf(),
                j < n ==> weight as nat == two_pow((n - 1 - j) as nat),
                self.bits() == old(self).bits() + value_bits(
                    (value as nat) / two_pow((n - j) as nat),
                    j as nat,
                ),
            decreases n - j,
        {
            proof {
                lemma_two_pow_positive((n - 1 - j) as nat);
            }
            let bit = (value / weight) % 2 == 1;
            self.write_bit(bit);
            proof {
                let p = two_pow((n - 1 - j) as nat);
                lemma_two_pow_positive((n - 1 - j) as nat);
                let hi = (value as nat) / p;
                assert(two_pow((n - j) as nat) == 2 * p);
                vstd::arithmetic::div_mod::lemma_div_denominator(value as int, p as int, 2);
                vstd::arithmetic::div_mod::lemma_div_pos_is_pos(value as int, p as int);
                vstd::arithmetic::div_mod::lemma_div_pos_is_pos(value as int, (2 * p) as int);
                assert(p * 2 == 2 * p);
                assert(value_bits(hi, (j + 1) as nat) == value_bits(hi / 2, j as nat).push(
                    hi % 2 == 1,
                ));
                assert(self.bits() =~= old(self).bits() + value_bits(hi, (j + 1) as nat));
            }
            if j + 1 < n {
                weight = weight / 2;
            }
            j += 1;
        }
        proof {
            assert(two_pow(0) == 1);
            assert((n - j) as nat == 0);
            let one = two_pow((n - j) as nat);
            assert((value as nat) / one == value as nat) by (nonlinear_arith)
                requires
                    one == 1,
            ;
        }
    }

    /// Fills the byte in progress with zero bits, so that every bit written
    /// stands in `bytes`.
    pub fn end(&mut self)
        requires
            old(self).wf(),
        ensures
            final(self).wf(),
            final(self).shift == 0,
            final(self).byte_in_progress == 0,
            final(self).bits() == old(self).bits() + zero_bits(((8 - old(self).shift) % 8) as nat),
            bytes_bits(final(self).bytes@) == final(self).bits(),
    {
        let ghost start = self.bits();
        let mut count: usize = 0;
        while self.shift != 0
            invariant
                self.wf(),
                old(self).wf(),
                count <= 8,
                self.shift == (old(self).shift + count) % 8,
                count > 0 ==> old(self).shift != 0 && old(self).shift + count <= 8,
                self.bits() == start + zero_bits(count as nat),
            decreases 8 - count,
        {
            self.write_bit(false);
            count += 1;
            assert(self.bits() =~= start + zero_bits(count as nat));
        }
        proof {
            reveal_with_fuel(two_pow, 2);
            assert(self.byte_in_progress == 0);
            assert(value_bits(0, 0) =~= Seq::<bool>::empty());
            assert(self.bits() =~= bytes_bits(self.bytes@));
            if count == 0 {
                assert(old(self).shift == 0);
            }
        }
    }
}

/// The powers of two grow with the exponent; the thirtieth is 0x4000_0000.
pub proof fn lemma_two_pow_bound(a: nat, b: nat)
    requires
        a <= b,
    ensures
        two_pow(a) <= two_pow(b),
        two_pow(30) == 0x4000_0000,
    decreases b,
{
    reveal_with_fuel(two_pow, 31);
    if a < b {
        lemma_two_pow_bound(a, (b - 1) as nat);
    }
}

} // verus!

