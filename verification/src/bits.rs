use vstd::prelude::*;

verus! {

/// The bit at position `i` of `bits`; every position outside the sequence reads as zero.
pub open spec fn bit_value(bits: Seq<bool>, i: int) -> bool {
    0 <= i < bits.len() && bits[i]
}

/// The weight of bit `k` within a byte, counting from the most significant bit.
pub open spec fn bit_weight(k: u8) -> u8 {
    0x80u8 >> k
}

/// `weight` if the bit is set, zero otherwise.
pub open spec fn bit_mask(b: bool, weight: u8) -> u8 {
    if b {
        weight
    } else {
        0u8
    }
}

/// Whether bit `k` of `byte` is set, counting from the most significant bit.
pub open spec fn byte_bit(byte: u8, k: u8) -> bool {
    byte & bit_weight(k) != 0
}

/// The first `i` bits of byte `j` of the packing, the remaining bits zero.
pub open spec fn pack_prefix(bits: Seq<bool>, j: int, i: int) -> u8
    decreases i,
{
    if i <= 0 {
        0u8
    } else {
        pack_prefix(bits, j, i - 1) | bit_mask(bit_value(bits, 8 * j + i - 1), bit_weight((i - 1) as u8))
    }
}

/// Byte `j` of the packing: bits `8j .. 8j+8`, most significant first, zero past the end.
pub open spec fn pack_byte(bits: Seq<bool>, j: int) -> u8 {
    pack_prefix(bits, j, 8)
}

/// The bits grouped into bytes, most significant bit first, the last byte filled with zeros.
pub open spec fn pack(bits: Seq<bool>) -> Seq<u8> {
    Seq::new(((bits.len() + 7) / 8) as nat, |j: int| pack_byte(bits, j))
}

/// The number of zero bits that fill the last byte of a packing of `len` bits.
pub open spec fn padding_of(len: nat) -> u8 {
    ((8 - len % 8) % 8) as u8
}

/// Bit `i` of a byte sequence, most significant bit of each byte first.
pub open spec fn bit_at(bytes: Seq<u8>, i: int) -> bool {
    byte_bit(bytes[i / 8], (i % 8) as u8)
}

/// The first `total` bits of a byte sequence.
pub open spec fn unpack(bytes: Seq<u8>, total: nat) -> Seq<bool> {
    Seq::new(total, |i: int| bit_at(bytes, i))
}

/// When each of eight masks is zero or the weight of its own bit, a bit of
/// their union is set exactly when its mask is not zero.
proof fn lemma_or_of_masks(m0: u8, m1: u8, m2: u8, m3: u8, m4: u8, m5: u8, m6: u8, m7: u8)
    by (bit_vector)
    requires
        m0 == 0 || m0 == 0x80u8 >> 0u8,
        m1 == 0 || m1 == 0x80u8 >> 1u8,
        m2 == 0 || m2 == 0x80u8 >> 2u8,
        m3 == 0 || m3 == 0x80u8 >> 3u8,
        m4 == 0 || m4 == 0x80u8 >> 4u8,
        m5 == 0 || m5 == 0x80u8 >> 5u8,
        m6 == 0 || m6 == 0x80u8 >> 6u8,
        m7 == 0 || m7 == 0x80u8 >> 7u8,
    ensures
        ((0u8 | m0 | m1 | m2 | m3 | m4 | m5 | m6 | m7) & (0x80u8 >> 0u8) != 0) == (m0 != 0),
        ((0u8 | m0 | m1 | m2 | m3 | m4 | m5 | m6 | m7) & (0x80u8 >> 1u8) != 0) == (m1 != 0),
        ((0u8 | m0 | m1 | m2 | m3 | m4 | m5 | m6 | m7) & (0x80u8 >> 2u8) != 0) == (m2 != 0),
        ((0u8 | m0 | m1 | m2 | m3 | m4 | m5 | m6 | m7) & (0x80u8 >> 3u8) != 0) == (m3 != 0),
        ((0u8 | m0 | m1 | m2 | m3 | m4 | m5 | m6 | m7) & (0x80u8 >> 4u8) != 0) == (m4 != 0),
        ((0u8 | m0 | m1 | m2 | m3 | m4 | m5 | m6 | m7) & (0x80u8 >> 5u8) != 0) == (m5 != 0),
        ((0u8 | m0 | m1 | m2 | m3 | m4 | m5 | m6 | m7) & (0x80u8 >> 6u8) != 0) == (m6 != 0),
        ((0u8 | m0 | m1 | m2 | m3 | m4 | m5 | m6 | m7) & (0x80u8 >> 7u8) != 0) == (m7 != 0),
{
}

/// Every bit of a packed byte is the bit of the sequence that was packed into it.
pub proof fn lemma_pack_byte_bit(bits: Seq<bool>, j: int, k: u8)
    requires
        k < 8,
    ensures
        byte_bit(pack_byte(bits, j), k) == bit_value(bits, 8 * j + k),
{
    reveal_with_fuel(pack_prefix, 9);
    let m0 = bit_mask(bit_value(bits, 8 * j + 0), bit_weight(0));
    let m1 = bit_mask(bit_value(bits, 8 * j + 1), bit_weight(1));
    let m2 = bit_mask(bit_value(bits, 8 * j + 2), bit_weight(2));
    let m3 = bit_mask(bit_value(bits, 8 * j + 3), bit_weight(3));
    let m4 = bit_mask(bit_value(bits, 8 * j + 4), bit_weight(4));
    let m5 = bit_mask(bit_value(bits, 8 * j + 5), bit_weight(5));
    let m6 = bit_mask(bit_value(bits, 8 * j + 6), bit_weight(6));
    let m7 = bit_mask(bit_value(bits, 8 * j + 7), bit_weight(7));
    assert(pack_byte(bits, j) == 0u8 | m0 | m1 | m2 | m3 | m4 | m5 | m6 | m7);
    lemma_or_of_masks(m0, m1, m2, m3, m4, m5, m6, m7);
    assert(0x80u8 >> 0u8 != 0 && 0x80u8 >> 1u8 != 0 && 0x80u8 >> 2u8 != 0 && 0x80u8 >> 3u8 != 0
        && 0x80u8 >> 4u8 != 0 && 0x80u8 >> 5u8 != 0 && 0x80u8 >> 6u8 != 0 && 0x80u8 >> 7u8 != 0)
        by (bit_vector);
}

/// Packing leaves less than one byte of filler, and the filler is what `padding_of` counts.
pub proof fn lemma_pack_len(bits: Seq<bool>)
    ensures
        padding_of(bits.len()) <= 7,
        8 * pack(bits).len() - padding_of(bits.len()) == bits.len(),
{
}

/// Unpacking a packing, up to the number of bits that were packed, gives the bits back.
pub proof fn lemma_unpack_pack(bits: Seq<bool>)
    ensures
        8 * pack(bits).len() >= bits.len(),
        unpack(pack(bits), bits.len()) == bits,
{
    let packed = pack(bits);
    assert forall|i: int| 0 <= i < bits.len() implies #[trigger] unpack(packed, bits.len())[i]
        == bits[i] by {
        lemma_pack_byte_bit(bits, i / 8, (i % 8) as u8);
    }
    assert(unpack(packed, bits.len()) =~= bits);
}

/// Whether bit `k` of `byte` is set, counting from the most significant bit.
pub fn test_bit(byte: u8, k: u8) -> (set: bool)
    requires
        k < 8,
    ensures
        set == byte_bit(byte, k),
{
    byte & (0x80u8 >> k) != 0
}

/// Groups a bit sequence into bytes, most significant bit first, filling the
/// last byte with zero bits.
pub fn pack_bits(bits: &[bool]) -> (bytes: Vec<u8>)
    ensures
        bytes@ == pack(bits@),
{
    let n: usize = bits.len();
    let mut bytes: Vec<u8> = Vec::new();
    let mut start: usize = 0;
    while start < n
        invariant
            n == bits@.len(),
            start <= n,
            start == n || start == 8 * bytes@.len(),
            8 * bytes@.len() < n + 8,
            8 * bytes@.len() >= start,
            forall|j: int| 0 <= j < bytes@.len() ==> bytes@[j] == pack_byte(bits@, j),
        decreases n - start,
    {
        let mut byte: u8 = 0;
        let mut i: u8 = 0;
        while i < 8
            invariant
                n == bits@.len(),
                start < n,
                start == 8 * bytes@.len(),
                i <= 8,
                byte == pack_prefix(bits@, bytes@.len() as int, i as int),
            decreases 8 - i,
        {
            let ghost before = byte;
            if (i as usize) < n - start && bits[start + i as usize] {
                byte = byte | (0x80u8 >> i);
            } else {
                assert(before | 0u8 == before) by (bit_vector);
            }
            i = i + 1;
        }
        bytes.push(byte);
        if n - start >= 8 {
            start = start + 8;
        } else {
            start = n;
        }
    }
    assert(bytes@ =~= pack(bits@));
    bytes
}

} // verus!
