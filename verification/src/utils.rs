//! Strings of `'0'` and `'1'` packed into bytes, and bytes written out as
//! such strings.

use vstd::prelude::*;

verus! {

/// The value of position `i` of a bit string: 1 where it holds `'1'`, and 0
/// where it holds anything else or lies outside the string.
pub open spec fn bit_at(bits: Seq<char>, i: int) -> int {
    if 0 <= i < bits.len() && bits[i] == '1' {
        1
    } else {
        0
    }
}

/// The weight of the `k`-th bit of a byte, counted from the most significant.
pub open spec fn bit_weight(k: int) -> int {
    if k == 0 {
        128
    } else if k == 1 {
        64
    } else if k == 2 {
        32
    } else if k == 3 {
        16
    } else if k == 4 {
        8
    } else if k == 5 {
        4
    } else if k == 6 {
        2
    } else if k == 7 {
        1
    } else {
        0
    }
}

/// The number of bytes that `n` bits are packed into.
pub open spec fn packed_len(n: nat) -> nat {
    ((n + 7) / 8) as nat
}

/// The value of the first `k` bits that follow position `base`, each at its
/// weight in the byte.
pub open spec fn byte_prefix(bits: Seq<char>, base: int, k: int) -> int
    decreases k,
{
    if k <= 0 {
        0
    } else {
        byte_prefix(bits, base, k - 1) + bit_at(bits, base + k - 1) * bit_weight(k - 1)
    }
}

/// The `j`-th byte of a packed bit string: bits `8j .. 8j + 8`, the first of
/// them in the most significant place, with zeros past the end of the string.
pub open spec fn packed_byte(bits: Seq<char>, j: int) -> u8 {
    byte_prefix(bits, 8 * j, 8) as u8
}

/// A bit string packed into bytes, most significant bit first, the last
/// byte padded with zeros in its low-order bits.
pub open spec fn pack_bits(bits: Seq<char>) -> Seq<u8> {
    Seq::new(packed_len(bits.len()), |j: int| packed_byte(bits, j))
}

/// The character that stands for bit `k` of `byte`, counted from the most
/// significant.
pub open spec fn bit_char(byte: u8, k: int) -> char {
    if (byte as int / bit_weight(k)) % 2 == 1 {
        '1'
    } else {
        '0'
    }
}

/// The bits of a byte sequence as a string of `'0'` and `'1'`, eight
/// characters for each byte, most significant bit first.
pub open spec fn unpack_bits(bytes: Seq<u8>) -> Seq<char> {
    Seq::new(8 * bytes.len(), |i: int| bit_char(bytes[i / 8], i % 8))
}

/// The first `k` weighted bits stay below the weight that is still free.
pub proof fn lemma_byte_prefix_bound(bits: Seq<char>, base: int, k: int)
    requires
        0 <= k <= 8,
    ensures
        0 <= byte_prefix(bits, base, k),
        byte_prefix(bits, base, k) + bit_weight(k - 1) <= 256,
    decreases k,
{
    if k > 0 {
        lemma_byte_prefix_bound(bits, base, k - 1);
    }
}

/// Past the end of the string a byte gains nothing.
pub proof fn lemma_byte_prefix_past_end(bits: Seq<char>, base: int, k: int, m: int)
    requires
        0 <= k <= m,
        base + k >= bits.len(),
    ensures
        byte_prefix(bits, base, m) == byte_prefix(bits, base, k),
    decreases m,
{
    if m > k {
        lemma_byte_prefix_past_end(bits, base, k, m - 1);
    }
}

/// Each bit of a packed byte can be read back from the byte's value.
pub proof fn lemma_packed_byte_bit(bits: Seq<char>, j: int, k: int)
    requires
        0 <= k < 8,
    ensures
        (packed_byte(bits, j) as int / bit_weight(k)) % 2 == bit_at(bits, 8 * j + k),
{
    reveal_with_fuel(byte_prefix, 9);
    let b0 = bit_at(bits, 8 * j);
    let b1 = bit_at(bits, 8 * j + 1);
    let b2 = bit_at(bits, 8 * j + 2);
    let b3 = bit_at(bits, 8 * j + 3);
    let b4 = bit_at(bits, 8 * j + 4);
    let b5 = bit_at(bits, 8 * j + 5);
    let b6 = bit_at(bits, 8 * j + 6);
    let b7 = bit_at(bits, 8 * j + 7);
    let value = 128 * b0 + 64 * b1 + 32 * b2 + 16 * b3 + 8 * b4 + 4 * b5 + 2 * b6 + b7;
    assert(byte_prefix(bits, 8 * j, 8) == value);
    assert(packed_byte(bits, j) as int == value);
    if k == 0 {
        assert(value / 128 == b0);
    } else if k == 1 {
        assert(value / 64 == 2 * b0 + b1);
    } else if k == 2 {
        assert(value / 32 == 2 * (2 * b0 + b1) + b2);
    } else if k == 3 {
        assert(value / 16 == 2 * (4 * b0 + 2 * b1 + b2) + b3);
    } else if k == 4 {
        assert(value / 8 == 2 * (8 * b0 + 4 * b1 + 2 * b2 + b3) + b4);
    } else if k == 5 {
        assert(value / 4 == 2 * (16 * b0 + 8 * b1 + 4 * b2 + 2 * b3 + b4) + b5);
    } else if k == 6 {
        assert(value / 2 == 2 * (32 * b0 + 16 * b1 + 8 * b2 + 4 * b3 + 2 * b4 + b5) + b6);
    } else {
        assert(value / 1 == 2 * (64 * b0 + 32 * b1 + 16 * b2 + 8 * b3 + 4 * b4 + 2 * b5 + b6) + b7);
    }
}

/// Whether every character of `bits` is `'0'` or `'1'`.
pub open spec fn is_bit_string(bits: Seq<char>) -> bool {
    forall|i: int| 0 <= i < bits.len() ==> bits[i] == '0' || bits[i] == '1'
}

/// Unpacking what was packed gives the bit string back, followed by the
/// zero bits that filled the last byte.
pub proof fn lemma_unpack_pack(bits: Seq<char>)
    requires
        is_bit_string(bits),
    ensures
        unpack_bits(pack_bits(bits)).len() == 8 * packed_len(bits.len()),
        unpack_bits(pack_bits(bits)).take(bits.len() as int) == bits,
        forall|i: int|
            bits.len() <= i < 8 * packed_len(bits.len()) ==> unpack_bits(pack_bits(bits))[i] == '0',
{
    let packed = pack_bits(bits);
    let unpacked = unpack_bits(packed);
    assert forall|i: int| 0 <= i < unpacked.len() implies unpacked[i] == (if bit_at(bits, i) == 1 {
        '1'
    } else {
        '0'
    }) by {
        lemma_packed_byte_bit(bits, i / 8, i % 8);
    }
    assert(unpacked.take(bits.len() as int) =~= bits);
}

/// Two bit strings with the same packed bytes agree wherever both have a
/// bit: the shorter is a prefix of the longer.
pub proof fn lemma_pack_bits_prefix(a: Seq<char>, b: Seq<char>)
    requires
        is_bit_string(a),
        is_bit_string(b),
        pack_bits(a) == pack_bits(b),
        a.len() <= b.len(),
    ensures
        a == b.take(a.len() as int),
{
    assert forall|i: int| 0 <= i < a.len() implies a[i] == b[i] by {
        lemma_packed_byte_bit(a, i / 8, i % 8);
        lemma_packed_byte_bit(b, i / 8, i % 8);
        assert(pack_bits(a)[i / 8] == packed_byte(a, i / 8));
        assert(pack_bits(b)[i / 8] == packed_byte(b, i / 8));
    }
    assert(a =~= b.take(a.len() as int));
}

/// Packs a string of `'0'` and `'1'` characters into bytes, most significant
/// bit first. A character other than `'1'` counts as a zero bit. The last
/// byte is padded with zero bits.
pub fn string_to_bytes(binary_string: String) -> (bytes: Vec<u8>)
    ensures
        bytes@ == pack_bits(binary_string@),
{
    pack_str(binary_string.as_str())
}

/// Packs the bit string `bits` as `string_to_bytes` does.
pub fn pack_str(bits: &str) -> (bytes: Vec<u8>)
    ensures
        bytes@ == pack_bits(bits@),
{
    let mut bytes: Vec<u8> = Vec::new();
    let mut current: u8 = 0;
    let mut mask: u8 = 128;
    let mut bit_count: u8 = 0;
    for bit in it: bits.chars()
        invariant
            it.seq() == bits@,
            bit_count < 8,
            it.index() == 8 * bytes@.len() + bit_count,
            mask == bit_weight(bit_count as int),
            current == byte_prefix(bits@, 8 * bytes@.len() as int, bit_count as int),
            forall|j: int| 0 <= j < bytes@.len() ==> bytes@[j] == packed_byte(bits@, j),
    {
        proof {
            lemma_byte_prefix_bound(bits@, 8 * bytes@.len() as int, bit_count as int + 1);
        }
        if bit == '1' {
            current = current + mask;
        }
        bit_count = bit_count + 1;
        if bit_count == 8 {
            bytes.push(current);
            current = 0;
            mask = 128;
            bit_count = 0;
        } else {
            mask = mask / 2;
        }
    }
    if bit_count > 0 {
        proof {
            lemma_byte_prefix_past_end(bits@, 8 * bytes@.len() as int, bit_count as int, 8);
        }
        bytes.push(current);
    }
    assert(bytes@ =~= pack_bits(bits@));
    bytes
}

/// Writes each byte out as eight characters, `'0'` or `'1'`, most
/// significant bit first.
pub fn bytes_to_string(bytes: &[u8]) -> (text: String)
    ensures
        text@ == unpack_bits(bytes@),
{
    let mut text = String::new();
    let mut i: usize = 0;
    while i < bytes.len()
        invariant
            i <= bytes@.len(),
            text@ == unpack_bits(bytes@.take(i as int)),
        decreases bytes@.len() - i,
    {
        let byte = bytes[i];
        let mut mask: u8 = 128;
        let mut k: u8 = 0;
        while k < 8
            invariant
                k <= 8,
                i < bytes@.len(),
                byte == bytes@[i as int],
                mask == bit_weight(k as int),
                text@ == unpack_bits(bytes@.take(i as int)) + Seq::new(
                    k as nat,
                    |m: int| bit_char(byte, m),
                ),
            decreases 8 - k,
        {
            proof {
                reveal_strlit("1");
                reveal_strlit("0");
            }
            let ghost before = text@;
            if (byte / mask) % 2 == 1 {
                text.append("1");
            } else {
                text.append("0");
            }
            assert(text@ =~= unpack_bits(bytes@.take(i as int)) + Seq::new(
                (k + 1) as nat,
                |m: int| bit_char(byte, m),
            ));
            k = k + 1;
            mask = mask / 2;
        }
        assert(text@ =~= unpack_bits(bytes@.take(i + 1))) by {
            let next = unpack_bits(bytes@.take(i + 1));
            assert(text@.len() == next.len());
            assert forall|m: int| 0 <= m < next.len() implies text@[m] == next[m] by {
                if m < 8 * i {
                    assert(bytes@.take(i as int)[m / 8] == bytes@.take(i + 1)[m / 8]);
                } else {
                    assert(m / 8 == i && m % 8 == m - 8 * i);
                }
            }
        }
        i = i + 1;
    }
    assert(bytes@.take(i as int) =~= bytes@);
    text
}

} // verus!
