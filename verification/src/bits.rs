//! Runs of bits and their packing into bytes, highest bit first.

use vstd::prelude::*;

verus! {

/// Every element is 0 or 1.
pub open spec fn is_bits(bits: Seq<u8>) -> bool {
    forall|i: int| 0 <= i < bits.len() ==> #[trigger] bits[i] <= 1
}

/// The number that a run of bits spells in binary, first bit highest.
pub open spec fn bits_value(bits: Seq<u8>) -> nat
    decreases bits.len(),
{
    if bits.len() == 0 {
        0
    } else {
        2 * bits_value(bits.drop_last()) + bits.last() as nat
    }
}

/// How many bits are missing to the next byte boundary.
pub open spec fn pad_count(n: nat) -> nat {
    ((8 - n % 8) % 8) as nat
}

/// The run filled up with zeros to a whole number of bytes.
pub open spec fn padded(bits: Seq<u8>) -> Seq<u8> {
    bits + Seq::new(pad_count(bits.len()), |i: int| 0u8)
}

/// The bits after the last byte boundary.
pub open spec fn tail(bits: Seq<u8>) -> Seq<u8> {
    bits.subrange(bits.len() - bits.len() % 8, bits.len() as int)
}

/// The `k`-th group of eight bits.
pub open spec fn chunk(bits: Seq<u8>, k: int) -> Seq<u8> {
    bits.subrange(8 * k, 8 * k + 8)
}

/// The whole bytes of a run, eight bits each.
pub open spec fn pack_full(bits: Seq<u8>) -> Seq<u8> {
    Seq::new(bits.len() / 8, |k: int| bits_value(chunk(bits, k)) as u8)
}

/// What one more bit does to the whole bytes of a run: nothing, unless it
/// completes a group of eight, which then makes one more byte.
pub proof fn lemma_pack_full_push(bits: Seq<u8>, bit: u8)
    ensures
        bits.len() % 8 < 7 ==> pack_full(bits.push(bit)) == pack_full(bits),
        bits.len() % 8 == 7 ==> pack_full(bits.push(bit)) == pack_full(bits).push(
            bits_value(bits.push(bit).subrange(bits.len() - 7, bits.len() as int + 1)) as u8,
        ),
{
    let after = bits.push(bit);
    assert forall|k: int| 0 <= k < bits.len() / 8 implies #[trigger] chunk(after, k) == chunk(
        bits,
        k,
    ) by {
        assert(chunk(after, k) =~= chunk(bits, k));
    }
    if bits.len() % 8 < 7 {
        assert(after.len() / 8 == bits.len() / 8);
        assert(pack_full(after) =~= pack_full(bits));
    } else {
        assert(after.len() / 8 == bits.len() / 8 + 1);
        assert(chunk(after, bits.len() as int / 8) =~= after.subrange(
            bits.len() - 7,
            bits.len() as int + 1,
        ));
        assert(pack_full(after) =~= pack_full(bits).push(
            bits_value(after.subrange(bits.len() - 7, bits.len() as int + 1)) as u8,
        ));
    }
}

/// The bytes of a run; the last one is filled up with zeros in its low bits.
pub open spec fn pack(bits: Seq<u8>) -> Seq<u8> {
    pack_full(padded(bits))
}

/// The byte that closes a packed run: 8 after an empty run, else the number
/// of low bits of the last byte that carry nothing.
pub open spec fn trailer(n: nat) -> u8 {
    if n == 0 {
        8
    } else {
        pad_count(n) as u8
    }
}

/// The place value of bit `j` of a byte, counted from the highest.
pub open spec fn place(j: int) -> int {
    if j == 0 {
        128
    } else if j == 1 {
        64
    } else if j == 2 {
        32
    } else if j == 3 {
        16
    } else if j == 4 {
        8
    } else if j == 5 {
        4
    } else if j == 6 {
        2
    } else {
        1
    }
}

/// Bit `j` of a byte, counted from the highest.
pub open spec fn bit_at(byte: u8, j: int) -> u8 {
    ((byte as int / place(j)) % 2) as u8
}

/// Reads bit `j` of a byte, counted from the highest.
pub fn bit_of(byte: u8, j: u8) -> (bit: u8)
    requires
        j < 8,
    ensures
        bit == bit_at(byte, j as int),
        bit <= 1,
{
    let shift: u8 = 7 - j;
    let bit: u8 = (byte >> shift) & 1;
    proof {
        assert(shift == 7 ==> (byte >> shift) & 1 == (byte / 128) % 2) by (bit_vector);
        assert(shift == 6 ==> (byte >> shift) & 1 == (byte / 64) % 2) by (bit_vector);
        assert(shift == 5 ==> (byte >> shift) & 1 == (byte / 32) % 2) by (bit_vector);
        assert(shift == 4 ==> (byte >> shift) & 1 == (byte / 16) % 2) by (bit_vector);
        assert(shift == 3 ==> (byte >> shift) & 1 == (byte / 8) % 2) by (bit_vector);
        assert(shift == 2 ==> (byte >> shift) & 1 == (byte / 4) % 2) by (bit_vector);
        assert(shift == 1 ==> (byte >> shift) & 1 == (byte / 2) % 2) by (bit_vector);
        assert(shift == 0 ==> (byte >> shift) & 1 == byte % 2) by (bit_vector);
    }
    bit
}

/// The bits of a run of bytes, highest bit of each byte first.
pub open spec fn unpack(bytes: Seq<u8>) -> Seq<u8> {
    Seq::new(8 * bytes.len(), |i: int| bit_at(bytes[i / 8], i % 8))
}

/// What is unpacked from bytes is made of zeros and ones.
pub proof fn lemma_unpack_bits(bytes: Seq<u8>)
    ensures
        is_bits(unpack(bytes)),
        unpack(bytes).len() == 8 * bytes.len(),
{
}

/// A run of at most eight bits spells a number below two to its length.
pub proof fn lemma_bits_value_bound(bits: Seq<u8>)
    requires
        is_bits(bits),
        bits.len() <= 8,
    ensures
        bits_value(bits) < 256,
        bits.len() <= 7 ==> bits_value(bits) < 128,
{
    lemma_bits_value_below(bits);
    reveal_with_fuel(span, 9);
}

/// Two to the power `n`, for the first few `n`.
pub open spec fn span(n: nat) -> nat
    decreases n,
{
    if n == 0 {
        1
    } else {
        2 * span((n - 1) as nat)
    }
}

/// A run of bits spells a number below two to its length.
pub proof fn lemma_bits_value_below(bits: Seq<u8>)
    requires
        is_bits(bits),
    ensures
        bits_value(bits) < span(bits.len()),
    decreases bits.len(),
{
    if bits.len() > 0 {
        assert(is_bits(bits.drop_last()));
        lemma_bits_value_below(bits.drop_last());
        assert(bits.last() <= 1);
    }
}

/// The bits of the byte that eight bits spell are those eight bits.
pub proof fn lemma_byte_bits(c: Seq<u8>, j: int)
    requires
        is_bits(c),
        c.len() == 8,
        0 <= j < 8,
    ensures
        bits_value(c) < 256,
        bit_at(bits_value(c) as u8, j) == c[j],
{
    let c7 = c.drop_last();
    let c6 = c7.drop_last();
    let c5 = c6.drop_last();
    let c4 = c5.drop_last();
    let c3 = c4.drop_last();
    let c2 = c3.drop_last();
    let c1 = c2.drop_last();
    let c0 = c1.drop_last();
    assert(bits_value(c0) == 0);
    assert(bits_value(c1) == c[0]);
    assert(bits_value(c2) == 2 * c[0] + c[1]);
    assert(bits_value(c3) == 4 * c[0] + 2 * c[1] + c[2]);
    assert(bits_value(c4) == 8 * c[0] + 4 * c[1] + 2 * c[2] + c[3]);
    assert(bits_value(c5) == 16 * c[0] + 8 * c[1] + 4 * c[2] + 2 * c[3] + c[4]);
    assert(bits_value(c6) == 32 * c[0] + 16 * c[1] + 8 * c[2] + 4 * c[3] + 2 * c[4] + c[5]);
    assert(bits_value(c7) == 64 * c[0] + 32 * c[1] + 16 * c[2] + 8 * c[3] + 4 * c[4] + 2 * c[5]
        + c[6]);
    assert(bits_value(c) == 128 * c[0] + 64 * c[1] + 32 * c[2] + 16 * c[3] + 8 * c[4] + 4 * c[5]
        + 2 * c[6] + c[7]);
    assert(c[0] <= 1 && c[1] <= 1 && c[2] <= 1 && c[3] <= 1 && c[4] <= 1 && c[5] <= 1 && c[6] <= 1
        && c[7] <= 1);
}

/// Unpacking what was packed gives the run back, followed by its padding.
pub proof fn lemma_unpack_pack(bits: Seq<u8>)
    requires
        is_bits(bits),
    ensures
        pack(bits).len() * 8 == bits.len() + pad_count(bits.len()),
        unpack(pack(bits)).take(bits.len() as int) == bits,
{
    let p = padded(bits);
    assert(is_bits(p));
    assert(p.len() % 8 == 0);
    let u = unpack(pack(bits));
    assert forall|i: int| 0 <= i < bits.len() implies u[i] == bits[i] by {
        let k = i / 8;
        let j = i % 8;
        let c = chunk(p, k);
        assert(is_bits(c));
        lemma_byte_bits(c, j);
        assert(c[j] == p[i]);
    }
    assert(u.take(bits.len() as int) =~= bits);
}

} // verus!
