//! Compression: counting, the code table, and the packed output.

use crate::bits::{
    bits_value, is_bits, lemma_bits_value_bound, lemma_pack_full_push, pack, pack_full, pad_count, padded, tail, trailer,
};
use crate::tree::{
    build_tree, counts, lemma_sum_ones, lemma_sum_update, spec_build_tree, sum, Node, NodeType,
};
use vstd::bytes::{spec_u64_to_le_bytes, u64_to_le_bytes};
use vstd::prelude::*;

verus! {

/// Size of the table of counts at the start of the compressed form.
pub const HEADER_LEN: usize = 2048;

/// A code table as mathematical sequences.
pub open spec fn table_view(codes: Seq<Vec<u8>>) -> Seq<Seq<u8>> {
    Seq::new(codes.len(), |i: int| codes[i]@)
}

/// The code table of a tree: for each byte value the path to its leaf.
pub open spec fn spec_code_map(root: Node) -> Seq<Seq<u8>> {
    Seq::new(256, |b: int| root.path_to(b as u8))
}

/// How often `b` occurs in `input`.
pub open spec fn occurrences(input: Seq<u8>, b: u8) -> nat
    decreases input.len(),
{
    if input.len() == 0 {
        0
    } else {
        occurrences(input.drop_last(), b) + if input.last() == b {
            1nat
        } else {
            0nat
        }
    }
}

/// The table of counts of an input: every byte value starts at one, so that
/// none has weight zero, and gains one per occurrence.
pub open spec fn spec_frequencies(input: Seq<u8>) -> Seq<usize> {
    Seq::new(256, |b: int| (1 + occurrences(input, b as u8)) as usize)
}

/// No byte value occurs more often than the input is long.
pub proof fn lemma_occurrences_bound(input: Seq<u8>, b: u8)
    ensures
        occurrences(input, b) <= input.len(),
    decreases input.len(),
{
    if input.len() > 0 {
        lemma_occurrences_bound(input.drop_last(), b);
    }
}

/// One more byte at the end raises its own count by one and no other.
pub proof fn lemma_frequencies_step(input: Seq<u8>)
    requires
        0 < input.len() < usize::MAX,
    ensures
        spec_frequencies(input.drop_last())[input.last() as int] < usize::MAX,
        spec_frequencies(input) == spec_frequencies(input.drop_last()).update(
            input.last() as int,
            (spec_frequencies(input.drop_last())[input.last() as int] + 1) as usize,
        ),
{
    let shorter = input.drop_last();
    let slot = input.last() as int;
    lemma_occurrences_bound(shorter, input.last());
    assert(spec_frequencies(shorter)[slot] == 1 + occurrences(shorter, input.last()));
    let stepped = spec_frequencies(shorter).update(
        slot,
        (spec_frequencies(shorter)[slot] + 1) as usize,
    );
    assert forall|k: int| 0 <= k < 256 implies spec_frequencies(input)[k] == stepped[k]
        && spec_frequencies(shorter)[k] == 1 + occurrences(shorter, k as u8) by {
        lemma_occurrences_bound(input, k as u8);
        lemma_occurrences_bound(shorter, k as u8);
    }
    assert(spec_frequencies(input) =~= stepped);
}

/// The counts of an input sum to its length plus 256.
pub proof fn lemma_frequencies_sum(input: Seq<u8>)
    requires
        input.len() + 256 <= usize::MAX,
    ensures
        sum(counts(spec_frequencies(input))) == input.len() + 256,
    decreases input.len(),
{
    if input.len() == 0 {
        lemma_sum_ones(256);
        assert(counts(spec_frequencies(input)) =~= Seq::new(256, |i: int| 1nat));
    } else {
        let slot = input.last() as int;
        let before = counts(spec_frequencies(input.drop_last()));
        lemma_frequencies_sum(input.drop_last());
        lemma_frequencies_step(input);
        assert(counts(spec_frequencies(input)) =~= before.update(slot, before[slot] + 1));
        lemma_sum_update(before, slot, before[slot] + 1);
    }
}

/// Counts the byte values of `input`, each starting at one.
pub fn get_frequencies(input: &[u8]) -> (frequencies: [usize; 256])
    requires
        input.len() + 256 <= usize::MAX,
    ensures
        frequencies@ == spec_frequencies(input@),
        sum(counts(frequencies@)) == input.len() + 256,
{
    let mut frequencies: [usize; 256] = [1; 256];
    let mut i: usize = 0;
    proof {
        assert(frequencies@ =~= spec_frequencies(input@.take(0)));
    }
    while i < input.len()
        invariant
            i <= input.len(),
            input.len() + 256 <= usize::MAX,
            frequencies@ == spec_frequencies(input@.take(i as int)),
        decreases input.len() - i,
    {
        let slot: usize = input[i] as usize;
        let count: usize = frequencies[slot];
        proof {
            assert(input@.take(i + 1).drop_last() =~= input@.take(i as int));
            lemma_frequencies_step(input@.take(i + 1));
        }
        frequencies[slot] = count + 1;
        i += 1;
    }
    proof {
        assert(input@.take(input.len() as int) =~= input@);
        lemma_frequencies_sum(input@);
    }
    frequencies
}

/// Walks the tree below `node` and stores, for every byte value with a leaf
/// there, `prefix` followed by the path from `node` to that leaf.
pub fn gen_codes(node: &Node, prefix: Vec<u8>, codes: &mut Vec<Vec<u8>>)
    requires
        old(codes).len() == 256,
    ensures
        final(codes).len() == 256,
        forall|b: u8| #[trigger]
            final(codes)@[b as int]@ == if node.contains(b) {
                prefix@ + node.path_to(b)
            } else {
                old(codes)@[b as int]@
            },
    decreases node,
{
    match &node.node_type {
        NodeType::Internal(left, right) => {
            let mut left_prefix = prefix.clone();
            left_prefix.push(0);
            gen_codes(left, left_prefix, codes);
            let mut right_prefix = prefix;
            right_prefix.push(1);
            gen_codes(right, right_prefix, codes);
            proof {
                assert forall|b: u8| #[trigger]
                    codes@[b as int]@ == if node.contains(b) {
                        prefix@ + node.path_to(b)
                    } else {
                        old(codes)@[b as int]@
                    } by {
                    assert(prefix@.push(1) + right.path_to(b) =~= prefix@ + (seq![1u8]
                        + right.path_to(b)));
                    assert(prefix@.push(0) + left.path_to(b) =~= prefix@ + (seq![0u8]
                        + left.path_to(b)));
                }
            }
        },
        NodeType::Leaf(byte) => {
            proof {
                assert(prefix@ + Seq::<u8>::empty() =~= prefix@);
            }
            codes[*byte as usize] = prefix;
        },
    }
}

/// The code table of a table of counts.
pub fn get_code_map(frequencies: &[usize; 256]) -> (code_map: Vec<Vec<u8>>)
    requires
        sum(counts(frequencies@)) <= usize::MAX,
    ensures
        code_map.len() == 256,
        table_view(code_map@) == spec_code_map(spec_build_tree(frequencies@)),
{
    let mut code_map: Vec<Vec<u8>> = vec![Vec::new(); 256];
    let root = build_tree(frequencies);
    gen_codes(&root, Vec::new(), &mut code_map);
    proof {
        assert forall|i: int| 0 <= i < 256 implies table_view(code_map@)[i] == spec_code_map(
            root,
        )[i] by {
            let b = i as u8;
            assert(root.contains(b));
            assert(code_map@[b as int]@ == Seq::<u8>::empty() + root.path_to(b));
            assert(Seq::<u8>::empty() + root.path_to(b) =~= root.path_to(b));
        }
        assert(table_view(code_map@) =~= spec_code_map(root));
    }
    code_map
}

/// A path in a tree is made of zeros and ones.
pub proof fn lemma_path_bits(node: Node, b: u8)
    ensures
        is_bits(node.path_to(b)),
    decreases node,
{
    match node.node_type {
        NodeType::Leaf(_) => {},
        NodeType::Internal(l, r) => {
            lemma_path_bits(*l, b);
            lemma_path_bits(*r, b);
        },
    }
}

/// The table of counts as it is stored: 256 counts of eight bytes each,
/// lowest byte first.
pub open spec fn header(frequencies: Seq<usize>) -> Seq<u8> {
    Seq::new(2048, |i: int| spec_u64_to_le_bytes(frequencies[i / 8] as u64)[i % 8])
}

/// Appends the stored form of the table of counts to `out`.
pub fn write_frequencies(frequencies: &[usize; 256], out: &mut Vec<u8>)
    ensures
        final(out)@ == old(out)@ + header(frequencies@),
{
    let ghost start = out@;
    let mut i: usize = 0;
    while i < 256
        invariant
            i <= 256,
            out@ == start + header(frequencies@).take(8 * i),
        decreases 256 - i,
    {
        let mut bytes = u64_to_le_bytes(frequencies[i] as u64);
        let ghost before = out@;
        out.append(&mut bytes);
        proof {
            assert(out@ =~= start + header(frequencies@).take(8 * (i + 1)));
        }
        i += 1;
    }
    proof {
        assert(header(frequencies@).take(2048) =~= header(frequencies@));
    }
}

/// The codes of the bytes of `input`, one after the other.
pub open spec fn code_bits(codes: Seq<Seq<u8>>, input: Seq<u8>) -> Seq<u8>
    decreases input.len(),
{
    if input.len() == 0 {
        Seq::empty()
    } else {
        code_bits(codes, input.drop_last()) + codes[input.last() as int]
    }
}

/// Every code of the table is made of zeros and ones.
pub open spec fn table_is_bits(codes: Seq<Seq<u8>>) -> bool {
    forall|b: int| 0 <= b < codes.len() ==> is_bits(#[trigger] codes[b])
}

/// The codes of an input, one after the other, are made of zeros and ones.
pub proof fn lemma_code_bits_are_bits(codes: Seq<Seq<u8>>, input: Seq<u8>)
    requires
        codes.len() == 256,
        table_is_bits(codes),
    ensures
        is_bits(code_bits(codes, input)),
    decreases input.len(),
{
    if input.len() > 0 {
        lemma_code_bits_are_bits(codes, input.drop_last());
        assert(is_bits(codes[input.last() as int]));
    }
}

/// Collects bits into bytes, highest bit first.
struct BitWriter {
    bytes: Vec<u8>,
    acc: u8,
    nbits: u8,
    bits: Ghost<Seq<u8>>,
}

impl BitWriter {
    /// `bytes` holds the whole bytes of the bits taken so far, `acc` spells
    /// the `nbits` bits after the last byte boundary.
    spec fn wf(&self) -> bool {
        &&& is_bits(self.bits@)
        &&& self.nbits == self.bits@.len() % 8
        &&& self.bytes@ == pack_full(self.bits@)
        &&& self.acc == bits_value(tail(self.bits@))
    }

    fn new() -> (w: Self)
        ensures
            w.wf(),
            w.bits@ == Seq::<u8>::empty(),
    {
        let w = BitWriter { bytes: Vec::new(), acc: 0, nbits: 0, bits: Ghost(Seq::empty()) };
        proof {
            assert(w.bytes@ =~= pack_full(w.bits@));
        }
        w
    }

    fn push_bit(&mut self, bit: u8)
        requires
            old(self).wf(),
            bit <= 1,
        ensures
            final(self).wf(),
            final(self).bits@ == old(self).bits@.push(bit),
    {
        let ghost before = self.bits@;
        let ghost after = before.push(bit);
        proof {
            assert(is_bits(tail(before)));
            lemma_bits_value_bound(tail(before));
            assert(tail(before).len() == self.nbits);
            assert(after.subrange(after.len() - self.nbits - 1, after.len() as int).drop_last()
                =~= tail(before));
            assert(is_bits(after));
            lemma_pack_full_push(before, bit);
        }
        let value: u8 = self.acc * 2 + bit;
        self.bits = Ghost(after);
        if self.nbits == 7 {
            self.bytes.push(value);
            self.acc = 0;
            self.nbits = 0;
            proof {
                assert(tail(after) =~= Seq::<u8>::empty());
            }
        } else {
            self.acc = value;
            self.nbits = self.nbits + 1;
            proof {
                assert(tail(after) =~= after.subrange(
                    after.len() - old(self).nbits - 1,
                    after.len() as int,
                ));
            }
        }
    }

    /// Fills the last byte up with zeros and hands out the bytes and the
    /// closing byte.
    fn finish(self) -> (r: (Vec<u8>, u8))
        requires
            self.wf(),
        ensures
            r.0@ == pack(self.bits@),
            r.1 == trailer(self.bits@.len()),
    {
        let mut writer = self;
        let ghost start = writer.bits@;
        let pad: u8 = if writer.bytes.len() == 0 && writer.nbits == 0 {
            8
        } else {
            (8 - writer.nbits) % 8
        };
        let ghost mut k: nat = 0;
        proof {
            assert(start + Seq::new(0, |i: int| 0u8) =~= start);
        }
        while writer.nbits != 0
            invariant
                writer.wf(),
                writer.bits@ == start + Seq::new(k, |i: int| 0u8),
                k + pad_count(writer.nbits as nat) == pad_count(start.len()),
            decreases pad_count(writer.nbits as nat),
        {
            writer.push_bit(0);
            proof {
                assert(writer.bits@ =~= start + Seq::new(k + 1, |i: int| 0u8));
                k = k + 1;
            }
        }
        (writer.bytes, pad)
    }
}

/// Appends to `out` the packed codes of the bytes of `input`, then the
/// closing byte.
pub fn write_codes(input: &[u8], code_map: &Vec<Vec<u8>>, out: &mut Vec<u8>)
    requires
        code_map.len() == 256,
        table_is_bits(table_view(code_map@)),
    ensures
        final(out)@ == old(out)@ + pack(code_bits(table_view(code_map@), input@)) + seq![
            trailer(code_bits(table_view(code_map@), input@).len()),
        ],
{
    let ghost table = table_view(code_map@);
    let mut writer = BitWriter::new();
    let mut i: usize = 0;
    while i < input.len()
        invariant
            i <= input.len(),
            code_map.len() == 256,
            table == table_view(code_map@),
            table_is_bits(table),
            writer.wf(),
            writer.bits@ == code_bits(table, input@.take(i as int)),
        decreases input.len() - i,
    {
        let code = &code_map[input[i] as usize];
        let ghost done = writer.bits@;
        let mut j: usize = 0;
        proof {
            assert(code@ == table[input[i as int] as int]);
            assert(is_bits(code@));
            assert(done + code@.take(0) =~= done);
        }
        while j < code.len()
            invariant
                j <= code.len(),
                is_bits(code@),
                writer.wf(),
                writer.bits@ == done + code@.take(j as int),
            decreases code.len() - j,
        {
            writer.push_bit(code[j]);
            proof {
                assert(writer.bits@ =~= done + code@.take(j + 1));
            }
            j += 1;
        }
        proof {
            assert(code@.take(code.len() as int) =~= code@);
            assert(input@.take(i + 1).drop_last() =~= input@.take(i as int));
        }
        i += 1;
    }
    proof {
        assert(input@.take(input.len() as int) =~= input@);
    }
    let (mut packed, pad) = writer.finish();
    out.append(&mut packed);
    out.push(pad);
}

/// The compressed form of `input`: the table of counts, the packed codes of
/// its bytes in order, and the closing byte.
pub open spec fn encoded(input: Seq<u8>) -> Seq<u8> {
    let frequencies = spec_frequencies(input);
    let codes = spec_code_map(spec_build_tree(frequencies));
    let bits = code_bits(codes, input);
    header(frequencies) + pack(bits) + seq![trailer(bits.len())]
}

/// The code table of a tree is made of zeros and ones.
pub proof fn lemma_code_map_bits(root: Node)
    ensures
        table_is_bits(spec_code_map(root)),
{
    assert forall|b: int| 0 <= b < 256 implies is_bits(#[trigger] spec_code_map(root)[b]) by {
        lemma_path_bits(root, b as u8);
    }
}

/// Compresses `input`.
pub fn run(input: &[u8]) -> (out: Vec<u8>)
    requires
        input.len() + 256 <= usize::MAX,
    ensures
        out@ == encoded(input@),
        out.len() >= HEADER_LEN + 1,
{
    let frequencies = get_frequencies(input);
    let mut out: Vec<u8> = Vec::new();
    write_frequencies(&frequencies, &mut out);
    let code_map = get_code_map(&frequencies);
    proof {
        lemma_code_map_bits(spec_build_tree(frequencies@));
        assert(out@ =~= header(frequencies@));
    }
    write_codes(input, &code_map, &mut out);
    out
}

} // verus!
