//! What holds of compression and decompression together.

use crate::bits::{
    is_bits, lemma_unpack_bits, lemma_unpack_pack, pack, pad_count, trailer, unpack,
};
use crate::compress::{
    code_bits, encoded, header, lemma_code_bits_are_bits, lemma_code_map_bits,
    lemma_frequencies_sum, spec_code_map, spec_frequencies,
};
use crate::decompress::{
    decode_bits, decoded, descend, payload_bits, prefix_with, stored_counts, stored_frequencies,
    DecodeError,
};
use crate::tree::{
    counts, lemma_build_tree, lemma_build_tree_occurs, lemma_occurs_contains, lemma_sum_bounds,
    spec_build_tree, sum, Node, NodeType,
};
use vstd::bytes::{
    lemma_auto_spec_u64_to_from_le_bytes, spec_u64_from_le_bytes, spec_u64_to_le_bytes,
};
use vstd::prelude::*;

verus! {

/// Below an internal node every path has at least one step.
pub proof fn lemma_path_nonempty(node: Node, b: u8)
    requires
        node.node_type is Internal,
    ensures
        node.path_to(b).len() >= 1,
{
}

/// The codes of two different byte values that both have a leaf: neither is
/// the beginning of the other.
pub proof fn lemma_paths_prefix_free(node: Node, a: u8, b: u8)
    requires
        node.contains(a),
        node.contains(b),
        a != b,
    ensures
        !node.path_to(a).is_prefix_of(node.path_to(b)),
    decreases node,
{
    match node.node_type {
        NodeType::Leaf(_) => {},
        NodeType::Internal(l, r) => {
            let pa = node.path_to(a);
            let pb = node.path_to(b);
            if r.contains(a) == r.contains(b) {
                let child = if r.contains(a) {
                    *r
                } else {
                    *l
                };
                lemma_paths_prefix_free(child, a, b);
                let ca = child.path_to(a);
                let cb = child.path_to(b);
                if pa.is_prefix_of(pb) {
                    assert forall|i: int| 0 <= i < ca.len() implies ca[i] == cb[i] by {
                        assert(ca[i] == pa[i + 1]);
                        assert(pa[i + 1] == pb.subrange(0, pa.len() as int)[i + 1]);
                        assert(cb[i] == pb[i + 1]);
                    }
                    assert(ca =~= cb.subrange(0, ca.len() as int));
                }
            } else {
                if pa.is_prefix_of(pb) {
                    assert(pa[0] == pb.subrange(0, pa.len() as int)[0]);
                }
            }
        },
    }
}

/// No code of the table of a full table of counts is the beginning of the
/// code of another byte value.
pub proof fn lemma_codes_prefix_free(frequencies: Seq<usize>, a: u8, b: u8)
    requires
        frequencies.len() == 256,
        sum(counts(frequencies)) <= usize::MAX,
        a != b,
    ensures
        !spec_code_map(spec_build_tree(frequencies))[a as int].is_prefix_of(
            spec_code_map(spec_build_tree(frequencies))[b as int],
        ),
{
    lemma_build_tree(frequencies);
    let root = spec_build_tree(frequencies);
    assert(root.contains(a) && root.contains(b));
    lemma_paths_prefix_free(root, a, b);
}

/// Different byte values have different codes.
pub proof fn lemma_codes_distinct(frequencies: Seq<usize>, a: u8, b: u8)
    requires
        frequencies.len() == 256,
        sum(counts(frequencies)) <= usize::MAX,
        a != b,
    ensures
        spec_code_map(spec_build_tree(frequencies))[a as int] != spec_code_map(
            spec_build_tree(frequencies),
        )[b as int],
{
    lemma_codes_prefix_free(frequencies, a, b);
    let code = spec_code_map(spec_build_tree(frequencies))[a as int];
    assert(code =~= code.subrange(0, code.len() as int));
}

/// Every code holds at least one bit and at most 255.
pub proof fn lemma_code_lengths(frequencies: Seq<usize>, b: u8)
    requires
        frequencies.len() == 256,
        sum(counts(frequencies)) <= usize::MAX,
    ensures
        1 <= spec_code_map(spec_build_tree(frequencies))[b as int].len() <= 255,
{
    lemma_build_tree(frequencies);
    let root = spec_build_tree(frequencies);
    lemma_path_nonempty(root, b);
    lemma_path_bound(root, b);
}

/// A path has at most as many steps as the tree has internal nodes.
pub proof fn lemma_path_bound(node: Node, b: u8)
    ensures
        node.path_to(b).len() <= node.internal_count(),
    decreases node,
{
    match node.node_type {
        NodeType::Leaf(_) => {},
        NodeType::Internal(l, r) => {
            lemma_path_bound(*l, b);
            lemma_path_bound(*r, b);
        },
    }
}

/// Reading the code of `b` from `cur`, with more bits behind it, gives `b`
/// and then what the bits behind it spell.
pub proof fn lemma_descend_path(root: Node, cur: Node, b: u8, rest: Seq<u8>)
    requires
        cur.node_type is Internal,
        cur.contains(b),
    ensures
        descend(root, cur, cur.path_to(b) + rest) == prefix_with(
            seq![b],
            decode_bits(root, rest),
        ),
    decreases cur,
{
    let bits = cur.path_to(b) + rest;
    match cur.node_type {
        NodeType::Leaf(_) => {},
        NodeType::Internal(l, r) => {
            let child = if r.contains(b) {
                *r
            } else {
                *l
            };
            assert(bits[0] == if r.contains(b) {
                1u8
            } else {
                0u8
            });
            assert(bits.skip(1) =~= child.path_to(b) + rest);
            assert(child.contains(b));
            match child.node_type {
                NodeType::Leaf(x) => {
                    assert(x == b);
                    assert(child.path_to(b) + rest =~= rest);
                    assert(descend(root, cur, bits) == prefix_with(
                        seq![b],
                        decode_bits(root, rest),
                    ));
                },
                NodeType::Internal(_, _) => {
                    lemma_descend_path(root, child, b, rest);
                    assert(descend(root, cur, bits) == descend(root, child, bits.skip(1)));
                },
            }
        },
    }
}

/// The codes of a sequence of bytes start with the code of the first.
pub proof fn lemma_code_bits_front(codes: Seq<Seq<u8>>, input: Seq<u8>)
    requires
        input.len() > 0,
    ensures
        code_bits(codes, input) == codes[input[0] as int] + code_bits(codes, input.skip(1)),
    decreases input.len(),
{
    if input.len() == 1 {
        assert(input.drop_last() =~= Seq::<u8>::empty());
        assert(input.skip(1) =~= Seq::<u8>::empty());
        assert(code_bits(codes, input) =~= codes[input[0] as int] + code_bits(
            codes,
            input.skip(1),
        ));
    } else {
        lemma_code_bits_front(codes, input.drop_last());
        assert(input.skip(1).drop_last() =~= input.drop_last().skip(1));
        assert(code_bits(codes, input) =~= codes[input[0] as int] + code_bits(
            codes,
            input.skip(1),
        ));
    }
}

/// Where the root is an internal node and every byte value has a leaf, the
/// codes of a sequence of bytes spell that sequence.
pub proof fn lemma_decode_codes(root: Node, input: Seq<u8>)
    requires
        root.node_type is Internal,
        forall|b: u8| root.contains(b),
    ensures
        decode_bits(root, code_bits(spec_code_map(root), input)) == Some(input),
        input.len() > 0 ==> code_bits(spec_code_map(root), input).len() > 0,
    decreases input.len(),
{
    let codes = spec_code_map(root);
    if input.len() == 0 {
        assert(input =~= Seq::<u8>::empty());
    } else {
        let b = input[0];
        let rest = code_bits(codes, input.skip(1));
        lemma_code_bits_front(codes, input);
        lemma_decode_codes(root, input.skip(1));
        assert(root.contains(b));
        lemma_path_nonempty(root, b);
        lemma_descend_path(root, root, b, rest);
        assert(seq![b] + input.skip(1) =~= input);
    }
}

/// Where no byte value has two leaves below `cur`, bits that spell something
/// when read from `cur` are the path to the first byte they spell, followed
/// by the codes of the others.
pub proof fn lemma_descend_sound(root: Node, cur: Node, bits: Seq<u8>)
    requires
        root.node_type is Internal,
        forall|b: u8| root.occurs(b) <= 1,
        forall|b: u8| cur.occurs(b) <= 1,
        is_bits(bits),
        descend(root, cur, bits) is Some,
    ensures
        descend(root, cur, bits)->0.len() >= 1,
        cur.contains(descend(root, cur, bits)->0[0]),
        bits == cur.path_to(descend(root, cur, bits)->0[0]) + code_bits(
            spec_code_map(root),
            descend(root, cur, bits)->0.skip(1),
        ),
    decreases bits.len(), 0int,
{
    let out = descend(root, cur, bits)->0;
    let codes = spec_code_map(root);
    match cur.node_type {
        NodeType::Leaf(_) => {},
        NodeType::Internal(l, r) => {
            let child = if bits[0] == 0 {
                *l
            } else {
                *r
            };
            assert(bits[0] <= 1);
            assert(is_bits(bits.skip(1)));
            assert forall|b: u8| child.occurs(b) <= 1 by {
                assert(cur.occurs(b) <= 1);
            }
            match child.node_type {
                NodeType::Leaf(x) => {
                    let rest = decode_bits(root, bits.skip(1))->0;
                    lemma_decode_sound(root, bits.skip(1));
                    assert(out =~= seq![x] + rest);
                    assert(out.skip(1) =~= rest);
                    assert(cur.occurs(x) <= 1);
                    assert(child.occurs(x) == 1);
                    assert(child.path_to(x) =~= Seq::<u8>::empty());
                    lemma_occurs_contains(*r, x);
                    lemma_occurs_contains(*l, x);
                    assert(cur.path_to(x) =~= seq![bits[0]]);
                    assert(bits =~= seq![bits[0]] + bits.skip(1));
                },
                NodeType::Internal(_, _) => {
                    lemma_descend_sound(root, child, bits.skip(1));
                    let x = out[0];
                    assert(cur.occurs(x) <= 1);
                    lemma_occurs_contains(*r, x);
                    lemma_occurs_contains(*l, x);
                    assert(cur.path_to(x) =~= seq![bits[0]] + child.path_to(x));
                    assert(bits =~= seq![bits[0]] + bits.skip(1));
                    assert(bits =~= cur.path_to(x) + code_bits(codes, out.skip(1)));
                },
            }
        },
    }
}

/// Where no byte value has two leaves, bits that spell a sequence of bytes
/// are the codes of those bytes, one after the other.
pub proof fn lemma_decode_sound(root: Node, bits: Seq<u8>)
    requires
        root.node_type is Internal,
        forall|b: u8| root.occurs(b) <= 1,
        is_bits(bits),
        decode_bits(root, bits) is Some,
    ensures
        bits == code_bits(spec_code_map(root), decode_bits(root, bits)->0),
    decreases bits.len(), 1int,
{
    let out = decode_bits(root, bits)->0;
    if bits.len() == 0 {
        assert(bits =~= code_bits(spec_code_map(root), out));
    } else {
        lemma_descend_sound(root, root, bits);
        lemma_code_bits_front(spec_code_map(root), out);
    }
}

/// With the tree of a full table of counts, a run of bits spells `out`
/// exactly if it is the codes of the bytes of `out`, one after the other.
pub proof fn lemma_decode_exact(frequencies: Seq<usize>, bits: Seq<u8>, out: Seq<u8>)
    requires
        frequencies.len() == 256,
        sum(counts(frequencies)) <= usize::MAX,
        is_bits(bits),
    ensures
        decode_bits(spec_build_tree(frequencies), bits) == Some(out) <==> bits == code_bits(
            spec_code_map(spec_build_tree(frequencies)),
            out,
        ),
{
    let root = spec_build_tree(frequencies);
    lemma_build_tree(frequencies);
    assert forall|b: u8| root.occurs(b) <= 1 by {
        lemma_build_tree_occurs(frequencies, b);
    }
    if decode_bits(root, bits) == Some(out) {
        lemma_decode_sound(root, bits);
    }
    if bits == code_bits(spec_code_map(root), out) {
        lemma_decode_codes(root, out);
    }
}

/// A byte sequence that holds data behind a table of counts whose sum is a
/// machine number, and ends in a closing byte below eight, decompresses to
/// `out` exactly if its payload bits are the codes of the bytes of `out`.
pub proof fn lemma_decoded_exact(input: Seq<u8>, out: Seq<u8>)
    requires
        input.len() > 2049,
        sum(stored_counts(input)) <= usize::MAX,
        input.last() < 8,
    ensures
        decoded(input) == Ok::<Seq<u8>, DecodeError>(out) <==> payload_bits(input) == code_bits(
            spec_code_map(spec_build_tree(stored_frequencies(input))),
            out,
        ),
{
    let frequencies = stored_frequencies(input);
    assert forall|i: int| 0 <= i < 256 implies stored_counts(input)[i] <= usize::MAX by {
        lemma_sum_bounds(stored_counts(input), i);
    }
    assert(counts(frequencies) =~= stored_counts(input));
    lemma_unpack_bits(input.subrange(2048, input.len() - 1));
    lemma_decode_exact(frequencies, payload_bits(input), out);
}

/// The compressed form is at least 2049 bytes long: the table of counts and
/// the closing byte.
pub proof fn lemma_encoded_len(input: Seq<u8>)
    ensures
        encoded(input).len() >= 2049,
        input.len() == 0 ==> encoded(input).len() == 2049,
{
    if input.len() == 0 {
        let bits = code_bits(spec_code_map(spec_build_tree(spec_frequencies(input))), input);
        assert(bits.len() == 0);
        assert(is_bits(bits));
        lemma_unpack_pack(bits);
    }
}

/// Equal inputs have the same compressed form, byte for byte.
pub proof fn lemma_encoded_deterministic(a: Seq<u8>, b: Seq<u8>)
    requires
        a =~= b,
    ensures
        encoded(a) == encoded(b),
{
}

/// The table of counts is read back as it was stored.
pub proof fn lemma_header_round_trip(frequencies: Seq<usize>, behind: Seq<u8>)
    requires
        frequencies.len() == 256,
    ensures
        stored_counts(header(frequencies) + behind) == counts(frequencies),
        stored_frequencies(header(frequencies) + behind) == frequencies,
{
    lemma_auto_spec_u64_to_from_le_bytes();
    let e = header(frequencies) + behind;
    assert forall|i: int| 0 <= i < 256 implies stored_counts(e)[i] == counts(frequencies)[i] by {
        let x = frequencies[i] as u64;
        assert(spec_u64_to_le_bytes(x).len() == 8);
        assert forall|j: int| 0 <= j < 8 implies e.subrange(8 * i, 8 * i + 8)[j]
            == spec_u64_to_le_bytes(x)[j] by {
            assert(e[8 * i + j] == header(frequencies)[8 * i + j]);
            assert((8 * i + j) / 8 == i && (8 * i + j) % 8 == j);
        }
        assert(e.subrange(8 * i, 8 * i + 8) =~= spec_u64_to_le_bytes(x));
        assert(spec_u64_from_le_bytes(spec_u64_to_le_bytes(x)) == x);
    }
    assert(stored_counts(e) =~= counts(frequencies));
    assert(stored_frequencies(e) =~= frequencies);
}

/// Decompressing the compressed form of any input gives that input back.
pub proof fn lemma_round_trip(input: Seq<u8>)
    requires
        input.len() + 256 <= usize::MAX,
    ensures
        decoded(encoded(input)) == Ok::<Seq<u8>, DecodeError>(input),
{
    let frequencies = spec_frequencies(input);
    let root = spec_build_tree(frequencies);
    let codes = spec_code_map(root);
    let bits = code_bits(codes, input);
    let behind = pack(bits) + seq![trailer(bits.len())];
    let e = encoded(input);
    assert(e =~= header(frequencies) + behind);
    lemma_frequencies_sum(input);
    lemma_header_round_trip(frequencies, behind);
    lemma_build_tree(frequencies);
    lemma_code_map_bits(root);
    lemma_code_bits_are_bits(codes, input);
    lemma_unpack_pack(bits);
    lemma_decode_codes(root, input);
    if input.len() == 0 {
        assert(input =~= Seq::<u8>::empty());
        assert(e.len() == 2049);
    } else {
        assert(bits.len() > 0);
        assert(pack(bits).len() >= 1);
        assert(e.last() == trailer(bits.len()));
        assert(e.last() == pad_count(bits.len()));
        assert(e.subrange(2048, e.len() - 1) =~= pack(bits));
        assert(8 * (e.len() - 2049) - e.last() == bits.len());
        assert(payload_bits(e) == unpack(pack(bits)).take(bits.len() as int));
    }
}

} // verus!
