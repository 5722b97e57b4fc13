//! Decompression: the stored counts, the tree, and the walk along the bits.

use crate::bits::{bit_of, unpack};
use crate::compress::HEADER_LEN;
use crate::tree::{build_tree, counts, lemma_sum_bounds, spec_build_tree, sum, Node, NodeType};
use vstd::bytes::{spec_u64_from_le_bytes, u64_from_le_bytes};
use vstd::prelude::*;
use vstd::slice::slice_subrange;

verus! {

/// Why a byte sequence is not the compressed form of anything.
#[derive(Debug, Clone, Copy, PartialEq, Eq, Structural)]
pub enum DecodeError {
    /// Shorter than the table of counts and the closing byte.
    Truncated,
    /// The stored counts do not sum to a machine number.
    CountOverflow,
    /// The closing byte is not below eight.
    BadPadding,
    /// The bits end in the middle of a code.
    UnmatchedBits,
}

/// The 256 counts at the start of `input`.
pub open spec fn stored_counts(input: Seq<u8>) -> Seq<nat> {
    Seq::new(256, |i: int| spec_u64_from_le_bytes(input.subrange(8 * i, 8 * i + 8)) as nat)
}

/// The stored counts as a table.
pub open spec fn stored_frequencies(input: Seq<u8>) -> Seq<usize> {
    Seq::new(256, |i: int| stored_counts(input)[i] as usize)
}

/// Reads the table of counts from the start of `input`.
pub fn read_frequencies(input: &[u8]) -> (result: Result<[usize; 256], DecodeError>)
    requires
        input.len() >= HEADER_LEN,
    ensures
        match result {
            Ok(frequencies) => sum(stored_counts(input@)) <= usize::MAX && frequencies@
                == stored_frequencies(input@) && counts(frequencies@) == stored_counts(input@),
            Err(e) => sum(stored_counts(input@)) > usize::MAX && e == DecodeError::CountOverflow,
        },
{
    let ghost stored = stored_counts(input@);
    let mut frequencies: [usize; 256] = [0; 256];
    let mut total: u128 = 0;
    let mut i: usize = 0;
    proof {
        assert(stored.take(0) =~= Seq::<nat>::empty());
    }
    while i < 256
        invariant
            i <= 256,
            input.len() >= 2048,
            stored == stored_counts(input@),
            total == sum(stored.take(i as int)),
            total <= i * 0xffff_ffff_ffff_ffff,
            forall|k: int| 0 <= k < i ==> frequencies@[k] == #[trigger] stored[k],
        decreases 256 - i,
    {
        let value: u64 = u64_from_le_bytes(slice_subrange(input, 8 * i, 8 * i + 8));
        proof {
            assert(stored.take(i + 1).drop_last() =~= stored.take(i as int));
            assert(value == stored[i as int]);
        }
        if value > usize::MAX as u64 {
            proof {
                lemma_sum_bounds(stored, i as int);
            }
            return Err(DecodeError::CountOverflow);
        }
        frequencies[i] = value as usize;
        total = total + value as u128;
        i += 1;
    }
    proof {
        assert(stored.take(256) =~= stored);
    }
    if total > usize::MAX as u128 {
        return Err(DecodeError::CountOverflow);
    }
    proof {
        assert(frequencies@ =~= stored_frequencies(input@));
        assert(counts(frequencies@) =~= stored);
    }
    Ok(frequencies)
}

/// `front` put before a result, where there is one.
pub open spec fn prefix_with(front: Seq<u8>, r: Option<Seq<u8>>) -> Option<Seq<u8>> {
    match r {
        Some(s) => Some(front + s),
        None => None,
    }
}

/// The bytes that a run of bits spells when it is read from the root: each
/// code ends at a leaf and gives that leaf's byte. None where the run ends
/// in the middle of a code.
pub open spec fn decode_bits(root: Node, bits: Seq<u8>) -> Option<Seq<u8>>
    decreases bits.len(), 1int,
{
    if bits.len() == 0 {
        Some(Seq::empty())
    } else {
        descend(root, root, bits)
    }
}

/// The same, read from a node `cur` in the middle of a code. A zero bit goes
/// to the left child, any other to the right one.
pub open spec fn descend(root: Node, cur: Node, bits: Seq<u8>) -> Option<Seq<u8>>
    decreases bits.len(), 0int,
{
    if bits.len() == 0 {
        None
    } else {
        match cur.node_type {
            NodeType::Leaf(_) => None,
            NodeType::Internal(l, r) => {
                let next = if bits[0] == 0 {
                    *l
                } else {
                    *r
                };
                match next.node_type {
                    NodeType::Leaf(b) => prefix_with(seq![b], decode_bits(root, bits.skip(1))),
                    NodeType::Internal(_, _) => descend(root, next, bits.skip(1)),
                }
            },
        }
    }
}

/// What is still to come from `rest`: read afresh from the root, or from
/// `cur` in the middle of a code.
pub open spec fn resume(root: Node, cur: Node, fresh: bool, rest: Seq<u8>) -> Option<Seq<u8>> {
    if fresh {
        decode_bits(root, rest)
    } else {
        descend(root, cur, rest)
    }
}

/// Follows one bit down the tree. At a leaf its byte goes to `out` and the
/// walk starts again at the root.
fn step<'a>(
    root: &'a Node,
    cur: &'a Node,
    fresh: bool,
    bit: u8,
    out: &mut Vec<u8>,
    Ghost(rest): Ghost<Seq<u8>>,
) -> (next: (&'a Node, bool))
    requires
        root.node_type is Internal,
        cur.node_type is Internal,
        fresh ==> *cur == *root,
        rest.len() > 0,
        rest[0] == bit,
    ensures
        next.0.node_type is Internal,
        next.1 ==> *next.0 == *root,
        prefix_with(old(out)@, resume(*root, *cur, fresh, rest)) == prefix_with(
            final(out)@,
            resume(*root, *next.0, next.1, rest.skip(1)),
        ),
{
    match &cur.node_type {
        NodeType::Internal(left, right) => {
            let child: &Node = if bit == 0 {
                left
            } else {
                right
            };
            match &child.node_type {
                NodeType::Leaf(byte) => {
                    proof {
                        let tail = decode_bits(*root, rest.skip(1));
                        if tail is Some {
                            assert(old(out)@ + (seq![*byte] + tail->0) =~= old(out)@.push(*byte)
                                + tail->0);
                        }
                    }
                    out.push(*byte);
                    (root, true)
                },
                NodeType::Internal(_, _) => (child, false),
            }
        },
        NodeType::Leaf(_) => (root, true),
    }
}

/// The bits between the table of counts and the closing byte, without the
/// low bits of the last byte that the closing byte counts.
pub open spec fn payload_bits(input: Seq<u8>) -> Seq<u8> {
    unpack(input.subrange(2048, input.len() - 1)).take(
        8 * (input.len() - 2049) - input.last() as int,
    )
}

/// What a byte sequence decompresses to.
pub open spec fn decoded(input: Seq<u8>) -> Result<Seq<u8>, DecodeError> {
    if input.len() < 2049 {
        Err(DecodeError::Truncated)
    } else if sum(stored_counts(input)) > usize::MAX {
        Err(DecodeError::CountOverflow)
    } else if input.len() == 2049 {
        Ok(Seq::empty())
    } else if input.last() >= 8 {
        Err(DecodeError::BadPadding)
    } else {
        match decode_bits(spec_build_tree(stored_frequencies(input)), payload_bits(input)) {
            Some(out) => Ok(out),
            None => Err(DecodeError::UnmatchedBits),
        }
    }
}

/// How many payload bits lie before byte `k` of the payload.
pub open spec fn bits_before(k: int, total: int) -> int {
    if 8 * k < total {
        8 * k
    } else {
        total
    }
}

/// Decompresses `input`.
pub fn run(input: &[u8]) -> (result: Result<Vec<u8>, DecodeError>)
    ensures
        match result {
            Ok(out) => decoded(input@) == Ok::<Seq<u8>, DecodeError>(out@),
            Err(e) => decoded(input@) == Err::<Seq<u8>, DecodeError>(e),
        },
{
    if input.len() < HEADER_LEN + 1 {
        return Err(DecodeError::Truncated);
    }
    let frequencies = match read_frequencies(input) {
        Ok(frequencies) => frequencies,
        Err(e) => {
            return Err(e);
        },
    };
    let root = build_tree(&frequencies);
    let mut out: Vec<u8> = Vec::new();
    if input.len() == HEADER_LEN + 1 {
        return Ok(out);
    }
    let end: usize = input.len() - 1;
    let padding: u8 = input[end];
    if padding >= 8 {
        return Err(DecodeError::BadPadding);
    }
    let ghost all = payload_bits(input@);
    let ghost data = input@.subrange(2048, end as int);
    let mut cur: &Node = &root;
    let mut fresh: bool = true;
    let mut k: usize = HEADER_LEN;
    proof {
        assert(input@.last() == padding);
        assert(all.skip(0) =~= all);
    }
    while k < end
        invariant
            2048 <= k <= end,
            end == input.len() - 1,
            end > 2048,
            padding < 8,
            all == payload_bits(input@),
            all.len() == 8 * (end - 2048) - padding,
            data == input@.subrange(2048, end as int),
            input@.last() == padding,
            root.node_type is Internal,
            cur.node_type is Internal,
            fresh ==> *cur == root,
            decode_bits(root, all) == prefix_with(
                out@,
                resume(root, *cur, fresh, all.skip(bits_before(k - 2048, all.len() as int))),
            ),
        decreases end - k,
    {
        let byte: u8 = input[k];
        let limit: u8 = if k == end - 1 {
            8 - padding
        } else {
            8
        };
        let mut j: u8 = 0;
        let ghost base = 8 * (k - 2048);
        while j < limit
            invariant
                j <= limit <= 8,
                2048 <= k < end,
                base == 8 * (k - 2048),
                base + limit <= all.len(),
                padding < 8,
                end > 2048,
                input@.last() == padding,
                all.len() == 8 * (end - 2048) - padding,
                byte == input@[k as int],
                all == payload_bits(input@),
                data == input@.subrange(2048, end as int),
                end == input.len() - 1,
                root.node_type is Internal,
                cur.node_type is Internal,
                fresh ==> *cur == root,
                decode_bits(root, all) == prefix_with(
                    out@,
                    resume(root, *cur, fresh, all.skip(base + j)),
                ),
            decreases limit - j,
        {
            let bit: u8 = bit_of(byte, j);
            let ghost rest = all.skip(base + j);
            proof {
                assert(rest[0] == all[base + j]);
                assert(all[base + j] == unpack(data)[base + j]);
                assert((base + j) / 8 == k - 2048 && (base + j) % 8 == j);
                assert(data[k - 2048] == byte);
                assert(rest.skip(1) =~= all.skip(base + j + 1));
            }
            let next = step(&root, cur, fresh, bit, &mut out, Ghost(rest));
            cur = next.0;
            fresh = next.1;
            j += 1;
        }
        k += 1;
    }
    proof {
        assert(all.skip(all.len() as int) =~= Seq::<u8>::empty());
    }
    if fresh {
        Ok(out)
    } else {
        Err(DecodeError::UnmatchedBits)
    }
}

} // verus!
