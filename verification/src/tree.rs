//! The Huffman tree and its construction from a table of 256 counts.

use vstd::prelude::*;

verus! {

/// What a node holds: two owned children, or a byte value.
#[derive(Debug, PartialEq, Eq)]
pub enum NodeType {
    Internal(Box<Node>, Box<Node>),
    Leaf(u8),
}

/// A node of the tree together with its weight.
#[derive(Debug, PartialEq, Eq)]
pub struct Node {
    pub frequency: usize,
    pub node_type: NodeType,
}

impl Node {
    pub fn new(frequency: usize, node_type: NodeType) -> (node: Node)
        ensures
            node.frequency == frequency,
            node.node_type == node_type,
    {
        Node { frequency, node_type }
    }

    /// Every internal node weighs as much as its two children together.
    pub open spec fn wf(self) -> bool
        decreases self,
    {
        match self.node_type {
            NodeType::Leaf(_) => true,
            NodeType::Internal(l, r) => l.wf() && r.wf() && self.frequency == l.frequency
                + r.frequency,
        }
    }

    /// Some leaf below this node carries `b`.
    pub open spec fn contains(self, b: u8) -> bool
        decreases self,
    {
        match self.node_type {
            NodeType::Leaf(x) => x == b,
            NodeType::Internal(l, r) => l.contains(b) || r.contains(b),
        }
    }

    /// Number of leaves below this node.
    pub open spec fn leaf_count(self) -> nat
        decreases self,
    {
        match self.node_type {
            NodeType::Leaf(_) => 1,
            NodeType::Internal(l, r) => l.leaf_count() + r.leaf_count(),
        }
    }

    /// Number of leaves below this node that carry `b`.
    pub open spec fn occurs(self, b: u8) -> nat
        decreases self,
    {
        match self.node_type {
            NodeType::Leaf(x) => if x == b {
                1
            } else {
                0
            },
            NodeType::Internal(l, r) => l.occurs(b) + r.occurs(b),
        }
    }

    /// Number of internal nodes at and below this node.
    pub open spec fn internal_count(self) -> nat
        decreases self,
    {
        match self.node_type {
            NodeType::Leaf(_) => 0,
            NodeType::Internal(l, r) => 1 + l.internal_count() + r.internal_count(),
        }
    }

    /// The path from this node to the leaf that carries `b`: 0 for a step to
    /// the left, 1 for a step to the right. Where `b` sits under both
    /// children, the right one is taken.
    pub open spec fn path_to(self, b: u8) -> Seq<u8>
        decreases self,
    {
        match self.node_type {
            NodeType::Leaf(_) => Seq::empty(),
            NodeType::Internal(l, r) => if r.contains(b) {
                seq![1u8] + r.path_to(b)
            } else {
                seq![0u8] + l.path_to(b)
            },
        }
    }
}

/// Sum of a sequence of counts.
pub open spec fn sum(s: Seq<nat>) -> nat
    decreases s.len(),
{
    if s.len() == 0 {
        0
    } else {
        sum(s.drop_last()) + s.last()
    }
}

/// One more count at the end adds to the sum.
pub proof fn lemma_sum_push(s: Seq<nat>, x: nat)
    ensures
        sum(s.push(x)) == sum(s) + x,
{
    assert(s.push(x).drop_last() =~= s);
}

/// A count that leaves takes its value off the sum.
pub proof fn lemma_sum_remove(s: Seq<nat>, i: int)
    requires
        0 <= i < s.len(),
    ensures
        sum(s.remove(i)) + s[i] == sum(s),
    decreases s.len(),
{
    if i == s.len() - 1 {
        assert(s.remove(i) =~= s.drop_last());
    } else {
        lemma_sum_remove(s.drop_last(), i);
        assert(s.remove(i).drop_last() =~= s.drop_last().remove(i));
        assert(s.remove(i).last() == s.last());
    }
}

/// A count that changes moves the sum by the difference.
pub proof fn lemma_sum_update(s: Seq<nat>, i: int, x: nat)
    requires
        0 <= i < s.len(),
    ensures
        sum(s.update(i, x)) + s[i] == sum(s) + x,
    decreases s.len(),
{
    if i == s.len() - 1 {
        assert(s.update(i, x).drop_last() =~= s.drop_last());
    } else {
        lemma_sum_update(s.drop_last(), i, x);
        assert(s.update(i, x).drop_last() =~= s.drop_last().update(i, x));
    }
}

/// No count is more than the sum.
pub proof fn lemma_sum_bounds(s: Seq<nat>, i: int)
    requires
        0 <= i < s.len(),
    ensures
        s[i] <= sum(s),
{
    lemma_sum_remove(s, i);
}

/// A sequence of `n` ones sums to `n`.
pub proof fn lemma_sum_ones(n: nat)
    ensures
        sum(Seq::new(n, |i: int| 1nat)) == n,
    decreases n,
{
    if n > 0 {
        lemma_sum_ones((n - 1) as nat);
        assert(Seq::new(n, |i: int| 1nat).drop_last() =~= Seq::new((n - 1) as nat, |i: int| 1nat));
    }
}

/// A sequence of zeros sums to zero.
pub proof fn lemma_sum_zeros(n: nat)
    ensures
        sum(Seq::new(n, |i: int| 0nat)) == 0,
    decreases n,
{
    if n > 0 {
        lemma_sum_zeros((n - 1) as nat);
        assert(Seq::new(n, |i: int| 0nat).drop_last() =~= Seq::new((n - 1) as nat, |i: int| 0nat));
    }
}

/// A byte value has a leaf in a tree exactly if it occurs there at least once.
pub proof fn lemma_occurs_contains(node: Node, b: u8)
    ensures
        node.contains(b) <==> node.occurs(b) >= 1,
    decreases node,
{
    match node.node_type {
        NodeType::Leaf(_) => {},
        NodeType::Internal(l, r) => {
            lemma_occurs_contains(*l, b);
            lemma_occurs_contains(*r, b);
        },
    }
}

/// A tree has one leaf more than it has internal nodes.
pub proof fn lemma_leaf_count(node: Node)
    ensures
        node.leaf_count() == node.internal_count() + 1,
    decreases node,
{
    match node.node_type {
        NodeType::Leaf(_) => {},
        NodeType::Internal(l, r) => {
            lemma_leaf_count(*l);
            lemma_leaf_count(*r);
        },
    }
}

/// The counts of a table, as mathematical numbers.
pub open spec fn counts(frequencies: Seq<usize>) -> Seq<nat> {
    Seq::new(frequencies.len(), |i: int| frequencies[i] as nat)
}

/// The weights of a sequence of nodes.
pub open spec fn weights(s: Seq<Node>) -> Seq<nat> {
    Seq::new(s.len(), |i: int| s[i].frequency as nat)
}

/// The numbers of leaves of a sequence of nodes.
pub open spec fn leaf_counts(s: Seq<Node>) -> Seq<nat> {
    Seq::new(s.len(), |i: int| s[i].leaf_count())
}

/// How often `b` occurs in each node of the queue.
pub open spec fn occurs_in(s: Seq<Node>, b: u8) -> Seq<nat> {
    Seq::new(s.len(), |i: int| s[i].occurs(b))
}

/// Index of the lightest node; among equally light ones, the first.
pub open spec fn first_min(s: Seq<Node>) -> int
    decreases s.len(),
{
    if s.len() <= 1 {
        0
    } else {
        let m = first_min(s.drop_last());
        if s.last().frequency < s[m].frequency {
            s.len() - 1
        } else {
            m
        }
    }
}

/// The lightest node of a non-empty queue is one of its nodes.
pub proof fn lemma_first_min_in_range(s: Seq<Node>)
    requires
        s.len() >= 1,
    ensures
        0 <= first_min(s) < s.len(),
    decreases s.len(),
{
    if s.len() > 1 {
        lemma_first_min_in_range(s.drop_last());
    }
}

/// The node that joins `left` and `right`.
pub open spec fn join(left: Node, right: Node) -> Node {
    Node {
        frequency: (left.frequency + right.frequency) as usize,
        node_type: NodeType::Internal(Box::new(left), Box::new(right)),
    }
}

/// One round of the construction: the lightest node leaves the queue, then
/// the lightest of the rest; their join enters at the back.
pub open spec fn merge_step(s: Seq<Node>) -> Seq<Node> {
    let i = first_min(s);
    let rest = s.remove(i);
    let j = first_min(rest);
    rest.remove(j).push(join(s[i], rest[j]))
}

/// The node that is left when rounds are run until the queue holds one.
pub open spec fn merge_all(s: Seq<Node>) -> Node
    recommends
        s.len() >= 1,
    decreases s.len(),
{
    if s.len() <= 1 {
        s[0]
    } else {
        proof {
            lemma_first_min_in_range(s);
            lemma_first_min_in_range(s.remove(first_min(s)));
        }
        merge_all(merge_step(s))
    }
}

/// The initial queue: one leaf per table index, in index order.
pub open spec fn leaves(frequencies: Seq<usize>) -> Seq<Node> {
    Seq::new(
        frequencies.len(),
        |i: int| Node { frequency: frequencies[i], node_type: NodeType::Leaf(i as u8) },
    )
}

/// The tree of a table of counts.
pub open spec fn spec_build_tree(frequencies: Seq<usize>) -> Node {
    merge_all(leaves(frequencies))
}

/// Some node of the queue has a leaf that carries `b`.
pub open spec fn forest_contains(s: Seq<Node>, b: u8) -> bool {
    exists|k: int| 0 <= k < s.len() && (#[trigger] s[k]).contains(b)
}

/// All nodes of the queue are well formed.
pub open spec fn forest_wf(s: Seq<Node>) -> bool {
    forall|k: int| 0 <= k < s.len() ==> (#[trigger] s[k]).wf()
}

/// A round shortens the queue by one and keeps its well-formedness, its
/// total weight, its number of leaves and the byte values it holds; the two
/// weights that it adds are together no more than the total.
pub proof fn lemma_merge_step(s: Seq<Node>)
    requires
        s.len() >= 2,
        forest_wf(s),
        sum(weights(s)) <= usize::MAX,
    ensures
        merge_step(s).len() == s.len() - 1,
        forest_wf(merge_step(s)),
        sum(weights(merge_step(s))) == sum(weights(s)),
        sum(leaf_counts(merge_step(s))) == sum(leaf_counts(s)),
        forall|b: u8| forest_contains(s, b) ==> forest_contains(merge_step(s), b),
        merge_step(s).last().node_type is Internal,
        s[first_min(s)].frequency + s.remove(first_min(s))[first_min(
            s.remove(first_min(s)),
        )].frequency <= sum(weights(s)),
{
    let i = first_min(s);
    lemma_first_min_in_range(s);
    let rest = s.remove(i);
    let j = first_min(rest);
    lemma_first_min_in_range(rest);
    let joined = join(s[i], rest[j]);
    let out = merge_step(s);
    lemma_sum_remove(weights(s), i);
    assert(weights(rest) =~= weights(s).remove(i));
    lemma_sum_remove(weights(rest), j);
    lemma_sum_bounds(weights(rest), j);
    assert(weights(rest.remove(j)) =~= weights(rest).remove(j));
    lemma_sum_push(weights(rest.remove(j)), joined.frequency as nat);
    assert(weights(out) =~= weights(rest.remove(j)).push(joined.frequency as nat));
    lemma_sum_remove(leaf_counts(s), i);
    assert(leaf_counts(rest) =~= leaf_counts(s).remove(i));
    lemma_sum_remove(leaf_counts(rest), j);
    assert(leaf_counts(rest.remove(j)) =~= leaf_counts(rest).remove(j));
    lemma_sum_push(leaf_counts(rest.remove(j)), joined.leaf_count());
    assert(leaf_counts(out) =~= leaf_counts(rest.remove(j)).push(joined.leaf_count()));
    assert(s[i].wf());
    assert(rest[j].wf());
    assert(joined.wf());
    assert forall|k: int| 0 <= k < out.len() implies (#[trigger] out[k]).wf() by {
        if k < out.len() - 1 {
            let k1 = if k < j { k } else { k + 1 };
            let k0 = if k1 < i { k1 } else { k1 + 1 };
            assert(out[k] == s[k0]);
        }
    }
    assert forall|b: u8| forest_contains(s, b) implies forest_contains(out, b) by {
        let k0 = choose|k: int| 0 <= k < s.len() && (#[trigger] s[k]).contains(b);
        if k0 == i {
            assert(out[out.len() - 1].contains(b));
        } else {
            let k1 = if k0 < i { k0 } else { k0 - 1 };
            assert(rest[k1] == s[k0]);
            if k1 == j {
                assert(out[out.len() - 1].contains(b));
            } else {
                let k2 = if k1 < j { k1 } else { k1 - 1 };
                assert(out[k2] == rest[k1]);
                assert(out[k2].contains(b));
            }
        }
    }
}

/// A round keeps the number of leaves that carry `b`.
pub proof fn lemma_merge_step_occurs(s: Seq<Node>, b: u8)
    requires
        s.len() >= 2,
    ensures
        sum(occurs_in(merge_step(s), b)) == sum(occurs_in(s, b)),
{
    let i = first_min(s);
    lemma_first_min_in_range(s);
    let rest = s.remove(i);
    let j = first_min(rest);
    lemma_first_min_in_range(rest);
    let joined = join(s[i], rest[j]);
    let out = merge_step(s);
    lemma_sum_remove(occurs_in(s, b), i);
    assert(occurs_in(rest, b) =~= occurs_in(s, b).remove(i));
    lemma_sum_remove(occurs_in(rest, b), j);
    assert(occurs_in(rest.remove(j), b) =~= occurs_in(rest, b).remove(j));
    lemma_sum_push(occurs_in(rest.remove(j), b), joined.occurs(b));
    assert(occurs_in(out, b) =~= occurs_in(rest.remove(j), b).push(joined.occurs(b)));
}

/// The node that is left has as many leaves that carry `b` as the queue had.
pub proof fn lemma_merge_all_occurs(s: Seq<Node>, b: u8)
    requires
        s.len() >= 1,
    ensures
        merge_all(s).occurs(b) == sum(occurs_in(s, b)),
    decreases s.len(),
{
    if s.len() == 1 {
        assert(occurs_in(s, b).drop_last() =~= Seq::<nat>::empty());
        assert(sum(occurs_in(s, b)) == s[0].occurs(b)) by {
            reveal_with_fuel(sum, 2);
        }
    } else {
        lemma_first_min_in_range(s);
        lemma_first_min_in_range(s.remove(first_min(s)));
        lemma_merge_step_occurs(s, b);
        lemma_merge_all_occurs(merge_step(s), b);
    }
}

/// In the tree of a full table every byte value has exactly one leaf.
pub proof fn lemma_build_tree_occurs(frequencies: Seq<usize>, b: u8)
    requires
        frequencies.len() == 256,
    ensures
        spec_build_tree(frequencies).occurs(b) == 1,
{
    let s = leaves(frequencies);
    let zeros = Seq::new(256, |i: int| 0nat);
    lemma_sum_zeros(256);
    lemma_sum_update(zeros, b as int, 1);
    assert(occurs_in(s, b) =~= zeros.update(b as int, 1));
    lemma_merge_all_occurs(s, b);
}

/// The node that is left is well formed, weighs what the queue weighed, has
/// the leaves that the queue had, and is an internal node where the queue
/// held more than one node.
pub proof fn lemma_merge_all(s: Seq<Node>)
    requires
        s.len() >= 1,
        forest_wf(s),
        sum(weights(s)) <= usize::MAX,
    ensures
        merge_all(s).wf(),
        merge_all(s).frequency == sum(weights(s)),
        merge_all(s).leaf_count() == sum(leaf_counts(s)),
        forall|b: u8| forest_contains(s, b) ==> merge_all(s).contains(b),
        s.len() >= 2 ==> merge_all(s).node_type is Internal,
    decreases s.len(),
{
    if s.len() == 1 {
        assert(weights(s).drop_last() =~= Seq::<nat>::empty());
        assert(sum(weights(s)) == s[0].frequency) by {
            reveal_with_fuel(sum, 2);
        }
        assert(leaf_counts(s).drop_last() =~= Seq::<nat>::empty());
        assert(sum(leaf_counts(s)) == s[0].leaf_count()) by {
            reveal_with_fuel(sum, 2);
        }
        assert(s[0].wf());
    } else {
        lemma_merge_step(s);
        lemma_merge_all(merge_step(s));
    }
}

/// Index of the lightest node of a non-empty queue, the first among equals.
fn min_index(heap: &Vec<Node>) -> (best: usize)
    requires
        heap.len() >= 1,
    ensures
        best == first_min(heap@),
        best < heap.len(),
{
    let mut best: usize = 0;
    let mut i: usize = 1;
    while i < heap.len()
        invariant
            1 <= i <= heap.len(),
            best == first_min(heap@.take(i as int)),
            best < i,
        decreases heap.len() - i,
    {
        proof {
            assert(heap@.take(i + 1).drop_last() =~= heap@.take(i as int));
        }
        if heap[i].frequency < heap[best].frequency {
            best = i;
        }
        i += 1;
    }
    proof {
        assert(heap@.take(heap.len() as int) =~= heap@);
    }
    best
}

/// Builds the tree of a table of counts: the 256 leaves queue up in index
/// order; the two lightest nodes are joined, first taken to the left, until
/// one node is left.
pub fn build_tree(frequencies: &[usize; 256]) -> (root: Node)
    requires
        sum(counts(frequencies@)) <= usize::MAX,
    ensures
        root == spec_build_tree(frequencies@),
        root.wf(),
        root.frequency == sum(counts(frequencies@)),
        root.node_type is Internal,
        root.leaf_count() == 256,
        root.internal_count() == 255,
        forall|b: u8| root.contains(b),
        forall|b: u8| root.occurs(b) == 1,
{
    let mut heap: Vec<Node> = Vec::with_capacity(256);
    let mut i: usize = 0;
    while i < 256
        invariant
            i <= 256,
            heap@ =~= leaves(frequencies@).take(i as int),
        decreases 256 - i,
    {
        heap.push(Node::new(frequencies[i], NodeType::Leaf(i as u8)));
        i += 1;
    }
    proof {
        lemma_leaves(frequencies@);
        assert(heap@ =~= leaves(frequencies@));
    }
    while heap.len() > 1
        invariant
            heap.len() >= 1,
            forest_wf(heap@),
            sum(weights(heap@)) <= usize::MAX,
            merge_all(heap@) == spec_build_tree(frequencies@),
        decreases heap.len(),
    {
        let ghost before = heap@;
        proof {
            lemma_merge_step(before);
        }
        let i: usize = min_index(&heap);
        let left = heap.remove(i);
        let j: usize = min_index(&heap);
        let right = heap.remove(j);
        let frequency: usize = left.frequency + right.frequency;
        heap.push(Node::new(frequency, NodeType::Internal(Box::new(left), Box::new(right))));
        proof {
            assert(heap@ =~= merge_step(before));
        }
    }
    proof {
        lemma_build_tree(frequencies@);
        assert forall|b: u8| spec_build_tree(frequencies@).occurs(b) == 1 by {
            lemma_build_tree_occurs(frequencies@, b);
        }
    }
    heap.remove(0)
}

/// The initial queue of a full table is well formed, weighs what the table
/// sums to, and holds every byte value.
pub proof fn lemma_leaves(frequencies: Seq<usize>)
    requires
        frequencies.len() == 256,
    ensures
        leaves(frequencies).len() == 256,
        forest_wf(leaves(frequencies)),
        weights(leaves(frequencies)) == counts(frequencies),
        sum(leaf_counts(leaves(frequencies))) == 256,
        forall|b: u8| forest_contains(leaves(frequencies), b),
{
    let s = leaves(frequencies);
    assert(weights(s) =~= counts(frequencies));
    lemma_sum_ones(256);
    assert(leaf_counts(s) =~= Seq::new(256, |i: int| 1nat));
    assert forall|b: u8| forest_contains(s, b) by {
        assert(s[b as int].contains(b));
    }
}

/// What the tree of a full table is like, when the counts sum to a machine
/// number: it is well formed, its root is an internal node that weighs the sum
/// of the counts, it has 256 leaves and 255 internal nodes, and every byte
/// value has a leaf.
pub proof fn lemma_build_tree(frequencies: Seq<usize>)
    requires
        frequencies.len() == 256,
        sum(counts(frequencies)) <= usize::MAX,
    ensures
        spec_build_tree(frequencies).wf(),
        spec_build_tree(frequencies).frequency == sum(counts(frequencies)),
        spec_build_tree(frequencies).node_type is Internal,
        spec_build_tree(frequencies).leaf_count() == 256,
        spec_build_tree(frequencies).internal_count() == 255,
        forall|b: u8| spec_build_tree(frequencies).contains(b),
{
    lemma_leaf_count(spec_build_tree(frequencies));
    lemma_leaves(frequencies);
    lemma_merge_all(leaves(frequencies));
    assert forall|b: u8| spec_build_tree(frequencies).contains(b) by {
        assert(forest_contains(leaves(frequencies), b));
    }
}

} // verus!
