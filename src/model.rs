//! The mathematical model of a tree: its shape over records, the hash of every node, how a
//! tree is built from a record list, and the sibling path that a proof carries.
use crate::allocation::canonical_fields;
use crate::allocation::leaf_hash;
use crate::allocation::record_hash;
use crate::allocation::FieldValues;
use crate::allocation::MerkleError;
use crate::allocation::RecordView;
use crate::felt::pedersen_of;
use crate::felt::prefixed_hex;
use vstd::prelude::*;

verus! {

/// A tree over records: a leaf holds one record, a branch two subtrees.
pub enum NodeView {
    Leaf(RecordView),
    Branch(Box<NodeView>, Box<NodeView>),
}

/// The hash of a node: the leaf hash of its record, or the Pedersen hash of its children.
pub open spec fn node_value(v: NodeView) -> nat
    decreases v,
{
    match v {
        NodeView::Leaf(r) => record_hash(r),
        NodeView::Branch(l, r) => pedersen_of(node_value(*l), node_value(*r)),
    }
}

/// The number of levels beneath a node.
pub open spec fn depth(v: NodeView) -> nat
    decreases v,
{
    match v {
        NodeView::Leaf(_) => 0,
        NodeView::Branch(l, r) => {
            let dl = depth(*l);
            let dr = depth(*r);
            if dl < dr {
                dr + 1
            } else {
                dl + 1
            }
        },
    }
}

/// The records reachable beneath a node.
pub open spec fn accessible(v: NodeView) -> Set<RecordView>
    decreases v,
{
    match v {
        NodeView::Leaf(r) => set![r],
        NodeView::Branch(l, r) => accessible(*l).union(accessible(*r)),
    }
}

/// The parent of two nodes: the child with the smaller hash goes left.
pub open spec fn combine_view(a: NodeView, b: NodeView) -> NodeView {
    if node_value(a) < node_value(b) {
        NodeView::Branch(Box::new(a), Box::new(b))
    } else {
        NodeView::Branch(Box::new(b), Box::new(a))
    }
}

/// One leaf per record, in order.
pub open spec fn leaves(records: Seq<RecordView>) -> Seq<NodeView> {
    records.map_values(|r: RecordView| NodeView::Leaf(r))
}

/// An odd list gets a copy of its last node.
pub open spec fn pad_even(nodes: Seq<NodeView>) -> Seq<NodeView> {
    if nodes.len() % 2 == 1 {
        nodes.push(nodes.last())
    } else {
        nodes
    }
}

/// The `i`-th parent of a level: nodes `2i` and `2i + 1`, or node `2i` with itself when it is
/// the last and unpaired.
pub open spec fn pair_at(nodes: Seq<NodeView>, i: int) -> NodeView {
    if 2 * i + 1 < nodes.len() {
        combine_view(nodes[2 * i], nodes[2 * i + 1])
    } else {
        combine_view(nodes[2 * i], nodes[2 * i])
    }
}

/// The level above: consecutive pairs replaced by their parents.
pub open spec fn next_level(nodes: Seq<NodeView>) -> Seq<NodeView> {
    Seq::new(((nodes.len() + 1) / 2) as nat, |i: int| pair_at(nodes, i))
}

/// The root over a level: levels are paired until one node is left.
pub open spec fn reduce(nodes: Seq<NodeView>) -> NodeView
    decreases nodes.len(),
{
    if nodes.len() <= 1 {
        nodes[0]
    } else {
        reduce(next_level(nodes))
    }
}

/// The tree built over a record list.
pub open spec fn tree_view(records: Seq<RecordView>) -> NodeView {
    reduce(pad_even(leaves(records)))
}

/// The error of the first record, in order, whose fields do not parse.
pub open spec fn first_error(records: Seq<RecordView>) -> Option<MerkleError>
    decreases records.len(),
{
    if records.len() == 0 {
        None
    } else {
        match first_error(records.drop_last()) {
            Some(e) => Some(e),
            None => match canonical_fields(records.last()) {
                Ok(_) => None,
                Err(e) => Some(e),
            },
        }
    }
}

/// What building over a record list gives: the tree, or the reason there is none.
pub open spec fn build_outcome(records: Seq<RecordView>) -> Result<NodeView, MerkleError> {
    if records.len() == 0 {
        Err(MerkleError::NoAllocations)
    } else {
        match first_error(records) {
            Some(e) => Err(e),
            None => Ok(tree_view(records)),
        }
    }
}

/// The hashes of the siblings met on the way from the root down to `rec`, listed from the leaf
/// up. The way down follows the left child when it holds `rec`, else the right child.
pub open spec fn sibling_path(v: NodeView, rec: RecordView) -> Option<Seq<nat>>
    decreases v,
{
    match v {
        NodeView::Leaf(_) => Some(Seq::empty()),
        NodeView::Branch(l, r) => {
            if accessible(*l).contains(rec) {
                match sibling_path(*l, rec) {
                    Some(p) => Some(p.push(node_value(*r))),
                    None => None,
                }
            } else if accessible(*r).contains(rec) {
                match sibling_path(*r, rec) {
                    Some(p) => Some(p.push(node_value(*l))),
                    None => None,
                }
            } else {
                None
            }
        },
    }
}

/// The order-independent pairing of two hashes.
pub open spec fn hash_pair(x: nat, y: nat) -> nat {
    if x < y {
        pedersen_of(x, y)
    } else {
        pedersen_of(y, x)
    }
}

/// A leaf hash folded with each sibling in turn.
pub open spec fn fold_path(leaf: nat, siblings: Seq<nat>) -> nat
    decreases siblings.len(),
{
    if siblings.len() == 0 {
        leaf
    } else {
        hash_pair(fold_path(leaf, siblings.drop_last()), siblings.last())
    }
}

/// The values that a proof lists: the four canonical fields, then the siblings from the leaf up.
pub open spec fn proof_values(f: FieldValues, siblings: Seq<nat>) -> Seq<nat> {
    seq![f.0, f.1, f.2, f.3] + siblings
}

/// The proof for `rec` in the tree `root`, every value as `0x`-prefixed lowercase hexadecimal.
pub open spec fn calldata(root: NodeView, rec: RecordView) -> Result<Seq<Seq<char>>, MerkleError> {
    match canonical_fields(rec) {
        Err(e) => Err(e),
        Ok(f) => match sibling_path(root, rec) {
            None => Err(MerkleError::AllocationNotFound),
            Some(p) => Ok(proof_values(f, p).map_values(|n: nat| prefixed_hex(n))),
        },
    }
}

/// Every branch has the smaller hash on its left.
pub open spec fn ordered(v: NodeView) -> bool
    decreases v,
{
    match v {
        NodeView::Leaf(_) => true,
        NodeView::Branch(l, r) => node_value(*l) <= node_value(*r) && ordered(*l) && ordered(*r),
    }
}

/// The records reachable beneath any node of a level.
pub open spec fn level_records(nodes: Seq<NodeView>) -> Set<RecordView> {
    Set::new(|x: RecordView| exists|i: int| 0 <= i < nodes.len() && #[trigger] accessible(nodes[i]).contains(x))
}

proof fn lemma_combine_ordered(a: NodeView, b: NodeView)
    requires
        ordered(a),
        ordered(b),
    ensures
        ordered(combine_view(a, b)),
        combine_view(a, b) is Branch,
        accessible(combine_view(a, b)) == accessible(a).union(accessible(b)),
{
    assert(accessible(b).union(accessible(a)) =~= accessible(a).union(accessible(b)));
}

proof fn lemma_next_level(nodes: Seq<NodeView>)
    requires
        nodes.len() > 0,
        forall|i: int| 0 <= i < nodes.len() ==> ordered(#[trigger] nodes[i]),
    ensures
        next_level(nodes).len() > 0,
        forall|i: int| 0 <= i < next_level(nodes).len() ==> ordered(#[trigger] next_level(nodes)[i]),
        forall|i: int| 0 <= i < next_level(nodes).len() ==> #[trigger] next_level(nodes)[i] is Branch,
        level_records(next_level(nodes)) == level_records(nodes),
{
    let up = next_level(nodes);
    assert forall|i: int| 0 <= i < up.len() implies ordered(#[trigger] up[i]) && up[i] is Branch
        && accessible(up[i]) == accessible(nodes[2 * i]).union(
        accessible(if 2 * i + 1 < nodes.len() { nodes[2 * i + 1] } else { nodes[2 * i] }),
    ) by {
        if 2 * i + 1 < nodes.len() {
            lemma_combine_ordered(nodes[2 * i], nodes[2 * i + 1]);
        } else {
            lemma_combine_ordered(nodes[2 * i], nodes[2 * i]);
        }
    }
    assert forall|x: RecordView| level_records(nodes).contains(x) implies level_records(up).contains(x) by {
        let j = choose|j: int| 0 <= j < nodes.len() && #[trigger] accessible(nodes[j]).contains(x);
        let i = j / 2;
        assert(accessible(up[i]).contains(x));
    }
    assert forall|x: RecordView| level_records(up).contains(x) implies level_records(nodes).contains(x) by {
        let i = choose|i: int| 0 <= i < up.len() && #[trigger] accessible(up[i]).contains(x);
        if accessible(nodes[2 * i]).contains(x) {
        } else if 2 * i + 1 < nodes.len() {
            assert(accessible(nodes[2 * i + 1]).contains(x));
        }
    }
    assert(level_records(up) =~= level_records(nodes));
}

proof fn lemma_reduce(nodes: Seq<NodeView>)
    requires
        nodes.len() > 0,
        forall|i: int| 0 <= i < nodes.len() ==> ordered(#[trigger] nodes[i]),
    ensures
        ordered(reduce(nodes)),
        accessible(reduce(nodes)) == level_records(nodes),
        nodes.len() > 1 ==> reduce(nodes) is Branch,
    decreases nodes.len(),
{
    if nodes.len() <= 1 {
        assert(level_records(nodes) =~= accessible(nodes[0])) by {
            assert forall|x: RecordView| accessible(nodes[0]).contains(x) implies level_records(nodes).contains(x) by {
                assert(accessible(nodes[0]).contains(x));
            }
        }
    } else {
        lemma_next_level(nodes);
        let up = next_level(nodes);
        lemma_reduce(up);
        if up.len() == 1 {
            assert(up[0] is Branch);
        }
    }
}

/// A built tree is ordered and reaches exactly the records it was built over.
proof fn lemma_tree_view(records: Seq<RecordView>)
    requires
        records.len() > 0,
    ensures
        ordered(tree_view(records)),
        accessible(tree_view(records)) == records.to_set(),
        tree_view(records) is Branch,
{
    let ls = leaves(records);
    let padded = pad_even(ls);
    assert(padded.len() > 1);
    assert forall|i: int| 0 <= i < padded.len() implies ordered(#[trigger] padded[i]) by {}
    lemma_reduce(padded);
    assert forall|x: RecordView| level_records(padded).contains(x) implies records.contains(x) by {
        let i = choose|i: int| 0 <= i < padded.len() && #[trigger] accessible(padded[i]).contains(x);
        if i < ls.len() {
            assert(records[i] == x);
        } else {
            assert(records[records.len() - 1] == x);
        }
    }
    assert forall|x: RecordView| records.contains(x) implies level_records(padded).contains(x) by {
        let i = choose|i: int| 0 <= i < records.len() && records[i] == x;
        assert(accessible(padded[i]).contains(x));
    }
    assert(level_records(padded) =~= records.to_set());
}

/// In an ordered tree, the path to a reachable record folds back to the tree's hash.
proof fn lemma_path_folds(v: NodeView, rec: RecordView)
    requires
        ordered(v),
        accessible(v).contains(rec),
    ensures
        sibling_path(v, rec) is Some,
        fold_path(record_hash(rec), sibling_path(v, rec)->0) == node_value(v),
    decreases v,
{
    match v {
        NodeView::Leaf(r) => {
            assert(r == rec);
        },
        NodeView::Branch(l, r) => {
            if accessible(*l).contains(rec) {
                lemma_path_folds(*l, rec);
                let p = sibling_path(*l, rec)->0;
                assert(p.push(node_value(*r)).drop_last() =~= p);
            } else {
                lemma_path_folds(*r, rec);
                let p = sibling_path(*r, rec)->0;
                assert(p.push(node_value(*l)).drop_last() =~= p);
            }
        },
    }
}

/// A record list without an error has every record parse.
pub proof fn lemma_first_error_none(records: Seq<RecordView>, i: int)
    requires
        first_error(records) is None,
        0 <= i < records.len(),
    ensures
        canonical_fields(records[i]) is Ok,
    decreases records.len(),
{
    if i < records.len() - 1 {
        lemma_first_error_none(records.drop_last(), i);
    }
}

/// An error among the first `k` records is the error of the whole list.
pub proof fn lemma_first_error_prefix(records: Seq<RecordView>, k: int)
    requires
        0 <= k <= records.len(),
        first_error(records.subrange(0, k)) is Some,
    ensures
        first_error(records) == first_error(records.subrange(0, k)),
    decreases records.len() - k,
{
    if k < records.len() {
        let longer = records.subrange(0, k + 1);
        assert(longer.drop_last() =~= records.subrange(0, k));
        lemma_first_error_prefix(records, k + 1);
    } else {
        assert(records.subrange(0, k) =~= records);
    }
}

/// Building is a function of the record list: the same list gives the same tree, hence the
/// same root hash and the same proof for every query.
pub proof fn lemma_build_deterministic(a: Seq<RecordView>, b: Seq<RecordView>, rec: RecordView)
    requires
        a == b,
    ensures
        build_outcome(a) == build_outcome(b),
        node_value(tree_view(a)) == node_value(tree_view(b)),
        calldata(tree_view(a), rec) == calldata(tree_view(b), rec),
{
}

/// Combining is commutative in its inputs: the parent's hash and reachable records do not
/// depend on which node comes first.
pub proof fn lemma_combine_commutative(a: NodeView, b: NodeView)
    ensures
        node_value(combine_view(a, b)) == node_value(combine_view(b, a)),
        accessible(combine_view(a, b)) == accessible(combine_view(b, a)),
{
    assert(accessible(a).union(accessible(b)) =~= accessible(b).union(accessible(a)));
}

/// An odd record list builds the same tree as the list with its last record repeated.
pub proof fn lemma_odd_padding(records: Seq<RecordView>)
    requires
        records.len() % 2 == 1,
    ensures
        tree_view(records) == tree_view(records.push(records.last())),
        build_outcome(records) == build_outcome(records.push(records.last())),
{
    let longer = records.push(records.last());
    assert(pad_even(leaves(records)) =~= pad_even(leaves(longer)));
    assert(longer.drop_last() =~= records);
    if first_error(records) is None {
        lemma_first_error_none(records, records.len() - 1);
    }
}

/// Every record of a built tree has a proof, and folding its leaf hash with the siblings of
/// the proof gives the root hash.
pub proof fn lemma_round_trip(records: Seq<RecordView>, rec: RecordView)
    requires
        build_outcome(records) is Ok,
        records.contains(rec),
    ensures
        canonical_fields(rec) is Ok,
        sibling_path(tree_view(records), rec) is Some,
        fold_path(leaf_hash(canonical_fields(rec)->Ok_0), sibling_path(tree_view(records), rec)->0)
            == node_value(tree_view(records)),
        calldata(tree_view(records), rec) == Ok::<Seq<Seq<char>>, MerkleError>(
            proof_values(canonical_fields(rec)->Ok_0, sibling_path(tree_view(records), rec)->0)
                .map_values(|n: nat| prefixed_hex(n)),
        ),
{
    let i = choose|i: int| 0 <= i < records.len() && records[i] == rec;
    lemma_first_error_none(records, i);
    lemma_tree_view(records);
    lemma_path_folds(tree_view(records), rec);
}

/// A record that parses but is not in a built tree has no proof: asking for one fails with
/// `AllocationNotFound`.
pub proof fn lemma_absent_not_found(records: Seq<RecordView>, rec: RecordView)
    requires
        build_outcome(records) is Ok,
        canonical_fields(rec) is Ok,
        !records.contains(rec),
    ensures
        sibling_path(tree_view(records), rec) is None,
        calldata(tree_view(records), rec) == Err::<Seq<Seq<char>>, MerkleError>(
            MerkleError::AllocationNotFound,
        ),
{
    lemma_tree_view(records);
    let v = tree_view(records);
    assert(!accessible(v).contains(rec));
}

} // verus!
