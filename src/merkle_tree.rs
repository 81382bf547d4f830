//! The tree over a record list: building, proofs of inclusion, and merging.
use crate::allocation::canonical_fields;
use crate::allocation::copy_allocations;
use crate::allocation::felt_values;
use crate::allocation::records_of;
use crate::allocation::Allocation;
use crate::allocation::FieldValues;
use crate::allocation::MerkleError;
use crate::allocation::RecordView;
use crate::felt::prefixed_hex;
use crate::felt::FieldElement;
use crate::model::build_outcome;
use crate::model::calldata;
use crate::model::depth;
use crate::model::first_error;
use crate::model::leaves;
use crate::model::lemma_first_error_prefix;
use crate::model::next_level;
use crate::model::pad_even;
use crate::model::proof_values;
use crate::model::reduce;
use crate::model::sibling_path;
use crate::model::NodeView;
use crate::node::Node;
use vstd::prelude::*;

verus! {

/// The shapes of a list of nodes.
pub open spec fn models(v: Seq<Node>) -> Seq<NodeView> {
    v.map_values(|n: Node| n.model())
}

/// The contents of a list of strings.
pub open spec fn strings_of(v: Seq<String>) -> Seq<Seq<char>> {
    v.map_values(|s: String| s@)
}

/// The values of a list of field elements.
pub open spec fn felt_list_values(v: Seq<FieldElement>) -> Seq<nat> {
    v.map_values(|f: FieldElement| f.value())
}

/// A sequence in reverse order.
pub open spec fn reversed(s: Seq<nat>) -> Seq<nat> {
    Seq::new(s.len(), |i: int| s[s.len() - 1 - i])
}

/// A tree built over a non-empty record list, which it keeps in input order.
pub struct MerkleTree {
    root: Node,
    allocations: Vec<Allocation>,
}

impl MerkleTree {
    /// The records the tree was built over, in input order.
    pub closed spec fn records(&self) -> Seq<RecordView> {
        records_of(self.allocations@)
    }

    /// The shape of the tree.
    pub closed spec fn root_view(&self) -> NodeView {
        self.root.model()
    }

    #[verifier::type_invariant]
    spec fn built(&self) -> bool {
        build_outcome(self.records()) == Ok::<NodeView, MerkleError>(self.root_view())
    }

    /// Builds the tree over a record list: one leaf per record in order, the last leaf repeated
    /// when their number is odd, then levels paired until one node is left. Fails on an empty
    /// list, and on the first record whose address or timestamp does not parse.
    pub fn new(allocations: Vec<Allocation>) -> (r: Result<MerkleTree, MerkleError>)
        ensures
            match r {
                Ok(t) => t.records() == records_of(allocations@) && build_outcome(
                    records_of(allocations@),
                ) == Ok::<NodeView, MerkleError>(t.root_view()),
                Err(e) => build_outcome(records_of(allocations@)) == Err::<NodeView, MerkleError>(e),
            },
    {
        let ghost recs = records_of(allocations@);
        if allocations.len() == 0 {
            return Err(MerkleError::NoAllocations);
        }
        let mut nodes: Vec<Node> = Vec::new();
        let mut i: usize = 0;
        assert(recs.subrange(0, 0) =~= Seq::<RecordView>::empty());
        assert(models(nodes@) =~= leaves(recs.subrange(0, 0)));
        while i < allocations.len()
            invariant
                i <= allocations.len(),
                recs == records_of(allocations@),
                models(nodes@) == leaves(recs.subrange(0, i as int)),
                first_error(recs.subrange(0, i as int)) is None,
            decreases allocations.len() - i,
        {
            let ghost prefix = recs.subrange(0, i as int);
            let ghost longer = recs.subrange(0, i + 1);
            proof {
                assert(longer.drop_last() =~= prefix);
                assert(longer.last() == allocations@[i as int]@);
            }
            let leaf = match Node::new_leaf(allocations[i].duplicate()) {
                Ok(n) => n,
                Err(e) => {
                    proof {
                        lemma_first_error_prefix(recs, i + 1);
                    }
                    return Err(e);
                },
            };
            let ghost before = nodes@;
            nodes.push(leaf);
            proof {
                assert(models(nodes@) =~= models(before).push(NodeView::Leaf(longer.last())));
                assert(leaves(longer) =~= leaves(prefix).push(NodeView::Leaf(longer.last())));
            }
            i += 1;
        }
        assert(recs.subrange(0, i as int) =~= recs);
        if nodes.len() % 2 == 1 {
            let last = nodes[nodes.len() - 1].duplicate();
            let ghost before = nodes@;
            nodes.push(last);
            assert(models(nodes@) =~= pad_even(leaves(recs)));
        } else {
            assert(models(nodes@) =~= pad_even(leaves(recs)));
        }
        let root = build_tree(nodes);
        Ok(MerkleTree { root, allocations })
    }

    /// The records the tree was built over, in input order.
    pub fn get_allocations(&self) -> (r: &Vec<Allocation>)
        ensures
            records_of(r@) == self.records(),
    {
        &self.allocations
    }

    /// The root node.
    pub fn root(&self) -> (r: &Node)
        ensures
            r.model() == self.root_view(),
    {
        &self.root
    }

    /// The proof of inclusion for one record: its four canonical values, then the hashes of the
    /// siblings on its path from the leaf up, all as `0x`-prefixed lowercase hexadecimal. Fails
    /// when the address or timestamp does not parse, or when the record is not in the tree.
    pub fn build_address_calldata(&self, address: &str, amount: u64, timestamp: &str, id: u64) -> (r:
        Result<Vec<String>, MerkleError>)
        ensures
            match r {
                Ok(v) => calldata(self.root_view(), (address@, amount, timestamp@, id)) == Ok::<
                    Seq<Seq<char>>,
                    MerkleError,
                >(strings_of(v@)),
                Err(e) => calldata(self.root_view(), (address@, amount, timestamp@, id)) == Err::<
                    Seq<Seq<char>>,
                    MerkleError,
                >(e),
            },
    {
        let allocation = Allocation {
            address: address.to_owned(),
            amount,
            timestamp: timestamp.to_owned(),
            id,
        };
        let ghost rec = allocation@;
        let ghost root = self.root.model();
        let felts = match allocation.to_felts() {
            Ok(f) => f,
            Err(e) => return Err(e),
        };
        let mut hashes: Vec<FieldElement> = Vec::new();
        let mut current: &Node = &self.root;
        loop
            invariant
                rec == allocation@,
                rec == (address@, amount, timestamp@, id),
                root == self.root.model(),
                canonical_fields(rec) == Ok::<FieldValues, MerkleError>(felt_values(felts)),
                match sibling_path(current.model(), rec) {
                    Some(p) => sibling_path(root, rec) == Some(
                        p + reversed(felt_list_values(hashes@)),
                    ),
                    None => sibling_path(root, rec) is None,
                },
            ensures
                current.model() is Leaf,
                sibling_path(root, rec) == Some(reversed(felt_list_values(hashes@))),
            decreases depth(current.model()),
        {
            match current.children() {
                None => {
                    assert(Seq::<nat>::empty() + reversed(felt_list_values(hashes@)) =~= reversed(
                        felt_list_values(hashes@),
                    ));
                    break ;
                },
                Some((l, r)) => {
                    let ghost old_hashes = hashes@;
                    let ghost before = felt_list_values(hashes@);
                    if l.contains(&allocation) {
                        let v = r.value();
                        hashes.push(v);
                        proof {
                            assert(hashes@.drop_last() =~= old_hashes);
                            lemma_push_reversed(hashes@, before, v);
                        }
                        current = l;
                    } else if r.contains(&allocation) {
                        let v = l.value();
                        hashes.push(v);
                        proof {
                            assert(hashes@.drop_last() =~= old_hashes);
                            lemma_push_reversed(hashes@, before, v);
                        }
                        current = r;
                    } else {
                        return Err(MerkleError::AllocationNotFound);
                    }
                },
            }
        }
        let ghost f: FieldValues = (
            felts.0.value(),
            felts.1.value(),
            felts.2.value(),
            felts.3.value(),
        );
        let ghost sibs = reversed(felt_list_values(hashes@));
        let ghost target = proof_values(f, sibs).map_values(|n: nat| prefixed_hex(n));
        let mut out: Vec<String> = Vec::new();
        out.push(felts.0.to_hex());
        out.push(felts.1.to_hex());
        out.push(felts.2.to_hex());
        out.push(felts.3.to_hex());
        let mut j: usize = hashes.len();
        assert(strings_of(out@) =~= target.subrange(0, 4));
        while j > 0
            invariant
                j <= hashes.len(),
                sibs == reversed(felt_list_values(hashes@)),
                target == proof_values(f, sibs).map_values(|n: nat| prefixed_hex(n)),
                strings_of(out@) == target.subrange(0, 4 + hashes.len() - j),
            decreases j,
        {
            j -= 1;
            let s = hashes[j].to_hex();
            let ghost before = out@;
            out.push(s);
            proof {
                let k = 4 + hashes.len() - j - 1;
                assert(target[k] == prefixed_hex(hashes@[j as int].value()));
                assert(strings_of(out@) =~= strings_of(before).push(s@));
                assert(strings_of(out@) =~= target.subrange(0, 4 + hashes.len() - j));
            }
        }
        assert(target.subrange(0, 4 + hashes.len() as int) =~= target);
        Ok(out)
    }

    /// A new tree over this tree's records followed by the new ones; this tree is left as it is.
    pub fn merge_merkle_trees(&self, new_allocations: Vec<Allocation>) -> (r: Result<
        MerkleTree,
        MerkleError,
    >)
        ensures
            match r {
                Ok(t) => {
                    &&& t.records() == self.records() + records_of(new_allocations@)
                    &&& t.records().len() == self.records().len() + new_allocations@.len()
                    &&& build_outcome(self.records() + records_of(new_allocations@)) == Ok::<
                        NodeView,
                        MerkleError,
                    >(t.root_view())
                },
                Err(e) => build_outcome(self.records() + records_of(new_allocations@)) == Err::<
                    NodeView,
                    MerkleError,
                >(e),
            },
    {
        let mut combined = copy_allocations(&self.allocations);
        let mut extra = new_allocations;
        let ghost head = combined@;
        let ghost tail = extra@;
        combined.append(&mut extra);
        assert(records_of(combined@) =~= records_of(head) + records_of(tail));
        MerkleTree::new(combined)
    }
}

/// Pushing a sibling hash onto the top-down list moves it to the front of the bottom-up path.
proof fn lemma_push_reversed(now: Seq<FieldElement>, before: Seq<nat>, v: FieldElement)
    requires
        felt_list_values(now.drop_last()) == before,
        now.len() > 0,
        now.last() == v,
    ensures
        forall|p: Seq<nat>|
            #![trigger p.push(v.value())]
            p.push(v.value()) + reversed(before) == p + reversed(felt_list_values(now)),
{
    assert(felt_list_values(now) =~= before.push(v.value()));
    assert forall|p: Seq<nat>| #![trigger p.push(v.value())]
        p.push(v.value()) + reversed(before) == p + reversed(felt_list_values(now)) by {
        assert(p.push(v.value()) + reversed(before) =~= p + reversed(felt_list_values(now)));
    }
}

/// The root over a level of nodes: consecutive pairs are combined, an unpaired last node with a
/// copy of itself, until one node is left.
fn build_tree(leaves: Vec<Node>) -> (r: Node)
    requires
        leaves.len() > 0,
    ensures
        r.model() == reduce(models(leaves@)),
{
    let mut nodes = leaves;
    while nodes.len() > 1
        invariant
            nodes.len() > 0,
            reduce(models(nodes@)) == reduce(models(leaves@)),
        decreases nodes.len(),
    {
        let ghost level = models(nodes@);
        let ghost n = nodes.len() as int;
        let mut next: Vec<Node> = Vec::new();
        assert(models(nodes@) =~= level.subrange(0, n));
        while nodes.len() > 0
            invariant
                n == level.len(),
                2 * next.len() <= n + 1,
                nodes.len() > 0 ==> 2 * next.len() < n && models(nodes@) == level.subrange(
                    2 * next.len(),
                    n,
                ),
                nodes.len() == 0 ==> 2 * next.len() >= n,
                models(next@) == next_level(level).subrange(0, next.len() as int),
            decreases nodes.len(),
        {
            let ghost k = next.len() as int;
            let ghost before = next@;
            let ghost old_nodes = nodes@;
            assert(models(old_nodes) == level.subrange(2 * k, n));
            let a = nodes.remove(0);
            proof {
                assert(models(old_nodes)[0] == level[2 * k]);
                assert(nodes@ =~= old_nodes.subrange(1, old_nodes.len() as int));
                assert forall|i: int| 0 <= i < nodes@.len() implies #[trigger] models(nodes@)[i]
                    == level.subrange(2 * k + 1, n)[i] by {
                    assert(nodes@[i] == old_nodes[i + 1]);
                    assert(models(old_nodes)[i + 1] == level.subrange(2 * k, n)[i + 1]);
                }
                assert(models(nodes@) =~= level.subrange(2 * k + 1, n));
            }
            let parent = if nodes.len() > 0 {
                let ghost mid_nodes = nodes@;
                let b = nodes.remove(0);
                proof {
                    assert(models(mid_nodes)[0] == level[2 * k + 1]);
                    assert(nodes@ =~= mid_nodes.subrange(1, mid_nodes.len() as int));
                    assert forall|i: int| 0 <= i < nodes@.len() implies #[trigger] models(nodes@)[i]
                        == level.subrange(2 * k + 2, n)[i] by {
                        assert(models(mid_nodes)[i + 1] == level.subrange(2 * k + 1, n)[i + 1]);
                    }
                    if nodes.len() > 0 {
                        assert(models(nodes@) =~= level.subrange(2 * k + 2, n));
                    }
                }
                Node::new(a, b)
            } else {
                let b = a.duplicate();
                Node::new(a, b)
            };
            next.push(parent);
            proof {
                assert(models(next@) =~= models(before).push(parent.model()));
                assert(models(next@) =~= next_level(level).subrange(0, k + 1));
            }
        }
        nodes = next;
        assert(models(nodes@) =~= next_level(level));
    }
    nodes.remove(0)
}

} // verus!
