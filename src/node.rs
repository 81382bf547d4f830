//! Tree nodes: leaves over one record and parents over two children.
use crate::allocation::canonical_fields;
use crate::allocation::records_of;
use crate::allocation::Allocation;
use crate::allocation::MerkleError;
use crate::allocation::RecordView;
use crate::felt::pedersen;
use crate::felt::FieldElement;
use crate::model::accessible;
use crate::model::combine_view;
use crate::model::node_value;
use crate::model::NodeView;
use vstd::prelude::*;

verus! {

/// A node of the tree. A leaf has no children and reaches one record; a parent owns two
/// children, the one with the smaller hash on the left, and reaches the records of both.
#[derive(Debug)]
pub struct Node {
    left_child: Option<Box<Node>>,
    right_child: Option<Box<Node>>,
    accessible_allocations: Vec<Allocation>,
    value: FieldElement,
}

impl Node {
    /// The shape of the tree beneath this node.
    pub closed spec fn model(&self) -> NodeView
        decreases self,
    {
        match self.left_child {
            Some(l) => match self.right_child {
                Some(r) => NodeView::Branch(Box::new(l.model()), Box::new(r.model())),
                None => NodeView::Leaf(self.accessible_allocations@[0]@),
            },
            None => NodeView::Leaf(self.accessible_allocations@[0]@),
        }
    }

    /// Both children or none; the stored hash is the hash of the shape; the stored records are
    /// the reachable ones, each once.
    pub closed spec fn wf(&self) -> bool
        decreases self,
    {
        &&& self.value.value() == node_value(self.model())
        &&& records_of(self.accessible_allocations@).no_duplicates()
        &&& records_of(self.accessible_allocations@).to_set() == accessible(self.model())
        &&& match self.left_child {
            Some(l) => match self.right_child {
                Some(r) => l.wf() && r.wf(),
                None => false,
            },
            None => self.right_child is None && self.accessible_allocations@.len() == 1,
        }
    }

    #[verifier::type_invariant]
    spec fn well_formed(&self) -> bool {
        self.wf()
    }

    /// Creates a leaf over one allocation; fails when its address or timestamp does not parse.
    pub fn new_leaf(allocation: Allocation) -> (r: Result<Node, MerkleError>)
        ensures
            match r {
                Ok(n) => canonical_fields(allocation@) is Ok && n.model() == NodeView::Leaf(
                    allocation@,
                ),
                Err(e) => canonical_fields(allocation@) == Err::<
                    (nat, nat, nat, nat),
                    MerkleError,
                >(e),
            },
    {
        let (address, amount, timestamp, id) = match allocation.to_felts() {
            Ok(f) => f,
            Err(e) => return Err(e),
        };
        let h = pedersen(&address, &amount);
        let h = pedersen(&h, &timestamp);
        let value = pedersen(&h, &id);
        let ghost rec = allocation@;
        let mut accessible_allocations: Vec<Allocation> = Vec::new();
        accessible_allocations.push(allocation);
        proof {
            let rs = records_of(accessible_allocations@);
            assert(rs =~= Seq::<RecordView>::empty().push(rec));
            Seq::<RecordView>::empty().lemma_push_to_set_commute(rec);
            assert(Seq::<RecordView>::empty().to_set() =~= Set::<RecordView>::empty());
            assert(rs.to_set() =~= set![rec]);
        }
        Ok(Node { left_child: None, right_child: None, accessible_allocations, value })
    }

    /// Combines two nodes into a parent: the child with the smaller hash goes left, the parent's
    /// hash is the Pedersen hash of the left then right child's hash, and the parent reaches the
    /// records of both.
    pub fn new(a: Node, b: Node) -> (r: Node)
        ensures
            r.model() == combine_view(a.model(), b.model()),
    {
        proof {
            use_type_invariant(&a);
            use_type_invariant(&b);
        }
        let (left, right) = if a.value.lt(&b.value) {
            (a, b)
        } else {
            (b, a)
        };
        let value = pedersen(&left.value, &right.value);
        let accessible_allocations = union_records(
            &left.accessible_allocations,
            &right.accessible_allocations,
        );
        Node {
            left_child: Some(Box::new(left)),
            right_child: Some(Box::new(right)),
            accessible_allocations,
            value,
        }
    }

    /// A deep copy of the node.
    pub fn duplicate(&self) -> (r: Node)
        ensures
            r.model() == self.model(),
        decreases self,
    {
        proof {
            use_type_invariant(self);
        }
        let accessible_allocations = crate::allocation::copy_allocations(
            &self.accessible_allocations,
        );
        match &self.left_child {
            Some(l) => match &self.right_child {
                Some(r) => {
                    let l2 = l.duplicate();
                    let r2 = r.duplicate();
                    proof {
                        use_type_invariant(&l2);
                        use_type_invariant(&r2);
                        assert(self.model() == NodeView::Branch(Box::new(l.model()), Box::new(r.model())));
                    }
                    Node {
                        left_child: Some(Box::new(l2)),
                        right_child: Some(Box::new(r2)),
                        accessible_allocations,
                        value: self.value,
                    }
                },
                None => {
                    // A node has both children or none.
                    proof {
                        assert(false);
                    }
                    Node {
                        left_child: None,
                        right_child: None,
                        accessible_allocations,
                        value: self.value,
                    }
                },
            },
            None => {
                proof {
                    assert(records_of(accessible_allocations@)[0] == records_of(
                        self.accessible_allocations@,
                    )[0]);
                    assert(self.model() == NodeView::Leaf(self.accessible_allocations@[0]@));
                    assert(records_of(accessible_allocations@).len() == accessible_allocations@.len());
                    assert(records_of(self.accessible_allocations@).len()
                        == self.accessible_allocations@.len());
                }
                Node { left_child: None, right_child: None, accessible_allocations, value: self.value }
            },
        }
    }

    /// The node's hash.
    pub fn value(&self) -> (r: FieldElement)
        ensures
            r.value() == node_value(self.model()),
    {
        proof {
            use_type_invariant(self);
        }
        self.value
    }

    /// Both children, none for a leaf.
    pub fn children(&self) -> (r: Option<(&Node, &Node)>)
        ensures
            match self.model() {
                NodeView::Leaf(_) => r is None,
                NodeView::Branch(l, rc) => r matches Some(c) && c.0.model() == *l && c.1.model()
                    == *rc,
            },
    {
        proof {
            use_type_invariant(self);
        }
        match &self.left_child {
            Some(l) => match &self.right_child {
                Some(r) => Some((&**l, &**r)),
                None => None,
            },
            None => None,
        }
    }

    /// The left child, none for a leaf.
    pub fn left_child(&self) -> (r: Option<&Node>)
        ensures
            match self.model() {
                NodeView::Leaf(_) => r is None,
                NodeView::Branch(l, _) => r matches Some(c) && c.model() == *l,
            },
    {
        proof {
            use_type_invariant(self);
        }
        match &self.left_child {
            Some(l) => match &self.right_child {
                Some(_) => Some(&**l),
                None => None,
            },
            None => None,
        }
    }

    /// The right child, none for a leaf.
    pub fn right_child(&self) -> (r: Option<&Node>)
        ensures
            match self.model() {
                NodeView::Leaf(_) => r is None,
                NodeView::Branch(_, rc) => r matches Some(c) && c.model() == *rc,
            },
    {
        proof {
            use_type_invariant(self);
        }
        match &self.left_child {
            Some(_) => match &self.right_child {
                Some(r) => Some(&**r),
                None => None,
            },
            None => None,
        }
    }

    /// The records reachable beneath the node, each once.
    pub fn accessible_allocations(&self) -> (r: &Vec<Allocation>)
        ensures
            records_of(r@).no_duplicates(),
            records_of(r@).to_set() == accessible(self.model()),
    {
        proof {
            use_type_invariant(self);
        }
        &self.accessible_allocations
    }

    /// Whether the record is reachable beneath the node.
    pub fn contains(&self, allocation: &Allocation) -> (r: bool)
        ensures
            r == accessible(self.model()).contains(allocation@),
    {
        proof {
            use_type_invariant(self);
        }
        list_contains(&self.accessible_allocations, allocation)
    }
}

/// Whether a list holds the record.
fn list_contains(v: &Vec<Allocation>, a: &Allocation) -> (r: bool)
    ensures
        r == records_of(v@).contains(a@),
{
    let mut i: usize = 0;
    while i < v.len()
        invariant
            i <= v.len(),
            forall|j: int| 0 <= j < i ==> v@[j]@ != a@,
        decreases v.len() - i,
    {
        if v[i] == *a {
            proof {
                assert(records_of(v@)[i as int] == a@);
            }
            return true;
        }
        i += 1;
    }
    proof {
        if records_of(v@).contains(a@) {
            let j = choose|j: int| 0 <= j < records_of(v@).len() && records_of(v@)[j] == a@;
            assert(v@[j]@ == a@);
        }
    }
    false
}

/// The records of two duplicate-free lists, each once: those of the first, then those of the
/// second that the first lacks.
fn union_records(a: &Vec<Allocation>, b: &Vec<Allocation>) -> (r: Vec<Allocation>)
    requires
        records_of(a@).no_duplicates(),
    ensures
        records_of(r@).no_duplicates(),
        records_of(r@).to_set() == records_of(a@).to_set().union(records_of(b@).to_set()),
{
    let mut r = crate::allocation::copy_allocations(a);
    let mut i: usize = 0;
    while i < b.len()
        invariant
            i <= b.len(),
            records_of(r@).no_duplicates(),
            records_of(r@).to_set() == records_of(a@).to_set().union(
                records_of(b@.subrange(0, i as int)).to_set(),
            ),
        decreases b.len() - i,
    {
        let ghost before = records_of(r@);
        let ghost x = b@[i as int]@;
        if !list_contains(&r, &b[i]) {
            r.push(b[i].duplicate());
            proof {
                assert(records_of(r@) =~= before.push(x));
                assert forall|p: int, q: int|
                    0 <= p < records_of(r@).len() && 0 <= q < records_of(r@).len() && p != q
                    implies records_of(r@)[p] != records_of(r@)[q] by {
                    if p < before.len() && q < before.len() {
                    } else if p == before.len() {
                        assert(before.contains(before[q]));
                    } else {
                        assert(before.contains(before[p]));
                    }
                }
                before.lemma_push_to_set_commute(x);
            }
        }
        proof {
            let bs = records_of(b@.subrange(0, i as int));
            assert(records_of(b@.subrange(0, i + 1)) =~= bs.push(x));
            bs.lemma_push_to_set_commute(x);
            assert(records_of(r@).to_set() =~= records_of(a@).to_set().union(
                records_of(b@.subrange(0, i + 1)).to_set(),
            ));
        }
        i += 1;
    }
    assert(b@.subrange(0, i as int) =~= b@);
    r
}

} // verus!
