//! Allocation records and their canonical field elements.
use crate::felt::felt_of_hex;
use crate::felt::parse_felt_hex;
use crate::felt::parses_as_felt;
use crate::felt::pedersen_of;
use crate::felt::u64_to_felt;
use crate::felt::FieldElement;
use vstd::prelude::*;

verus! {

/// The identity of a record: its address, amount, timestamp and id.
pub type RecordView = (Seq<char>, u64, Seq<char>, u64);

/// The four canonical values of a record, as integers of the field.
pub type FieldValues = (nat, nat, nat, nat);

/// The ways in which building a tree or a proof can fail.
#[derive(Clone, Copy, Debug, PartialEq, Eq, Structural)]
pub enum MerkleError {
    /// The address is not a hexadecimal field element.
    InvalidAddress,
    /// The timestamp is not a hexadecimal field element.
    InvalidTimestamp,
    /// The queried record is not in the tree.
    AllocationNotFound,
    /// A tree needs at least one record.
    NoAllocations,
}

impl MerkleError {
    /// A short description of the error.
    pub fn message(&self) -> (r: &'static str)
        ensures
            *self == MerkleError::InvalidAddress ==> r@ == "Invalid address"@,
            *self == MerkleError::InvalidTimestamp ==> r@ == "Invalid timestamp"@,
            *self == MerkleError::AllocationNotFound ==> r@ == "Allocation not found"@,
            *self == MerkleError::NoAllocations ==> r@ == "No allocations"@,
    {
        match self {
            MerkleError::InvalidAddress => "Invalid address",
            MerkleError::InvalidTimestamp => "Invalid timestamp",
            MerkleError::AllocationNotFound => "Allocation not found",
            MerkleError::NoAllocations => "No allocations",
        }
    }
}

/// One allocation: a hexadecimal address, an amount, a hexadecimal timestamp and an id.
#[derive(Clone, Debug, Hash)]
pub struct Allocation {
    pub address: String,
    pub amount: u64,
    pub timestamp: String,
    pub id: u64,
}

impl View for Allocation {
    type V = RecordView;

    open spec fn view(&self) -> RecordView {
        (self.address@, self.amount, self.timestamp@, self.id)
    }
}

impl PartialEq for Allocation {
    fn eq(&self, other: &Allocation) -> (r: bool) {
        self.address == other.address && self.amount == other.amount && self.timestamp
            == other.timestamp && self.id == other.id
    }
}

impl vstd::std_specs::cmp::PartialEqSpecImpl for Allocation {
    open spec fn obeys_eq_spec() -> bool {
        true
    }

    open spec fn eq_spec(&self, other: &Allocation) -> bool {
        self@ == other@
    }
}

impl Eq for Allocation {

}

/// The canonical values of a record, or the first field that does not parse: the address is
/// checked before the timestamp; amount and id always fit.
pub open spec fn canonical_fields(r: RecordView) -> Result<FieldValues, MerkleError> {
    if !parses_as_felt(r.0) {
        Err(MerkleError::InvalidAddress)
    } else if !parses_as_felt(r.2) {
        Err(MerkleError::InvalidTimestamp)
    } else {
        Ok((felt_of_hex(r.0), r.1 as nat, felt_of_hex(r.2), r.3 as nat))
    }
}

/// The hash of a leaf: the four values folded left to right through the Pedersen hash.
pub open spec fn leaf_hash(f: FieldValues) -> nat {
    pedersen_of(pedersen_of(pedersen_of(f.0, f.1), f.2), f.3)
}

/// The leaf hash of a record whose fields parse.
pub open spec fn record_hash(r: RecordView) -> nat {
    match canonical_fields(r) {
        Ok(f) => leaf_hash(f),
        Err(_) => 0,
    }
}

/// The values of four field elements.
pub open spec fn felt_values(f: (FieldElement, FieldElement, FieldElement, FieldElement)) -> FieldValues {
    (f.0.value(), f.1.value(), f.2.value(), f.3.value())
}

/// The records that a list of allocations holds.
pub open spec fn records_of(v: Seq<Allocation>) -> Seq<RecordView> {
    v.map_values(|a: Allocation| a@)
}

impl Allocation {
    /// Converts the four fields into field elements for hashing.
    pub fn to_felts(&self) -> (r: Result<(FieldElement, FieldElement, FieldElement, FieldElement), MerkleError>)
        ensures
            match r {
                Ok(f) => canonical_fields(self@) == Ok::<FieldValues, MerkleError>(felt_values(f)),
                Err(e) => canonical_fields(self@) == Err::<FieldValues, MerkleError>(e),
            },
    {
        let address = match parse_felt_hex(self.address.as_str()) {
            Ok(f) => f,
            Err(_) => return Err(MerkleError::InvalidAddress),
        };
        let amount = u64_to_felt(self.amount);
        let timestamp = match parse_felt_hex(self.timestamp.as_str()) {
            Ok(f) => f,
            Err(_) => return Err(MerkleError::InvalidTimestamp),
        };
        let id = u64_to_felt(self.id);
        Ok((address, amount, timestamp, id))
    }

    /// A copy of the record.
    pub fn duplicate(&self) -> (r: Allocation)
        ensures
            r@ == self@,
    {
        Allocation {
            address: self.address.clone(),
            amount: self.amount,
            timestamp: self.timestamp.clone(),
            id: self.id,
        }
    }
}

/// A copy of a list of records.
pub fn copy_allocations(v: &Vec<Allocation>) -> (r: Vec<Allocation>)
    ensures
        records_of(r@) == records_of(v@),
{
    let mut r: Vec<Allocation> = Vec::new();
    let mut i: usize = 0;
    while i < v.len()
        invariant
            i <= v.len(),
            records_of(r@) == records_of(v@.subrange(0, i as int)),
        decreases v.len() - i,
    {
        let ghost old_r = r@;
        let a = v[i].duplicate();
        r.push(a);
        proof {
            assert(r@ == old_r.push(a));
            assert(v@.subrange(0, i + 1) =~= v@.subrange(0, i as int).push(v@[i as int]));
            assert(records_of(r@) =~= records_of(old_r).push(a@));
            assert(records_of(r@) =~= records_of(v@.subrange(0, i + 1)));
        }
        i += 1;
    }
    assert(v@.subrange(0, i as int) =~= v@);
    r
}

} // verus!
