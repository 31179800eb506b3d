use vstd::prelude::*;
use crate::amount::Amount;

verus! {

/// An account or contract address: its kind and its 32-byte hash.
#[derive(Clone, Copy, Debug, Eq, Hash)]
pub struct Address {
    pub is_contract: bool,
    pub hash: [u8; 32],
}

/// What the hosting runtime tells an operation about the transaction that runs it:
/// who calls, the block time (seconds, read once per operation) and the value
/// sent along with the call (zero if none).
#[derive(Clone, Copy, Debug, PartialEq, Eq)]
pub struct Context {
    pub caller: Address,
    pub block_time: u64,
    pub attached_value: Amount,
}

impl PartialEq for Address {
    fn eq(&self, other: &Address) -> (r: bool) {
        if self.is_contract != other.is_contract {
            return false;
        }
        let mut i: usize = 0;
        while i < 32
            invariant
                i <= 32,
                forall|j: int| 0 <= j < i ==> self.hash@[j] == other.hash@[j],
            decreases 32 - i,
        {
            if self.hash[i] != other.hash[i] {
                return false;
            }
            i = i + 1;
        }
        proof {
            broadcast use vstd::array::group_array_axioms;
            assert(self.hash =~= other.hash);
        }
        true
    }
}

impl vstd::std_specs::cmp::PartialEqSpecImpl for Address {
    open spec fn obeys_eq_spec() -> bool {
        true
    }

    open spec fn eq_spec(&self, other: &Address) -> bool {
        self == other
    }
}

impl Address {
    /// The account whose hash is `hash`.
    pub fn account(hash: [u8; 32]) -> (r: Address)
        ensures
            !r.is_contract,
            r.hash == hash,
    {
        Address { is_contract: false, hash }
    }

    /// The contract whose package hash is `hash`.
    pub fn contract(hash: [u8; 32]) -> (r: Address)
        ensures
            r.is_contract,
            r.hash == hash,
    {
        Address { is_contract: true, hash }
    }
}

impl Context {
    pub fn new(caller: Address, block_time: u64, attached_value: Amount) -> (r: Context)
        ensures
            r.caller == caller,
            r.block_time == block_time,
            r.attached_value == attached_value,
    {
        Context { caller, block_time, attached_value }
    }
}

} // verus!
