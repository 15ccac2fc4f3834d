//! The map from the address of a candidate instruction to its position in
//! the superset.

use vstd::prelude::*;
use std::collections::HashMap;
use rustc_hash::FxBuildHasher;
use crate::feature::{InstructionFeature, Label};
use crate::fx_map::{fx_get, fx_insert, fx_new};

verus! {

/// An entry of a superset: address, features, label.
pub type Entry = (u32, InstructionFeature, Option<Label>);

/// The position that each address of `superset` stands at. Where an address
/// stands at several positions, the last one counts.
pub open spec fn address_index(superset: Seq<Entry>) -> Map<u32, u32>
    decreases superset.len(),
{
    if superset.len() == 0 {
        Map::empty()
    } else {
        address_index(superset.drop_last()).insert(superset.last().0, (superset.len() - 1) as u32)
    }
}

/// What `index` holds for `address`, if that is an address and the index
/// holds something for it.
pub open spec fn found_in(index: Map<u32, u32>, address: int) -> Option<u32> {
    if 0 <= address <= u32::MAX && index.contains_key(address as u32) {
        Some(index[address as u32])
    } else {
        None
    }
}

/// The position of the entry at `address`, if there is one.
pub open spec fn lookup(superset: Seq<Entry>, address: int) -> Option<u32> {
    found_in(address_index(superset), address)
}

/// What the index finds is a position of the superset, and the entry there
/// has the address that was looked up.
pub proof fn lemma_lookup_in_range(superset: Seq<Entry>, address: int)
    requires
        superset.len() <= u32::MAX,
    ensures
        lookup(superset, address) matches Some(at) ==> at < superset.len() && superset[at as int].0
            == address,
        lookup(superset, address).is_none() ==> forall|k: int|
            0 <= k < superset.len() ==> (#[trigger] superset[k]).0 != address,
    decreases superset.len(),
{
    if superset.len() > 0 {
        let shorter = superset.drop_last();
        lemma_lookup_in_range(shorter, address);
        if lookup(superset, address).is_none() {
            assert forall|k: int| 0 <= k < superset.len() implies (#[trigger] superset[k]).0
                != address by {
                if k < shorter.len() {
                    assert(shorter[k] == superset[k]);
                }
            }
        }
    }
}

/// The positions of the entries of a superset, by address.
pub struct AddressIndex {
    map: HashMap<u32, u32, FxBuildHasher>,
}

impl View for AddressIndex {
    type V = Map<u32, u32>;

    closed spec fn view(&self) -> Map<u32, u32> {
        self.map@
    }
}

impl AddressIndex {
    /// The index of `superset`.
    pub fn build(superset: &Vec<Entry>) -> (r: AddressIndex)
        requires
            superset@.len() <= u32::MAX,
        ensures
            r@ == address_index(superset@),
    {
        let mut map: HashMap<u32, u32, FxBuildHasher> = fx_new();
        let mut i: usize = 0;
        while i < superset.len()
            invariant
                0 <= i <= superset@.len(),
                superset@.len() <= u32::MAX,
                map@ == address_index(superset@.subrange(0, i as int)),
            decreases superset@.len() - i,
        {
            proof {
                let longer = superset@.subrange(0, i + 1);
                assert(longer.drop_last() =~= superset@.subrange(0, i as int));
                assert(longer.last() == superset@[i as int]);
            }
            fx_insert(&mut map, superset[i].0, i as u32);
            i += 1;
        }
        assert(superset@.subrange(0, i as int) =~= superset@);
        AddressIndex { map }
    }

    /// The position of the entry at `address`, if there is one.
    pub fn get(&self, address: u64) -> (r: Option<u32>)
        ensures
            r == found_in(self@, address as int),
    {
        if address > u32::MAX as u64 {
            None
        } else {
            fx_get(&self.map, address as u32)
        }
    }
}

} // verus!
