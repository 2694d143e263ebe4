use vstd::prelude::*;
use crate::graph::SatNode;

verus! {

/// Satellite `s` stands at grid address `(plane, sat)`.
pub open spec fn at_address(s: SatNode, plane: usize, sat: usize) -> bool {
    s.plane == plane && s.sat_index == sat
}

/// Finds the first satellite with the given grid address.
pub fn find_satellite(positions: &[SatNode], plane: usize, sat: usize) -> (res: Option<usize>)
    ensures
        match res {
            Some(i) => {
                &&& i < positions@.len()
                &&& at_address(positions@[i as int], plane, sat)
                &&& forall|j: int| 0 <= j < i ==> !at_address(#[trigger] positions@[j], plane, sat)
            },
            None => forall|j: int| 0 <= j < positions@.len() ==> !at_address(#[trigger] positions@[j], plane, sat),
        },
{
    let mut i: usize = 0;
    while i < positions.len()
        invariant
            i <= positions@.len(),
            forall|j: int| 0 <= j < i ==> !at_address(#[trigger] positions@[j], plane, sat),
        decreases positions@.len() - i,
    {
        if positions[i].plane == plane && positions[i].sat_index == sat {
            return Some(i);
        }
        i = i + 1;
    }
    None
}

} // verus!
