//! What the containers of one negotiation already answered.
//!
//! A stack probes each of its children under several proposals, and every
//! nested stack multiplies those probes. One memo shared by the whole
//! negotiation keeps it at one measurement for each container and proposal.

use crate::geometry::{DimensionsView, ProposalSize, ViewDimensions};
use crate::single::Single;
use std::collections::HashMap;
use vstd::prelude::*;

verus! {

/// The measurements recorded so far, by container and by proposal.
pub struct LayoutMeasureMemo {
    tables: HashMap<usize, HashMap<u128, ViewDimensions>>,
}

/// An extent as a number: its bits, or one more than any of them.
pub open spec fn extent_code(extent: Option<Single>) -> int {
    match extent {
        Some(value) => value.bits as int,
        None => 0x1_0000_0000,
    }
}

/// The number that a proposal is filed under.
pub open spec fn proposal_code(proposal: ProposalSize) -> int {
    extent_code(proposal.width) * 0x2_0000_0000 + extent_code(proposal.height)
}

/// Two proposals are filed under one number only if they are the same bit for
/// bit.
pub proof fn lemma_proposal_code_is_unique(a: ProposalSize, b: ProposalSize)
    requires
        proposal_code(a) == proposal_code(b),
    ensures
        a == b,
{
    assert(extent_code(a.height) == extent_code(b.height));
    assert(extent_code(a.width) == extent_code(b.width));
}

/// The number that a proposal is filed under.
pub fn layout_measure_key(proposal: ProposalSize) -> (r: u128)
    ensures
        r == proposal_code(proposal),
{
    let width: u128 = match proposal.width {
        Some(value) => value.bits as u128,
        None => 0x1_0000_0000,
    };
    let height: u128 = match proposal.height {
        Some(value) => value.bits as u128,
        None => 0x1_0000_0000,
    };
    width * 0x2_0000_0000 + height
}

impl LayoutMeasureMemo {
    /// What was recorded for `container` under `proposal`.
    pub closed spec fn recorded(self, container: usize, proposal: ProposalSize) -> Option<
        DimensionsView,
    > {
        if self.tables@.dom().contains(container) && self.tables@[container]@.dom().contains(
            proposal_code(proposal) as u128,
        ) {
            Some(self.tables@[container]@[proposal_code(proposal) as u128]@)
        } else {
            None
        }
    }

    /// A memo without entries.
    pub fn new() -> (r: LayoutMeasureMemo)
        ensures
            forall|container: usize, proposal: ProposalSize|
                #[trigger] r.recorded(container, proposal) is None,
    {
        broadcast use vstd::std_specs::hash::group_hash_axioms;

        LayoutMeasureMemo { tables: HashMap::new() }
    }

    /// What was recorded for `container` under `proposal`.
    pub fn lookup(&self, container: usize, proposal: ProposalSize) -> (r: Option<ViewDimensions>)
        ensures
            match r {
                Some(dimensions) => self.recorded(container, proposal) == Some(dimensions@),
                None => self.recorded(container, proposal) is None,
            },
    {
        broadcast use vstd::std_specs::hash::group_hash_axioms;

        match self.tables.get(&container) {
            Some(table) => {
                let key: u128 = layout_measure_key(proposal);
                match table.get(&key) {
                    Some(dimensions) => Some(dimensions.duplicate()),
                    None => None,
                }
            },
            None => None,
        }
    }

    /// Records what `container` answered under `proposal`.
    pub fn record(&mut self, container: usize, proposal: ProposalSize, dimensions: ViewDimensions)
        ensures
            forall|c: usize, p: ProposalSize| #[trigger]
                final(self).recorded(c, p) == if c == container && p == proposal {
                    Some(dimensions@)
                } else {
                    old(self).recorded(c, p)
                },
    {
        broadcast use vstd::std_specs::hash::group_hash_axioms;

        let key: u128 = layout_measure_key(proposal);
        let ghost before = *self;
        let mut table: HashMap<u128, ViewDimensions> = match self.tables.remove(&container) {
            Some(table) => table,
            None => HashMap::new(),
        };
        table.insert(key, dimensions);
        self.tables.insert(container, table);
        proof {
            assert forall|c: usize, p: ProposalSize| #[trigger]
                self.recorded(c, p) == if c == container && p == proposal {
                    Some(dimensions@)
                } else {
                    before.recorded(c, p)
                } by {
                if c == container && p != proposal {
                    if proposal_code(p) == proposal_code(proposal) {
                        lemma_proposal_code_is_unique(p, proposal);
                    }
                    let (a, b) = (extent_code(p.width), extent_code(p.height));
                    assert(0 <= a * 0x2_0000_0000 + b <= u128::MAX);
                }
            }
        }
    }
}

} // verus!
