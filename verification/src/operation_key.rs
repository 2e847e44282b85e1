//! The key of an indexed operation and its order.
use crate::crypto::{BlockHeight, ChainId};
use core::cmp::Ordering;
use vstd::prelude::*;
use vstd::std_specs::cmp::PartialOrdSpecImpl;

verus! {

/// Where an operation stands: its chain, the height of its block, and its
/// position in the block.
#[derive(PartialEq, Eq, Structural, Clone, Copy, Debug)]
pub struct OperationKey {
    pub chain_id: ChainId,
    pub height: BlockHeight,
    pub index: usize,
}

impl DeepView for OperationKey {
    type V = OperationKey;

    open spec fn deep_view(&self) -> OperationKey {
        *self
    }
}

/// `a` comes at or after `b`: by height, then by position in the block (the
/// chain is not compared).
pub open spec fn key_at_or_after(a: OperationKey, b: OperationKey) -> bool {
    a.height.0 > b.height.0 || (a.height.0 == b.height.0 && a.index >= b.index)
}

/// The order of two keys by height, then by position in the block.
pub open spec fn key_order_spec(a: OperationKey, b: OperationKey) -> Option<Ordering> {
    if a.height.0 < b.height.0 {
        Some(Ordering::Less)
    } else if a.height.0 > b.height.0 {
        Some(Ordering::Greater)
    } else if a.index < b.index {
        Some(Ordering::Less)
    } else if a.index > b.index {
        Some(Ordering::Greater)
    } else {
        Some(Ordering::Equal)
    }
}

impl PartialOrd for OperationKey {
    fn partial_cmp(&self, other: &Self) -> (r: Option<Ordering>) {
        if self.height.0 < other.height.0 {
            Some(Ordering::Less)
        } else if self.height.0 > other.height.0 {
            Some(Ordering::Greater)
        } else if self.index < other.index {
            Some(Ordering::Less)
        } else if self.index > other.index {
            Some(Ordering::Greater)
        } else {
            Some(Ordering::Equal)
        }
    }
}

impl PartialOrdSpecImpl for OperationKey {
    open spec fn obeys_partial_cmp_spec() -> bool {
        true
    }

    open spec fn partial_cmp_spec(&self, other: &OperationKey) -> Option<Ordering> {
        key_order_spec(*self, *other)
    }
}

/// Whether `a` comes at or after `b` (the comparison `a >= b`).
pub fn key_ge(a: &OperationKey, b: &OperationKey) -> (r: bool)
    ensures
        r == key_at_or_after(*a, *b),
{
    *a >= *b
}

} // verus!
