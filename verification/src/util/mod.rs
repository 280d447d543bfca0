//! Utilities that can be used independently of the bus.

pub mod arena;
pub mod calls;
pub mod field;
pub mod history;
pub mod lll;
pub mod rb;
pub mod search;
pub mod slist;
pub mod total;

use core::cmp::Ordering;
use crate::util::arena::Addr;
use vstd::prelude::*;

verus! {

/// How a number compares to another one.
pub open spec fn order_of(a: int, b: int) -> Ordering {
    if a < b {
        Ordering::Less
    } else if a > b {
        Ordering::Greater
    } else {
        Ordering::Equal
    }
}

/// Compare two objects by their address.
///
/// This is a total order on the objects of an arena.
pub fn ptr_cmp(a: Addr, b: Addr) -> (r: Ordering)
    ensures
        r == order_of(a - 0, b - 0),
{
    a.cmp(&b)
}

} // verus!
