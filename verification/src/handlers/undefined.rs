use vstd::prelude::*;

verus! {

/// A token pair the protocol reserves but gives no behaviour.
pub fn handle() {
}

} // verus!
