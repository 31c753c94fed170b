//! Chain and transaction reconciliation for a wallet, with lifecycle events,
//! and the reader of keychain rows from wallets of the pre-1.0 layout.
use vstd::prelude::*;

pub mod chain;
pub mod events;
pub mod migration;
pub mod status;
pub mod store;

verus! {

/// A copy of a vector of plain values.
pub fn copied<T: Copy>(v: &Vec<T>) -> (r: Vec<T>)
    ensures
        r@ == v@,
{
    let mut r: Vec<T> = Vec::new();
    let mut i: usize = 0;
    while i < v.len()
        invariant
            i <= v.len(),
            r@ == v@.take(i as int),
        decreases v.len() - i,
    {
        r.push(v[i]);
        i = i + 1;
        assert(r@ =~= v@.take(i as int));
    }
    assert(r@ =~= v@);
    r
}

} // verus!
