//! Keychain records of wallets stored in the pre-1.0 relational layout.
//!
//! The rows come from a join of `last_derivation_indices` and `checksums` on
//! the keychain column; the caller runs the query and hands them over.
use vstd::prelude::*;
use crate::copied;

verus! {

/// The keychain name with every leading and trailing `"` removed.
pub open spec fn trim_quotes(s: Seq<char>) -> Seq<char> {
    strip_back(strip_front(s))
}

pub open spec fn strip_front(s: Seq<char>) -> Seq<char>
    decreases s.len(),
{
    if s.len() > 0 && s[0] == '"' {
        strip_front(s.drop_first())
    } else {
        s
    }
}

pub open spec fn strip_back(s: Seq<char>) -> Seq<char>
    decreases s.len(),
{
    if s.len() > 0 && s.last() == '"' {
        strip_back(s.drop_last())
    } else {
        s
    }
}

/// Relies on `str::trim_matches` with the pattern `'"'`: all prefixes and
/// suffixes equal to `"` are removed, repeatedly.
#[verifier::external_body]
fn trim_quote_chars(s: &String) -> (r: String)
    ensures
        r@ == trim_quotes(s@),
{
    s.trim_matches('"').to_string()
}

/// Keychain details of a pre-1.0 wallet.
pub struct Pre1WalletKeychain {
    /// The name of the keychain, "External" or "Internal".
    pub keychain: String,
    /// The index of the last derived key of the keychain.
    pub last_derivation_index: u32,
    /// Checksum of the keychain descriptor.
    pub checksum: Vec<u8>,
}

/// Turns the rows `(keychain, value, checksum)` of the joined pre-1.0 tables
/// into keychain records, one per row and in the same order, with the quote
/// characters stripped from the keychain names.
pub fn get_pre_1_wallet_keychains(rows: &Vec<(String, u32, Vec<u8>)>) -> (r: Vec<Pre1WalletKeychain>)
    ensures
        r.len() == rows.len(),
        forall|i: int| 0 <= i < rows.len() ==> {
            &&& (#[trigger] r[i]).keychain@ == trim_quotes(rows[i].0@)
            &&& r[i].last_derivation_index == rows[i].1
            &&& r[i].checksum@ == rows[i].2@
        },
{
    let mut keychains: Vec<Pre1WalletKeychain> = Vec::new();
    let mut i: usize = 0;
    while i < rows.len()
        invariant
            i <= rows.len(),
            keychains.len() == i,
            forall|k: int| 0 <= k < i ==> {
                &&& (#[trigger] keychains[k]).keychain@ == trim_quotes(rows[k].0@)
                &&& keychains[k].last_derivation_index == rows[k].1
                &&& keychains[k].checksum@ == rows[k].2@
            },
        decreases rows.len() - i,
    {
        let row = &rows[i];
        keychains.push(Pre1WalletKeychain {
            keychain: trim_quote_chars(&row.0),
            last_derivation_index: row.1,
            checksum: copied(&row.2),
        });
        i = i + 1;
    }
    keychains
}

} // verus!
