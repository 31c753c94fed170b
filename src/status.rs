//! The canonical status of a transaction against a chain and a store.
use vstd::prelude::*;
use crate::chain::{BlockId, LocalChain, digest_eq, digest_less, digest_lt, has_block};
use crate::store::{Anchor, OutPoint, Transaction, TxEntry, TxStore, Txid, find_entry, has_txid};

verus! {

/// Where a transaction stands.
#[derive(Clone, Copy, Debug, PartialEq, Eq)]
pub enum CanonicalStatus {
    /// Confirmed by this anchor, whose block is in the chain.
    Confirmed(Anchor),
    /// Unconfirmed, last seen at this time.
    Unconfirmed(u64),
    /// Reported removed from the unconfirmed pool.
    Evicted,
    /// None of the above.
    Unknown,
}

/// A status, with the transaction that superseded this one, if one did.
#[derive(Clone, Copy, Debug, PartialEq, Eq)]
pub struct Resolution {
    pub status: CanonicalStatus,
    pub winner: Option<Txid>,
}

/// The anchor of `t` of lowest height whose block is in `c`; the earliest
/// listed among those of equal height.
pub open spec fn best_anchor(anchors: Seq<(Anchor, Txid)>, c: Seq<BlockId>, t: Txid) -> Option<Anchor>
    decreases anchors.len(),
{
    if anchors.len() == 0 {
        None
    } else {
        let r = best_anchor(anchors.drop_last(), c, t);
        let (a, x) = anchors.last();
        if x == t && has_block(c, a.block_id) && (r is None || a.block_id.height
            < r->0.block_id.height) {
            Some(a)
        } else {
            r
        }
    }
}

/// Two transactions spend a common outpoint.
pub open spec fn spends_common(a: Seq<OutPoint>, b: Seq<OutPoint>) -> bool {
    exists|x: int, y: int| 0 <= x < a.len() && 0 <= y < b.len() && a[x] == b[y]
}

pub open spec fn conflicting(txs: Seq<Transaction>, i: int, j: int) -> bool {
    i != j && spends_common(txs[i].input@, txs[j].input@)
}

/// Seen unconfirmed, and not evicted since.
pub open spec fn candidate(e: TxEntry) -> bool {
    e.last_seen is Some && !(e.evicted_at is Some && e.evicted_at->0 >= e.last_seen->0)
}

/// Between two candidates, the later seen wins; on a tie, the smaller id.
pub open spec fn beats(a: TxEntry, b: TxEntry) -> bool {
    a.last_seen->0 > b.last_seen->0 || (a.last_seen->0 == b.last_seen->0 && digest_lt(a.txid, b.txid))
}

/// The first of the first `n` transactions that conflicts with transaction `i`
/// and is confirmed in `c`.
pub open spec fn confirmed_conflict(
    c: Seq<BlockId>,
    txs: Seq<Transaction>,
    es: Seq<TxEntry>,
    anchors: Seq<(Anchor, Txid)>,
    i: int,
    n: int,
) -> Option<int>
    decreases n,
{
    if n <= 0 {
        None
    } else {
        let r = confirmed_conflict(c, txs, es, anchors, i, n - 1);
        if r is Some {
            r
        } else if conflicting(txs, i, n - 1) && best_anchor(anchors, c, es[n - 1].txid) is Some {
            Some(n - 1)
        } else {
            None
        }
    }
}

/// The winning candidate among transaction `i` and its conflicts, of the
/// first `n` transactions.
pub open spec fn best_candidate(txs: Seq<Transaction>, es: Seq<TxEntry>, i: int, n: int) -> Option<int>
    decreases n,
{
    if n <= 0 {
        None
    } else {
        let r = best_candidate(txs, es, i, n - 1);
        let j = n - 1;
        if (j == i || conflicting(txs, i, j)) && candidate(es[j]) && (r is None || beats(
            es[j],
            es[r->0],
        )) {
            Some(j)
        } else {
            r
        }
    }
}

/// A transaction superseded by `w`, whose decisive time is `time`.
pub open spec fn superseded(e: TxEntry, time: u64, w: Txid) -> Resolution {
    if e.evicted_at is Some && e.evicted_at->0 >= time {
        Resolution { status: CanonicalStatus::Evicted, winner: Some(w) }
    } else {
        Resolution { status: CanonicalStatus::Unknown, winner: Some(w) }
    }
}

/// The status of stored transaction `i`.
pub open spec fn resolve_at(
    c: Seq<BlockId>,
    txs: Seq<Transaction>,
    es: Seq<TxEntry>,
    anchors: Seq<(Anchor, Txid)>,
    i: int,
) -> Resolution {
    let e = es[i];
    match best_anchor(anchors, c, e.txid) {
        Some(a) => Resolution { status: CanonicalStatus::Confirmed(a), winner: None },
        None => match confirmed_conflict(c, txs, es, anchors, i, es.len() as int) {
            Some(j) => superseded(e, best_anchor(anchors, c, es[j].txid)->0.confirmation_time, es[j].txid),
            None => match best_candidate(txs, es, i, es.len() as int) {
                Some(j) => if j == i {
                    Resolution { status: CanonicalStatus::Unconfirmed(e.last_seen->0), winner: None }
                } else {
                    superseded(e, es[j].last_seen->0, es[j].txid)
                },
                None => if e.last_seen is Some {
                    Resolution { status: CanonicalStatus::Evicted, winner: None }
                } else {
                    Resolution { status: CanonicalStatus::Unknown, winner: None }
                },
            },
        },
    }
}

/// The position of `t` among the entries; -1 if it is not stored.
pub open spec fn index_of(es: Seq<TxEntry>, t: Txid) -> int {
    if has_txid(es, t) {
        choose|i: int| 0 <= i < es.len() && es[i].txid == t
    } else {
        -1
    }
}

/// The status of `t`; a transaction that is not stored is unknown.
pub open spec fn resolve(
    c: Seq<BlockId>,
    txs: Seq<Transaction>,
    es: Seq<TxEntry>,
    anchors: Seq<(Anchor, Txid)>,
    t: Txid,
) -> Resolution {
    if has_txid(es, t) {
        resolve_at(c, txs, es, anchors, index_of(es, t))
    } else {
        Resolution { status: CanonicalStatus::Unknown, winner: None }
    }
}

/// The status of `t` in a store against a chain.
pub open spec fn status_in(chain: LocalChain, store: TxStore, t: Txid) -> Resolution {
    resolve(chain@, store.txs_view(), store.entries_view(), store.anchors_view(), t)
}

/// The best anchor of `t` whose block is in the chain.
pub fn best_anchor_of(anchors: &Vec<(Anchor, Txid)>, chain: &LocalChain, t: &Txid) -> (r: Option<Anchor>)
    ensures
        r == best_anchor(anchors@, chain@, *t),
{
    let mut r: Option<Anchor> = None;
    let mut k: usize = 0;
    while k < anchors.len()
        invariant
            k <= anchors.len(),
            r == best_anchor(anchors@.take(k as int), chain@, *t),
        decreases anchors.len() - k,
    {
        let (a, x) = anchors[k];
        assert(anchors@.take(k as int + 1).drop_last() =~= anchors@.take(k as int));
        if digest_eq(&x, t) && chain.contains(&a.block_id) {
            let better = match r {
                None => true,
                Some(b) => a.block_id.height < b.block_id.height,
            };
            if better {
                r = Some(a);
            }
        }
        k = k + 1;
    }
    assert(anchors@.take(k as int) =~= anchors@);
    r
}

/// Whether two input lists share an outpoint.
pub fn spend_common(a: &Vec<OutPoint>, b: &Vec<OutPoint>) -> (r: bool)
    ensures
        r == spends_common(a@, b@),
{
    let mut x: usize = 0;
    while x < a.len()
        invariant
            x <= a.len(),
            forall|p: int, q: int| 0 <= p < x && 0 <= q < b.len() ==> a@[p] != b@[q],
        decreases a.len() - x,
    {
        if spends_outpoint(b, &a[x]) {
            return true;
        }
        x = x + 1;
    }
    false
}

/// Whether `b` spends `o`.
pub fn spends_outpoint(b: &Vec<OutPoint>, o: &OutPoint) -> (r: bool)
    ensures
        r == b@.contains(*o),
{
    let mut y: usize = 0;
    while y < b.len()
        invariant
            y <= b.len(),
            forall|q: int| 0 <= q < y ==> b@[q] != *o,
        decreases b.len() - y,
    {
        if b[y].vout == o.vout && digest_eq(&b[y].txid, &o.txid) {
            assert(b@[y as int] == *o);
            return true;
        }
        y = y + 1;
    }
    false
}

fn beats_exec(a: &TxEntry, b: &TxEntry) -> (r: bool)
    requires
        a.last_seen is Some,
        b.last_seen is Some,
    ensures
        r == beats(*a, *b),
{
    let x = a.last_seen.unwrap();
    let y = b.last_seen.unwrap();
    x > y || (x == y && digest_less(&a.txid, &b.txid))
}

fn superseded_exec(e: &TxEntry, time: u64, w: Txid) -> (r: Resolution)
    ensures
        r == superseded(*e, time, w),
{
    match e.evicted_at {
        Some(x) => if x >= time {
            Resolution { status: CanonicalStatus::Evicted, winner: Some(w) }
        } else {
            Resolution { status: CanonicalStatus::Unknown, winner: Some(w) }
        },
        None => Resolution { status: CanonicalStatus::Unknown, winner: Some(w) },
    }
}

pub open spec fn opt_int(o: Option<usize>) -> Option<int> {
    match o {
        Some(j) => Some(j as int),
        None => None,
    }
}

/// The canonical status of `t` against `chain` and `store`.
pub fn status(t: &Txid, chain: &LocalChain, store: &TxStore) -> (r: Resolution)
    requires
        store.wf(),
    ensures
        r == status_in(*chain, *store, *t),
{
    let es = store.entries();
    let txs = store.txs();
    let anchors = store.anchors();
    let i = match find_entry(es, t) {
        Some(i) => i,
        None => {
            return Resolution { status: CanonicalStatus::Unknown, winner: None };
        },
    };
    proof {
        let k = index_of(es@, *t);
        assert(0 <= k < es@.len() && es@[k].txid == *t);
        assert(k == i as int);
    }
    let e = es[i];
    if let Some(a) = best_anchor_of(anchors, chain, t) {
        return Resolution { status: CanonicalStatus::Confirmed(a), winner: None };
    }
    let mut cc: Option<usize> = None;
    let mut bc: Option<usize> = None;
    let mut j: usize = 0;
    while j < es.len()
        invariant
            j <= es.len(),
            i < es.len(),
            store_wf_lens(txs@, es@),
            opt_int(cc) == confirmed_conflict(chain@, txs@, es@, anchors@, i as int, j as int),
            opt_int(bc) == best_candidate(txs@, es@, i as int, j as int),
            match cc {
                Some(x) => x < j && best_anchor(anchors@, chain@, es@[x as int].txid) is Some,
                None => true,
            },
            match bc {
                Some(x) => x < j && candidate(es@[x as int]),
                None => true,
            },
        decreases es.len() - j,
    {
        let ej = es[j];
        let conflict = j != i && spend_common(&txs[i].input, &txs[j].input);
        if cc.is_none() && conflict {
            if best_anchor_of(anchors, chain, &ej.txid).is_some() {
                cc = Some(j);
            }
        }
        if (j == i || conflict) && is_candidate(&ej) {
            let better = match bc {
                None => true,
                Some(b) => beats_exec(&ej, &es[b]),
            };
            if better {
                bc = Some(j);
            }
        }
        j = j + 1;
    }
    match cc {
        Some(x) => {
            let a = best_anchor_of(anchors, chain, &es[x].txid).unwrap();
            superseded_exec(&e, a.confirmation_time, es[x].txid)
        },
        None => match bc {
            Some(x) => if x == i {
                Resolution { status: CanonicalStatus::Unconfirmed(e.last_seen.unwrap()), winner: None }
            } else {
                superseded_exec(&e, es[x].last_seen.unwrap(), es[x].txid)
            },
            None => if e.last_seen.is_some() {
                Resolution { status: CanonicalStatus::Evicted, winner: None }
            } else {
                Resolution { status: CanonicalStatus::Unknown, winner: None }
            },
        },
    }
}

pub open spec fn store_wf_lens(txs: Seq<Transaction>, es: Seq<TxEntry>) -> bool {
    txs.len() == es.len()
}

fn is_candidate(e: &TxEntry) -> (r: bool)
    ensures
        r == candidate(*e),
{
    match (e.last_seen, e.evicted_at) {
        (Some(s), Some(x)) => x < s,
        (Some(_), None) => true,
        _ => false,
    }
}

proof fn lemma_conflict_range(
    c: Seq<BlockId>,
    txs: Seq<Transaction>,
    es: Seq<TxEntry>,
    anchors: Seq<(Anchor, Txid)>,
    i: int,
    n: int,
)
    ensures
        confirmed_conflict(c, txs, es, anchors, i, n) matches Some(j) ==> 0 <= j < n,
        best_candidate(txs, es, i, n) matches Some(j) ==> 0 <= j < n,
    decreases n,
{
    if n > 0 {
        lemma_conflict_range(c, txs, es, anchors, i, n - 1);
    }
}

/// A transaction that has a status other than unknown, or a winner over it,
/// is stored, and so is the winner.
pub proof fn lemma_resolved_stored(
    c: Seq<BlockId>,
    txs: Seq<Transaction>,
    es: Seq<TxEntry>,
    anchors: Seq<(Anchor, Txid)>,
    t: Txid,
)
    ensures
        !(resolve(c, txs, es, anchors, t).status is Unknown) ==> has_txid(es, t),
        resolve(c, txs, es, anchors, t).winner is Some ==> has_txid(es, t),
        resolve(c, txs, es, anchors, t).winner matches Some(w) ==> has_txid(es, w),
{
    if has_txid(es, t) {
        let i = index_of(es, t);
        lemma_conflict_range(c, txs, es, anchors, i, es.len() as int);
        if let Some(j) = confirmed_conflict(c, txs, es, anchors, i, es.len() as int) {
            assert(es[j].txid == es[j].txid);
        }
        if let Some(j) = best_candidate(txs, es, i, es.len() as int) {
            assert(es[j].txid == es[j].txid);
        }
    }
}

/// A status is never at once confirmed and unconfirmed.
pub proof fn lemma_status_exclusive(chain: LocalChain, store: TxStore, t: Txid)
    ensures
        !(status_in(chain, store, t).status is Confirmed && status_in(chain, store, t).status is Unconfirmed),
{
}

} // verus!
