//! Transaction records: raw transactions, confirmation anchors, and the
//! last-seen and evicted-at timestamps, merged monotonically from updates.
use vstd::prelude::*;
use crate::chain::{BlockId, Hash32, digest_eq};

verus! {

/// A transaction id.
pub type Txid = Hash32;

/// An output of an earlier transaction, as spent by an input.
#[derive(Clone, Copy, Debug, PartialEq, Eq)]
pub struct OutPoint {
    pub txid: Txid,
    pub vout: u32,
}

/// A transaction output.
#[derive(Clone, Copy, Debug, PartialEq, Eq)]
pub struct TxOut {
    pub value: u64,
}

/// A raw transaction with its id.
#[derive(Clone, Debug, PartialEq, Eq)]
pub struct Transaction {
    pub txid: Txid,
    pub input: Vec<OutPoint>,
    pub output: Vec<TxOut>,
}

/// A claim that a transaction is confirmed in `block_id`, recorded at `confirmation_time`.
#[derive(Clone, Copy, Debug, PartialEq, Eq)]
pub struct Anchor {
    pub block_id: BlockId,
    pub confirmation_time: u64,
}

/// The timestamps kept for a stored transaction.
#[derive(Clone, Copy, Debug, PartialEq, Eq)]
pub struct TxEntry {
    pub txid: Txid,
    pub last_seen: Option<u64>,
    pub evicted_at: Option<u64>,
}

/// New transaction facts, applied together.
pub struct TxUpdate {
    pub txs: Vec<Transaction>,
    pub anchors: Vec<(Anchor, Txid)>,
    pub seen_ats: Vec<(Txid, u64)>,
    pub evicted_ats: Vec<(Txid, u64)>,
}

impl TxUpdate {
    /// An update with no facts.
    pub fn new() -> (r: TxUpdate)
        ensures
            r.txs@.len() == 0,
            r.anchors@.len() == 0,
            r.seen_ats@.len() == 0,
            r.evicted_ats@.len() == 0,
    {
        TxUpdate { txs: Vec::new(), anchors: Vec::new(), seen_ats: Vec::new(), evicted_ats: Vec::new() }
    }
}

/// Why a transaction update was refused.
#[derive(Clone, Copy, Debug, PartialEq, Eq)]
pub enum StoreError {
    /// An anchor or a timestamp names a transaction that is neither stored nor in the batch.
    UnknownTx,
}

/// Two transactions hold the same data.
pub open spec fn same_tx(a: Transaction, b: Transaction) -> bool {
    a.txid == b.txid && a.input@ == b.input@ && a.output@ == b.output@
}

pub open spec fn has_txid(es: Seq<TxEntry>, t: Txid) -> bool {
    exists|i: int| 0 <= i < es.len() && es[i].txid == t
}

pub open spec fn fresh_entry(t: Txid) -> TxEntry {
    TxEntry { txid: t, last_seen: None, evicted_at: None }
}

pub open spec fn with_tx(p: (Seq<Transaction>, Seq<TxEntry>), t: Transaction) -> (Seq<Transaction>, Seq<TxEntry>) {
    if has_txid(p.1, t.txid) {
        p
    } else {
        (p.0.push(t), p.1.push(fresh_entry(t.txid)))
    }
}

/// New transactions are added when their id is not stored yet.
pub open spec fn with_txs(p: (Seq<Transaction>, Seq<TxEntry>), new: Seq<Transaction>) -> (Seq<Transaction>, Seq<TxEntry>)
    decreases new.len(),
{
    if new.len() == 0 {
        p
    } else {
        with_tx(with_txs(p, new.drop_last()), new.last())
    }
}

/// Anchors form a set: each pair is kept once.
pub open spec fn with_anchors(s: Seq<(Anchor, Txid)>, new: Seq<(Anchor, Txid)>) -> Seq<(Anchor, Txid)>
    decreases new.len(),
{
    if new.len() == 0 {
        s
    } else {
        let r = with_anchors(s, new.drop_last());
        if r.contains(new.last()) {
            r
        } else {
            r.push(new.last())
        }
    }
}

/// A timestamp raised to at least `t`.
pub open spec fn raised(o: Option<u64>, t: u64) -> Option<u64> {
    match o {
        Some(x) => Some(if x >= t { x } else { t }),
        None => Some(t),
    }
}

pub open spec fn with_seen(es: Seq<TxEntry>, t: Txid, ts: u64) -> Seq<TxEntry> {
    Seq::new(
        es.len(),
        |i: int|
            if es[i].txid == t {
                TxEntry { last_seen: raised(es[i].last_seen, ts), ..es[i] }
            } else {
                es[i]
            },
    )
}

pub open spec fn with_evicted(es: Seq<TxEntry>, t: Txid, ts: u64) -> Seq<TxEntry> {
    Seq::new(
        es.len(),
        |i: int|
            if es[i].txid == t {
                TxEntry { evicted_at: raised(es[i].evicted_at, ts), ..es[i] }
            } else {
                es[i]
            },
    )
}

pub open spec fn with_seens(es: Seq<TxEntry>, new: Seq<(Txid, u64)>) -> Seq<TxEntry>
    decreases new.len(),
{
    if new.len() == 0 {
        es
    } else {
        let l = new.last();
        with_seen(with_seens(es, new.drop_last()), l.0, l.1)
    }
}

pub open spec fn with_evicteds(es: Seq<TxEntry>, new: Seq<(Txid, u64)>) -> Seq<TxEntry>
    decreases new.len(),
{
    if new.len() == 0 {
        es
    } else {
        let l = new.last();
        with_evicted(with_evicteds(es, new.drop_last()), l.0, l.1)
    }
}

/// Every anchor and timestamp of `u` names a transaction of `es`.
pub open spec fn refs_known(es: Seq<TxEntry>, u: &TxUpdate) -> bool {
    &&& forall|k: int| 0 <= k < u.anchors@.len() ==> has_txid(es, #[trigger] u.anchors@[k].1)
    &&& forall|k: int| 0 <= k < u.seen_ats@.len() ==> has_txid(es, #[trigger] u.seen_ats@[k].0)
    &&& forall|k: int| 0 <= k < u.evicted_ats@.len() ==> has_txid(es, #[trigger] u.evicted_ats@[k].0)
}

/// Among the first `n` stored transactions, those other than `i` that spend
/// input `x` of transaction `i`, each as `(x, id)`, in store order.
pub open spec fn spenders(txs: Seq<Transaction>, es: Seq<TxEntry>, i: int, x: int, n: int) -> Seq<(usize, Txid)>
    decreases n,
{
    if n <= 0 {
        seq![]
    } else {
        let r = spenders(txs, es, i, x, n - 1);
        if n - 1 != i && txs[n - 1].input@.contains(txs[i].input@[x]) {
            r.push((x as usize, es[n - 1].txid))
        } else {
            r
        }
    }
}

/// The conflicts through the first `m` inputs of transaction `i`, input by input.
pub open spec fn conflicts_through(txs: Seq<Transaction>, es: Seq<TxEntry>, i: int, m: int) -> Seq<(usize, Txid)>
    decreases m,
{
    if m <= 0 {
        seq![]
    } else {
        conflicts_through(txs, es, i, m - 1) + spenders(txs, es, i, m - 1, es.len() as int)
    }
}

/// Entries of a store: one per transaction, in the same order, ids unique.
pub open spec fn store_wf(txs: Seq<Transaction>, es: Seq<TxEntry>) -> bool {
    &&& txs.len() == es.len()
    &&& forall|i: int| 0 <= i < es.len() ==> (#[trigger] es[i]).txid == txs[i].txid
    &&& forall|i: int, j: int| 0 <= i < j < es.len() ==> es[i].txid != es[j].txid
}

/// The transaction store.
pub struct TxStore {
    txs: Vec<Transaction>,
    entries: Vec<TxEntry>,
    anchors: Vec<(Anchor, Txid)>,
}

impl TxStore {
    pub closed spec fn txs_view(&self) -> Seq<Transaction> {
        self.txs@
    }

    pub closed spec fn entries_view(&self) -> Seq<TxEntry> {
        self.entries@
    }

    pub closed spec fn anchors_view(&self) -> Seq<(Anchor, Txid)> {
        self.anchors@
    }

    pub open spec fn wf(&self) -> bool {
        store_wf(self.txs_view(), self.entries_view())
    }

    /// An empty store.
    pub fn new() -> (r: TxStore)
        ensures
            r.wf(),
            r.txs_view().len() == 0,
            r.entries_view().len() == 0,
            r.anchors_view().len() == 0,
    {
        TxStore { txs: Vec::new(), entries: Vec::new(), anchors: Vec::new() }
    }

    pub fn txs(&self) -> (r: &Vec<Transaction>)
        ensures
            r@ == self.txs_view(),
    {
        &self.txs
    }

    pub fn entries(&self) -> (r: &Vec<TxEntry>)
        ensures
            r@ == self.entries_view(),
    {
        &self.entries
    }

    pub fn anchors(&self) -> (r: &Vec<(Anchor, Txid)>)
        ensures
            r@ == self.anchors_view(),
    {
        &self.anchors
    }

    /// The pairs `(input index, other id)` of the stored transactions other
    /// than `t` that spend an outpoint that `t` spends, by input and then in
    /// store order; empty when `t` is not stored.
    pub fn conflicts_of(&self, t: &Txid) -> (r: Vec<(usize, Txid)>)
        requires
            self.wf(),
        ensures
            r@ == if has_txid(self.entries_view(), *t) {
                let i = crate::status::index_of(self.entries_view(), *t);
                conflicts_through(self.txs_view(), self.entries_view(), i, self.txs_view()[i].input@.len() as int)
            } else {
                seq![]
            },
    {
        let i = match find_entry(&self.entries, t) {
            Some(i) => i,
            None => {
                return Vec::new();
            },
        };
        proof {
            let k = crate::status::index_of(self.entries@, *t);
            assert(0 <= k < self.entries@.len() && self.entries@[k].txid == *t);
            assert(k == i as int);
        }
        let inputs = &self.txs[i].input;
        let mut out: Vec<(usize, Txid)> = Vec::new();
        let mut x: usize = 0;
        while x < inputs.len()
            invariant
                x <= inputs.len(),
                i < self.txs@.len(),
                store_wf(self.txs@, self.entries@),
                inputs@ == self.txs@[i as int].input@,
                out@ == conflicts_through(self.txs@, self.entries@, i as int, x as int),
            decreases inputs.len() - x,
        {
            let ghost base = out@;
            let mut j: usize = 0;
            while j < self.txs.len()
                invariant
                    x < inputs.len(),
                    j <= self.txs.len(),
                    i < self.txs@.len(),
                    store_wf(self.txs@, self.entries@),
                    inputs@ == self.txs@[i as int].input@,
                    out@ == base + spenders(self.txs@, self.entries@, i as int, x as int, j as int),
                decreases self.txs.len() - j,
            {
                if j != i && crate::status::spends_outpoint(&self.txs[j].input, &inputs[x]) {
                    out.push((x, self.entries[j].txid));
                }
                j = j + 1;
            }
            x = x + 1;
        }
        out
    }

    /// Merges an update: new transactions are added if absent, anchors are
    /// united, timestamps are only raised. On an error nothing changes.
    pub fn merge(&mut self, u: TxUpdate) -> (r: Result<(), StoreError>)
        requires
            old(self).wf(),
        ensures
            final(self).wf(),
            ({
                let p = with_txs((old(self).txs_view(), old(self).entries_view()), u.txs@);
                match r {
                    Ok(()) => {
                        &&& refs_known(p.1, &u)
                        &&& final(self).txs_view() == p.0
                        &&& final(self).entries_view()
                            == with_evicteds(with_seens(p.1, u.seen_ats@), u.evicted_ats@)
                        &&& final(self).anchors_view() == with_anchors(old(self).anchors_view(), u.anchors@)
                    },
                    Err(e) => {
                        &&& !refs_known(p.1, &u)
                        &&& e == StoreError::UnknownTx
                        &&& final(self).txs_view() == old(self).txs_view()
                        &&& final(self).entries_view() == old(self).entries_view()
                        &&& final(self).anchors_view() == old(self).anchors_view()
                    },
                }
            }),
    {
        let ghost p = with_txs((self.txs@, self.entries@), u.txs@);
        if !self.refs_known_after(&u) {
            return Err(StoreError::UnknownTx);
        }
        let TxUpdate { txs, anchors, seen_ats, evicted_ats } = u;
        self.add_txs(txs);
        self.add_anchors(&anchors);
        let ghost a1 = self.anchors@;
        let mut k: usize = 0;
        while k < seen_ats.len()
            invariant
                k <= seen_ats.len(),
                store_wf(self.txs@, self.entries@),
                self.txs@ == p.0,
                self.anchors@ == a1,
                self.entries@ == with_seens(p.1, seen_ats@.take(k as int)),
            decreases seen_ats.len() - k,
        {
            self.raise_seen(seen_ats[k].0, seen_ats[k].1);
            assert(seen_ats@.take(k as int + 1).drop_last() =~= seen_ats@.take(k as int));
            k = k + 1;
        }
        assert(seen_ats@.take(k as int) =~= seen_ats@);
        let ghost q = self.entries@;
        let mut k: usize = 0;
        while k < evicted_ats.len()
            invariant
                k <= evicted_ats.len(),
                store_wf(self.txs@, self.entries@),
                self.txs@ == p.0,
                self.anchors@ == a1,
                self.entries@ == with_evicteds(q, evicted_ats@.take(k as int)),
            decreases evicted_ats.len() - k,
        {
            self.raise_evicted(evicted_ats[k].0, evicted_ats[k].1);
            assert(evicted_ats@.take(k as int + 1).drop_last() =~= evicted_ats@.take(k as int));
            k = k + 1;
        }
        assert(evicted_ats@.take(k as int) =~= evicted_ats@);
        Ok(())
    }

    /// Whether every reference of `u` will name a stored transaction once the
    /// new transactions of `u` are added.
    pub fn refs_known_after(&self, u: &TxUpdate) -> (r: bool)
        ensures
            r == refs_known(with_txs((self.txs_view(), self.entries_view()), u.txs@).1, u),
    {
        let ghost es = with_txs((self.txs@, self.entries@), u.txs@).1;
        let mut k: usize = 0;
        while k < u.anchors.len()
            invariant
                k <= u.anchors.len(),
                es == with_txs((self.txs@, self.entries@), u.txs@).1,
                forall|m: int| 0 <= m < k ==> has_txid(es, #[trigger] u.anchors@[m].1),
            decreases u.anchors.len() - k,
        {
            if !self.known_after(u, &u.anchors[k].1) {
                return false;
            }
            k = k + 1;
        }
        let mut k: usize = 0;
        while k < u.seen_ats.len()
            invariant
                k <= u.seen_ats.len(),
                es == with_txs((self.txs@, self.entries@), u.txs@).1,
                forall|m: int| 0 <= m < k ==> has_txid(es, #[trigger] u.seen_ats@[m].0),
            decreases u.seen_ats.len() - k,
        {
            if !self.known_after(u, &u.seen_ats[k].0) {
                return false;
            }
            k = k + 1;
        }
        let mut k: usize = 0;
        while k < u.evicted_ats.len()
            invariant
                k <= u.evicted_ats.len(),
                es == with_txs((self.txs@, self.entries@), u.txs@).1,
                forall|m: int| 0 <= m < k ==> has_txid(es, #[trigger] u.evicted_ats@[m].0),
            decreases u.evicted_ats.len() - k,
        {
            if !self.known_after(u, &u.evicted_ats[k].0) {
                return false;
            }
            k = k + 1;
        }
        true
    }

    /// Whether `t` is stored or among the new transactions of `u`.
    fn known_after(&self, u: &TxUpdate, t: &Txid) -> (r: bool)
        ensures
            r == has_txid(with_txs((self.txs@, self.entries@), u.txs@).1, *t),
    {
        if find_entry(&self.entries, t).is_some() {
            proof { lemma_with_txs_keeps(self.txs@, self.entries@, u.txs@, *t); }
            return true;
        }
        let mut k: usize = 0;
        while k < u.txs.len()
            invariant
                k <= u.txs.len(),
                !has_txid(self.entries@, *t),
                forall|m: int| 0 <= m < k ==> u.txs@[m].txid != *t,
            decreases u.txs.len() - k,
        {
            if digest_eq(&u.txs[k].txid, t) {
                proof { lemma_with_txs_adds(self.txs@, self.entries@, u.txs@, k as int); }
                return true;
            }
            k = k + 1;
        }
        proof { lemma_with_txs_only(self.txs@, self.entries@, u.txs@, *t); }
        false
    }

    /// Adds the transactions whose id is not stored yet, in order.
    fn add_txs(&mut self, txs: Vec<Transaction>)
        requires
            store_wf(old(self).txs@, old(self).entries@),
        ensures
            store_wf(final(self).txs@, final(self).entries@),
            (final(self).txs@, final(self).entries@) == with_txs((old(self).txs@, old(self).entries@), txs@),
            final(self).anchors@ == old(self).anchors@,
    {
        let ghost start = (self.txs@, self.entries@);
        let ghost all = txs@;
        let n: usize = txs.len();
        let mut rest = txs;
        let mut k: usize = 0;
        while rest.len() > 0
            invariant
                k + rest.len() == all.len(),
                all.len() == n,
                rest@ == all.skip(k as int),
                store_wf(self.txs@, self.entries@),
                (self.txs@, self.entries@) == with_txs(start, all.take(k as int)),
                self.anchors@ == old(self).anchors@,
            decreases rest.len(),
        {
            let t = rest.remove(0);
            assert(all.take(k as int + 1).drop_last() =~= all.take(k as int));
            assert(t == all[k as int]);
            if find_entry(&self.entries, &t.txid).is_none() {
                let e = TxEntry { txid: t.txid, last_seen: None, evicted_at: None };
                self.txs.push(t);
                self.entries.push(e);
            }
            k = k + 1;
            assert(rest@ =~= all.skip(k as int));
        }
        assert(all.take(k as int) =~= all);
    }

    /// Adds the anchors not held yet, in order.
    fn add_anchors(&mut self, new: &Vec<(Anchor, Txid)>)
        ensures
            final(self).txs@ == old(self).txs@,
            final(self).entries@ == old(self).entries@,
            final(self).anchors@ == with_anchors(old(self).anchors@, new@),
    {
        let mut k: usize = 0;
        while k < new.len()
            invariant
                k <= new.len(),
                self.txs@ == old(self).txs@,
                self.entries@ == old(self).entries@,
                self.anchors@ == with_anchors(old(self).anchors@, new@.take(k as int)),
            decreases new.len() - k,
        {
            let a = new[k];
            assert(new@.take(k as int + 1).drop_last() =~= new@.take(k as int));
            if !has_anchor(&self.anchors, &a) {
                self.anchors.push(a);
            }
            k = k + 1;
        }
        assert(new@.take(k as int) =~= new@);
    }

    fn raise_seen(&mut self, t: Txid, ts: u64)
        requires
            store_wf(old(self).txs@, old(self).entries@),
        ensures
            store_wf(final(self).txs@, final(self).entries@),
            final(self).txs@ == old(self).txs@,
            final(self).anchors@ == old(self).anchors@,
            final(self).entries@ == with_seen(old(self).entries@, t, ts),
    {
        let mut i: usize = 0;
        while i < self.entries.len()
            invariant
                i <= self.entries.len(),
                self.txs@ == old(self).txs@,
                self.anchors@ == old(self).anchors@,
                self.entries@.len() == old(self).entries@.len(),
                forall|m: int| 0 <= m < i ==> self.entries@[m] == with_seen(old(self).entries@, t, ts)[m],
                forall|m: int| i <= m < self.entries@.len() ==> self.entries@[m] == old(self).entries@[m],
            decreases self.entries.len() - i,
        {
            let mut e = self.entries[i];
            if digest_eq(&e.txid, &t) {
                e.last_seen = raise_opt(e.last_seen, ts);
                self.entries.set(i, e);
            }
            i = i + 1;
        }
        assert(self.entries@ =~= with_seen(old(self).entries@, t, ts));
    }

    fn raise_evicted(&mut self, t: Txid, ts: u64)
        requires
            store_wf(old(self).txs@, old(self).entries@),
        ensures
            store_wf(final(self).txs@, final(self).entries@),
            final(self).txs@ == old(self).txs@,
            final(self).anchors@ == old(self).anchors@,
            final(self).entries@ == with_evicted(old(self).entries@, t, ts),
    {
        let mut i: usize = 0;
        while i < self.entries.len()
            invariant
                i <= self.entries.len(),
                self.txs@ == old(self).txs@,
                self.anchors@ == old(self).anchors@,
                self.entries@.len() == old(self).entries@.len(),
                forall|m: int| 0 <= m < i ==> self.entries@[m] == with_evicted(old(self).entries@, t, ts)[m],
                forall|m: int| i <= m < self.entries@.len() ==> self.entries@[m] == old(self).entries@[m],
            decreases self.entries.len() - i,
        {
            let mut e = self.entries[i];
            if digest_eq(&e.txid, &t) {
                e.evicted_at = raise_opt(e.evicted_at, ts);
                self.entries.set(i, e);
            }
            i = i + 1;
        }
        assert(self.entries@ =~= with_evicted(old(self).entries@, t, ts));
    }
}

fn raise_opt(o: Option<u64>, t: u64) -> (r: Option<u64>)
    ensures
        r == raised(o, t),
{
    match o {
        Some(x) => Some(if x >= t { x } else { t }),
        None => Some(t),
    }
}

/// The position of the entry for `t`, if any.
pub fn find_entry(es: &Vec<TxEntry>, t: &Txid) -> (r: Option<usize>)
    ensures
        match r {
            Some(i) => i < es@.len() && es@[i as int].txid == *t,
            None => !has_txid(es@, *t),
        },
{
    let mut i: usize = 0;
    while i < es.len()
        invariant
            i <= es.len(),
            forall|m: int| 0 <= m < i ==> es@[m].txid != *t,
        decreases es.len() - i,
    {
        if digest_eq(&es[i].txid, t) {
            return Some(i);
        }
        i = i + 1;
    }
    None
}

fn same_anchor(a: &(Anchor, Txid), b: &(Anchor, Txid)) -> (r: bool)
    ensures
        r == (*a == *b),
{
    crate::chain::same_block(&a.0.block_id, &b.0.block_id) && a.0.confirmation_time
        == b.0.confirmation_time && digest_eq(&a.1, &b.1)
}

fn has_anchor(s: &Vec<(Anchor, Txid)>, a: &(Anchor, Txid)) -> (r: bool)
    ensures
        r == s@.contains(*a),
{
    let mut i: usize = 0;
    while i < s.len()
        invariant
            i <= s.len(),
            forall|m: int| 0 <= m < i ==> s@[m] != *a,
        decreases s.len() - i,
    {
        if same_anchor(&s[i], a) {
            assert(s@[i as int] == *a);
            return true;
        }
        i = i + 1;
    }
    false
}

/// What a list of timestamps raises `o` to, for transaction `t`.
pub open spec fn raised_all(o: Option<u64>, new: Seq<(Txid, u64)>, t: Txid) -> Option<u64>
    decreases new.len(),
{
    if new.len() == 0 {
        o
    } else {
        let r = raised_all(o, new.drop_last(), t);
        if new.last().0 == t {
            raised(r, new.last().1)
        } else {
            r
        }
    }
}

proof fn lemma_with_seens_at(es: Seq<TxEntry>, new: Seq<(Txid, u64)>)
    ensures
        with_seens(es, new).len() == es.len(),
        forall|i: int| 0 <= i < es.len() ==> #[trigger] with_seens(es, new)[i] == (TxEntry {
            last_seen: raised_all(es[i].last_seen, new, es[i].txid),
            ..es[i]
        }),
    decreases new.len(),
{
    if new.len() > 0 {
        lemma_with_seens_at(es, new.drop_last());
    }
}

proof fn lemma_with_evicteds_at(es: Seq<TxEntry>, new: Seq<(Txid, u64)>)
    ensures
        with_evicteds(es, new).len() == es.len(),
        forall|i: int| 0 <= i < es.len() ==> #[trigger] with_evicteds(es, new)[i] == (TxEntry {
            evicted_at: raised_all(es[i].evicted_at, new, es[i].txid),
            ..es[i]
        }),
    decreases new.len(),
{
    if new.len() > 0 {
        lemma_with_evicteds_at(es, new.drop_last());
    }
}

/// Raising to the same timestamps twice is raising once.
proof fn lemma_raised_all_twice(o: Option<u64>, new: Seq<(Txid, u64)>, t: Txid)
    ensures
        raised_all(raised_all(o, new, t), new, t) == raised_all(o, new, t),
        forall|k: int| 0 <= k < new.len() && new[k].0 == t ==> (raised_all(o, new, t) matches Some(x) && x >= new[k].1),
        o matches Some(y) ==> (raised_all(o, new, t) matches Some(x) && x >= y),
    decreases new.len(),
{
    let r = raised_all(o, new, t);
    if new.len() > 0 {
        let d = new.drop_last();
        lemma_raised_all_twice(o, d, t);
        assert forall|k: int| 0 <= k < new.len() && new[k].0 == t implies (r matches Some(x) && x >= new[k].1) by {
            if k < new.len() - 1 {
                assert(d[k] == new[k]);
            }
        }
    }
    lemma_raised_all_above(r, new, t);
}

proof fn lemma_raised_all_above(x: Option<u64>, new: Seq<(Txid, u64)>, t: Txid)
    requires
        forall|k: int| 0 <= k < new.len() && new[k].0 == t ==> (x matches Some(y) && y >= new[k].1),
    ensures
        raised_all(x, new, t) == x,
    decreases new.len(),
{
    if new.len() > 0 {
        lemma_raised_all_above(x, new.drop_last(), t);
    }
}

/// Merging the same update into its own result changes nothing.
pub proof fn lemma_merge_idempotent(
    txs: Seq<Transaction>,
    es: Seq<TxEntry>,
    anchors: Seq<(Anchor, Txid)>,
    u: &TxUpdate,
)
    requires
        refs_known(with_txs((txs, es), u.txs@).1, u),
    ensures
        ({
            let p = with_txs((txs, es), u.txs@);
            let es1 = with_evicteds(with_seens(p.1, u.seen_ats@), u.evicted_ats@);
            let a1 = with_anchors(anchors, u.anchors@);
            let q = with_txs((p.0, es1), u.txs@);
            &&& q == (p.0, es1)
            &&& refs_known(q.1, u)
            &&& with_evicteds(with_seens(q.1, u.seen_ats@), u.evicted_ats@) == es1
            &&& with_anchors(a1, u.anchors@) == a1
        }),
{
    let p = with_txs((txs, es), u.txs@);
    let es0 = p.1;
    let mid = with_seens(es0, u.seen_ats@);
    let es1 = with_evicteds(mid, u.evicted_ats@);
    lemma_with_seens_at(es0, u.seen_ats@);
    lemma_with_evicteds_at(mid, u.evicted_ats@);
    assert forall|t: Txid| has_txid(es0, t) implies has_txid(es1, t) by {
        let i = choose|i: int| 0 <= i < es0.len() && es0[i].txid == t;
        assert(mid[i].txid == t);
        assert(es1[i].txid == t);
    }
    assert forall|k: int| 0 <= k < u.txs@.len() implies has_txid(es1, #[trigger] u.txs@[k].txid) by {
        lemma_with_txs_adds(txs, es, u.txs@, k);
    }
    lemma_with_txs_present(p.0, es1, u.txs@);
    let mid2 = with_seens(es1, u.seen_ats@);
    lemma_with_seens_at(es1, u.seen_ats@);
    lemma_with_evicteds_at(mid2, u.evicted_ats@);
    assert forall|i: int| 0 <= i < es1.len() implies #[trigger] with_evicteds(mid2, u.evicted_ats@)[i] == es1[i] by {
        lemma_raised_all_twice(es0[i].last_seen, u.seen_ats@, es0[i].txid);
        lemma_raised_all_twice(mid[i].evicted_at, u.evicted_ats@, es0[i].txid);
    }
    assert(with_evicteds(mid2, u.evicted_ats@) =~= es1);
    lemma_with_anchors_all(anchors, u.anchors@);
    lemma_with_anchors_present(with_anchors(anchors, u.anchors@), u.anchors@);
}

/// Raising timestamps keeps every stored id.
pub proof fn lemma_raising_keeps_ids(es: Seq<TxEntry>, seen: Seq<(Txid, u64)>, evicted: Seq<(Txid, u64)>, t: Txid)
    requires
        has_txid(es, t),
    ensures
        has_txid(with_evicteds(with_seens(es, seen), evicted), t),
{
    let mid = with_seens(es, seen);
    lemma_with_seens_at(es, seen);
    lemma_with_evicteds_at(mid, evicted);
    let i = choose|i: int| 0 <= i < es.len() && es[i].txid == t;
    assert(mid[i].txid == t);
    assert(with_evicteds(mid, evicted)[i].txid == t);
}

proof fn lemma_with_txs_present(txs: Seq<Transaction>, es: Seq<TxEntry>, new: Seq<Transaction>)
    requires
        forall|k: int| 0 <= k < new.len() ==> has_txid(es, #[trigger] new[k].txid),
    ensures
        with_txs((txs, es), new) == (txs, es),
    decreases new.len(),
{
    if new.len() > 0 {
        lemma_with_txs_present(txs, es, new.drop_last());
        assert(has_txid(es, new[new.len() - 1].txid));
    }
}

proof fn lemma_with_anchors_all(s: Seq<(Anchor, Txid)>, new: Seq<(Anchor, Txid)>)
    ensures
        forall|k: int| 0 <= k < new.len() ==> with_anchors(s, new).contains(#[trigger] new[k]),
    decreases new.len(),
{
    if new.len() > 0 {
        let d = new.drop_last();
        lemma_with_anchors_all(s, d);
        let r = with_anchors(s, d);
        assert forall|k: int| 0 <= k < new.len() implies with_anchors(s, new).contains(#[trigger] new[k]) by {
            if k < new.len() - 1 {
                assert(r.contains(d[k]));
                let x = choose|x: int| 0 <= x < r.len() && r[x] == d[k];
                if !r.contains(new.last()) {
                    assert(with_anchors(s, new)[x] == d[k]);
                }
            } else if !r.contains(new.last()) {
                assert(with_anchors(s, new)[r.len() as int] == new.last());
            }
        }
    }
}

proof fn lemma_with_anchors_present(s: Seq<(Anchor, Txid)>, new: Seq<(Anchor, Txid)>)
    requires
        forall|k: int| 0 <= k < new.len() ==> s.contains(#[trigger] new[k]),
    ensures
        with_anchors(s, new) == s,
    decreases new.len(),
{
    if new.len() > 0 {
        lemma_with_anchors_present(s, new.drop_last());
        assert(s.contains(new[new.len() - 1]));
    }
}

pub proof fn lemma_with_txs_keeps(txs: Seq<Transaction>, es: Seq<TxEntry>, new: Seq<Transaction>, t: Txid)
    requires
        has_txid(es, t),
    ensures
        has_txid(with_txs((txs, es), new).1, t),
    decreases new.len(),
{
    if new.len() > 0 {
        lemma_with_txs_keeps(txs, es, new.drop_last(), t);
        let p = with_txs((txs, es), new.drop_last());
        let i = choose|i: int| 0 <= i < p.1.len() && p.1[i].txid == t;
        if !has_txid(p.1, new.last().txid) {
            assert(with_txs((txs, es), new).1[i].txid == t);
        }
    }
}

pub proof fn lemma_with_txs_adds(txs: Seq<Transaction>, es: Seq<TxEntry>, new: Seq<Transaction>, k: int)
    requires
        0 <= k < new.len(),
    ensures
        has_txid(with_txs((txs, es), new).1, new[k].txid),
    decreases new.len(),
{
    let p = with_txs((txs, es), new.drop_last());
    if k == new.len() - 1 {
        if !has_txid(p.1, new[k].txid) {
            assert(with_txs((txs, es), new).1.last().txid == new[k].txid);
        }
    } else {
        lemma_with_txs_adds(txs, es, new.drop_last(), k);
        let i = choose|i: int| 0 <= i < p.1.len() && p.1[i].txid == new[k].txid;
        if !has_txid(p.1, new.last().txid) {
            assert(with_txs((txs, es), new).1[i].txid == new[k].txid);
        }
    }
}

proof fn lemma_with_txs_only(txs: Seq<Transaction>, es: Seq<TxEntry>, new: Seq<Transaction>, t: Txid)
    requires
        !has_txid(es, t),
        forall|m: int| 0 <= m < new.len() ==> new[m].txid != t,
    ensures
        !has_txid(with_txs((txs, es), new).1, t),
    decreases new.len(),
{
    if new.len() > 0 {
        lemma_with_txs_only(txs, es, new.drop_last(), t);
        let p = with_txs((txs, es), new.drop_last());
        assert(new.last().txid != t);
        if !has_txid(p.1, new.last().txid) {
            let q = with_txs((txs, es), new).1;
            assert(q == p.1.push(fresh_entry(new.last().txid)));
            assert forall|i: int| 0 <= i < q.len() implies q[i].txid != t by {
                if i < p.1.len() {
                    assert(q[i] == p.1[i]);
                }
            }
        }
    }
}

} // verus!
