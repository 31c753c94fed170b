//! One atomic update of the wallet and the lifecycle events it causes.
use vstd::prelude::*;
use crate::chain::{
    BlockId, ChainError, Hash32, LocalChain, connects, chain_after, divergence, has_block, seq_has_block,
};
use crate::copied;
use crate::status::{CanonicalStatus, Resolution, status, status_in, spends_outpoint};
use crate::store::{
    Anchor, OutPoint, StoreError, Transaction, TxEntry, TxStore, TxUpdate, Txid, find_entry, has_txid,
    same_tx, with_anchors, with_evicteds, with_seens, with_txs, refs_known,
};

verus! {

/// What changed for the wallet.
#[derive(Clone, Debug, PartialEq, Eq)]
pub enum WalletEvent {
    /// The highest block changed.
    ChainTipChanged { old_tip: BlockId, new_tip: BlockId },
    /// The transaction is now confirmed by `block_time`; `old_block_time` is
    /// the anchor it was confirmed by before, if any.
    TxConfirmed { txid: Txid, tx: Transaction, block_time: Anchor, old_block_time: Option<Anchor> },
    /// The transaction is now unconfirmed; `old_block_time` is the anchor it
    /// was confirmed by before, if any.
    TxUnconfirmed { txid: Txid, tx: Transaction, old_block_time: Option<Anchor> },
    /// The transaction was superseded; `conflicts` pairs each of its inputs
    /// that the winner spends too with the winner's id.
    TxReplaced { txid: Txid, conflicts: Vec<(usize, Txid)> },
    /// The transaction left the unconfirmed pool with no transaction replacing it.
    TxDropped { txid: Txid },
}

/// New facts about the chain and the transactions, applied together.
pub struct Update {
    /// A chain suffix to apply, if any.
    pub chain: Option<Vec<BlockId>>,
    pub tx_update: TxUpdate,
}

/// Why an update was refused; the wallet is then left as it was.
#[derive(Clone, Copy, Debug, PartialEq, Eq)]
pub enum ApplyError {
    Chain(ChainError),
    Store(StoreError),
    /// An anchor names a block that neither the chain nor the suffix holds.
    InvalidAnchor,
}

/// The input positions of `a` that `b` spends as well, each paired with `w`.
pub open spec fn shared_inputs(a: Seq<OutPoint>, b: Seq<OutPoint>, w: Txid) -> Seq<(usize, Txid)>
    decreases a.len(),
{
    if a.len() == 0 {
        seq![]
    } else {
        let r = shared_inputs(a.drop_last(), b, w);
        if b.contains(a.last()) {
            r.push(((a.len() - 1) as usize, w))
        } else {
            r
        }
    }
}

/// The stored transaction with id `t`.
pub open spec fn tx_of(store: TxStore, t: Txid) -> Transaction {
    store.txs_view()[crate::status::index_of(store.entries_view(), t)]
}

/// The event that the change of status from `before` to `after` of
/// transaction `t` calls for, as a predicate on a candidate event.
pub open spec fn event_for(ev: WalletEvent, t: Txid, before: Resolution, after: Resolution, store: TxStore) -> bool {
    match ev {
        WalletEvent::TxConfirmed { txid, tx, block_time, old_block_time } => {
            &&& txid == t
            &&& same_tx(tx, tx_of(store, t))
            &&& after.status == CanonicalStatus::Confirmed(block_time)
            &&& before.status != CanonicalStatus::Confirmed(block_time)
            &&& old_block_time == match before.status {
                CanonicalStatus::Confirmed(a) => Some(a),
                _ => None,
            }
        },
        WalletEvent::TxUnconfirmed { txid, tx, old_block_time } => {
            &&& txid == t
            &&& same_tx(tx, tx_of(store, t))
            &&& match before.status {
                CanonicalStatus::Confirmed(a) => !(after.status is Confirmed) && old_block_time == Some(a),
                CanonicalStatus::Unknown | CanonicalStatus::Evicted => after.status is Unconfirmed
                    && old_block_time is None,
                _ => false,
            }
        },
        WalletEvent::TxReplaced { txid, conflicts } => {
            &&& txid == t
            &&& (before.status is Unconfirmed || before.status is Unknown)
            &&& after.status is Evicted
            &&& after.winner is Some
            &&& conflicts@ == shared_inputs(
                tx_of(store, t).input@,
                tx_of(store, after.winner->0).input@,
                after.winner->0,
            )
        },
        WalletEvent::TxDropped { txid } => {
            &&& txid == t
            &&& before.status is Unconfirmed
            &&& after.status is Evicted
            &&& after.winner is None
        },
        WalletEvent::ChainTipChanged { .. } => false,
    }
}

/// After the first `n0` events, each event is the one that the change of
/// status of an affected transaction calls for; each change that calls for
/// one has its event; the events come ordered by rank, confirmations by
/// rising height, and each replacement after the events of its winner.
#[verifier::opaque]
pub open spec fn events_describe(
    evs: Seq<WalletEvent>,
    n0: int,
    aff: Seq<Txid>,
    c0: LocalChain,
    s0: TxStore,
    c1: LocalChain,
    s1: TxStore,
) -> bool {
    &&& forall|i: int| n0 <= i < evs.len() ==> explained(#[trigger] evs[i], aff, c0, s0, c1, s1)
    &&& forall|k: int|
        0 <= k < aff.len() && event_due(
            status_in(c0, s0, aff[k]),
            status_in(c1, s1, aff[k]),
        ) ==> exists|i: int| n0 <= i < evs.len() && #[trigger] event_txid(evs[i]) == Some(aff[k])
    &&& forall|i: int| n0 <= i < evs.len() ==> !(#[trigger] evs[i] is ChainTipChanged)
    &&& distinct_ids(evs.skip(n0))
    &&& well_ordered(evs.skip(n0))
    &&& replacements_follow_winners(evs)
}

/// `e` is the event that the change of status of one of `aff` calls for.
pub open spec fn explained(e: WalletEvent, aff: Seq<Txid>, c0: LocalChain, s0: TxStore, c1: LocalChain, s1: TxStore) -> bool {
    exists|k: int|
        0 <= k < aff.len() && #[trigger] event_for(e, aff[k], status_in(c0, s0, aff[k]), status_in(c1, s1, aff[k]), s1)
}

/// Whether the change from `before` to `after` calls for an event.
pub open spec fn event_due(before: Resolution, after: Resolution) -> bool {
    match after.status {
        CanonicalStatus::Confirmed(b) => before.status != CanonicalStatus::Confirmed(b),
        _ => match before.status {
            CanonicalStatus::Confirmed(_) => true,
            CanonicalStatus::Unconfirmed(_) => after.status is Evicted,
            CanonicalStatus::Unknown => after.status is Unconfirmed || (after.status is Evicted
                && after.winner is Some),
            CanonicalStatus::Evicted => after.status is Unconfirmed,
        },
    }
}

pub open spec fn event_txid(ev: WalletEvent) -> Option<Txid> {
    match ev {
        WalletEvent::TxConfirmed { txid, .. } => Some(txid),
        WalletEvent::TxUnconfirmed { txid, .. } => Some(txid),
        WalletEvent::TxReplaced { txid, .. } => Some(txid),
        WalletEvent::TxDropped { txid } => Some(txid),
        WalletEvent::ChainTipChanged { .. } => None,
    }
}

/// Confirmations come first, then the other changes, then replacements.
pub open spec fn rank(ev: WalletEvent) -> int {
    match ev {
        WalletEvent::ChainTipChanged { .. } => 0,
        WalletEvent::TxConfirmed { .. } => 1,
        WalletEvent::TxUnconfirmed { .. } | WalletEvent::TxDropped { .. } => 2,
        WalletEvent::TxReplaced { .. } => 3,
    }
}

pub open spec fn confirmed_height(ev: WalletEvent) -> int {
    match ev {
        WalletEvent::TxConfirmed { block_time, .. } => block_time.block_id.height as int,
        _ => 0,
    }
}

/// Events by rank, and confirmations by rising height.
pub open spec fn well_ordered(evs: Seq<WalletEvent>) -> bool {
    forall|i: int, j: int|
        0 <= i < j < evs.len() ==> rank(evs[i]) < rank(evs[j]) || (rank(evs[i]) == rank(evs[j])
            && confirmed_height(evs[i]) <= confirmed_height(evs[j]))
}

/// Each replacement comes after the confirmation or unconfirmation of every
/// transaction that it lists as the winner.
pub open spec fn replacements_follow_winners(evs: Seq<WalletEvent>) -> bool {
    forall|i: int, j: int, m: int|
        #![trigger evs[i], evs[j], evs[j]->TxReplaced_conflicts@[m]]
        0 <= i < evs.len() && 0 <= j < evs.len() && evs[j] is TxReplaced && 0 <= m
            < evs[j]->TxReplaced_conflicts@.len() && (evs[i] is TxConfirmed || evs[i] is TxUnconfirmed)
            && event_txid(evs[i]) == Some(evs[j]->TxReplaced_conflicts@[m].1) ==> i < j
}

pub open spec fn ids_of_txs(s: Seq<Transaction>) -> Seq<Txid> {
    Seq::new(s.len(), |i: int| s[i].txid)
}

pub open spec fn ids_of_anchors(s: Seq<(Anchor, Txid)>) -> Seq<Txid> {
    Seq::new(s.len(), |i: int| s[i].1)
}

pub open spec fn ids_of_times(s: Seq<(Txid, u64)>) -> Seq<Txid> {
    Seq::new(s.len(), |i: int| s[i].0)
}

/// Whether `t` has an anchor at height `h` or above.
pub open spec fn anchored_from(anchors: Seq<(Anchor, Txid)>, t: Txid, h: u32) -> bool {
    exists|k: int| 0 <= k < anchors.len() && anchors[k].1 == t && anchors[k].0.block_id.height >= h
}

/// The stored transactions anchored at height `h` or above, in store order.
pub open spec fn anchored_ids(es: Seq<TxEntry>, anchors: Seq<(Anchor, Txid)>, h: u32) -> Seq<Txid>
    decreases es.len(),
{
    if es.len() == 0 {
        seq![]
    } else {
        let r = anchored_ids(es.drop_last(), anchors, h);
        if anchored_from(anchors, es.last().txid, h) {
            r.push(es.last().txid)
        } else {
            r
        }
    }
}

/// Each id once, at its first place.
pub open spec fn dedup(s: Seq<Txid>) -> Seq<Txid>
    decreases s.len(),
{
    if s.len() == 0 {
        seq![]
    } else {
        let r = dedup(s.drop_last());
        if r.contains(s.last()) {
            r
        } else {
            r.push(s.last())
        }
    }
}

/// The ids that the chain suffix of `u` puts in question: those anchored at
/// or above the height from which it replaces blocks, when it does.
pub open spec fn reorg_ids(c: Seq<BlockId>, store: TxStore, u: &Update) -> Seq<Txid> {
    match u.chain {
        Some(s) => match divergence(c, s@) {
            Some(h) => if h <= c.last().height {
                anchored_ids(store.entries_view(), store.anchors_view(), h)
            } else {
                seq![]
            },
            None => seq![],
        },
        None => seq![],
    }
}

/// The transactions whose status an update may change, in the order in
/// which they first appear in it.
pub open spec fn affected(c: Seq<BlockId>, store: TxStore, u: &Update) -> Seq<Txid> {
    dedup(affected_keys(c, store, u))
}

/// The ids that an update names, then those its suffix puts in question.
pub open spec fn affected_keys(c: Seq<BlockId>, store: TxStore, u: &Update) -> Seq<Txid> {
    let tu = &u.tx_update;
    ids_of_txs(tu.txs@) + ids_of_anchors(tu.anchors@) + ids_of_times(tu.seen_ats@) + ids_of_times(
        tu.evicted_ats@,
    ) + reorg_ids(c, store, u)
}

pub open spec fn no_dups(s: Seq<Txid>) -> bool {
    forall|i: int, j: int| 0 <= i < j < s.len() ==> s[i] != s[j]
}

/// No two events name the same transaction.
pub open spec fn distinct_ids(evs: Seq<WalletEvent>) -> bool {
    forall|i: int, j: int| 0 <= i < j < evs.len() ==> event_txid(evs[i]) != event_txid(evs[j])
}

pub open spec fn txid_among(e: WalletEvent, aff: Seq<Txid>, k: int) -> bool {
    exists|m: int| 0 <= m < k && event_txid(e) == Some(#[trigger] aff[m])
}

/// Every anchor of `u` names a block of `c` or of the suffix.
pub open spec fn anchors_valid(c: Seq<BlockId>, u: &Update) -> bool {
    forall|k: int|
        0 <= k < u.tx_update.anchors@.len() ==> has_block(c, #[trigger] u.tx_update.anchors@[k].0.block_id)
            || match u.chain {
            Some(s) => has_block(s@, u.tx_update.anchors@[k].0.block_id),
            None => false,
        }
}

pub open spec fn chain_ok(c: Seq<BlockId>, u: &Update) -> bool {
    match u.chain {
        Some(s) => connects(c, s@),
        None => true,
    }
}

pub open spec fn new_chain(c: Seq<BlockId>, u: &Update) -> Seq<BlockId> {
    match u.chain {
        Some(s) => chain_after(c, s@),
        None => c,
    }
}

/// A wallet: its chain and its transactions.
pub struct Wallet {
    chain: LocalChain,
    store: TxStore,
}

impl Wallet {
    pub closed spec fn chain_view(&self) -> LocalChain {
        self.chain
    }

    pub closed spec fn store_view(&self) -> TxStore {
        self.store
    }

    pub open spec fn wf(&self) -> bool {
        self.chain_view().wf() && self.store_view().wf()
    }

    /// A wallet with the genesis block alone and no transactions.
    pub fn new(genesis_hash: Hash32) -> (r: Wallet)
        ensures
            r.wf(),
            r.chain_view()@ == seq![BlockId { height: 0, hash: genesis_hash }],
            r.store_view().txs_view().len() == 0,
            r.store_view().anchors_view().len() == 0,
    {
        Wallet { chain: LocalChain::new(genesis_hash), store: TxStore::new() }
    }

    pub fn local_chain(&self) -> (r: &LocalChain)
        ensures
            *r == self.chain_view(),
    {
        &self.chain
    }

    pub fn tx_store(&self) -> (r: &TxStore)
        ensures
            *r == self.store_view(),
    {
        &self.store
    }

    /// Whether every anchor of `u` names a block of the chain or of its suffix.
    fn anchors_known(&self, u: &Update) -> (r: bool)
        ensures
            r == anchors_valid(self.chain@, u),
    {
        let anchors = &u.tx_update.anchors;
        let mut k: usize = 0;
        while k < anchors.len()
            invariant
                k <= anchors.len(),
                anchors@ == u.tx_update.anchors@,
                forall|m: int|
                    0 <= m < k ==> has_block(self.chain@, #[trigger] anchors@[m].0.block_id) || match u.chain {
                        Some(s) => has_block(s@, anchors@[m].0.block_id),
                        None => false,
                    },
            decreases anchors.len() - k,
        {
            let b = anchors[k].0.block_id;
            let in_suffix = match &u.chain {
                Some(s) => seq_has_block(s, &b),
                None => false,
            };
            if !self.chain.contains(&b) && !in_suffix {
                return false;
            }
            k = k + 1;
        }
        true
    }

    /// The ids that `u` may change the status of, each once, in order of first appearance.
    fn affected_ids(&self, u: &Update) -> (r: Vec<Txid>)
        requires
            self.wf(),
        ensures
            r@ == affected(self.chain@, self.store, u),
    {
        let tu = &u.tx_update;
        let mut keys: Vec<Txid> = Vec::new();
        let mut k: usize = 0;
        while k < tu.txs.len()
            invariant
                k <= tu.txs.len(),
                keys@ == ids_of_txs(tu.txs@).take(k as int),
            decreases tu.txs.len() - k,
        {
            keys.push(tu.txs[k].txid);
            k = k + 1;
            assert(keys@ =~= ids_of_txs(tu.txs@).take(k as int));
        }
        assert(keys@ =~= ids_of_txs(tu.txs@));
        let ghost g1 = keys@;
        let mut k: usize = 0;
        while k < tu.anchors.len()
            invariant
                k <= tu.anchors.len(),
                keys@ == g1 + ids_of_anchors(tu.anchors@).take(k as int),
            decreases tu.anchors.len() - k,
        {
            keys.push(tu.anchors[k].1);
            k = k + 1;
            assert(keys@ =~= g1 + ids_of_anchors(tu.anchors@).take(k as int));
        }
        assert(keys@ =~= g1 + ids_of_anchors(tu.anchors@));
        let ghost g2 = keys@;
        let mut k: usize = 0;
        while k < tu.seen_ats.len()
            invariant
                k <= tu.seen_ats.len(),
                keys@ == g2 + ids_of_times(tu.seen_ats@).take(k as int),
            decreases tu.seen_ats.len() - k,
        {
            keys.push(tu.seen_ats[k].0);
            k = k + 1;
            assert(keys@ =~= g2 + ids_of_times(tu.seen_ats@).take(k as int));
        }
        assert(keys@ =~= g2 + ids_of_times(tu.seen_ats@));
        let ghost g3 = keys@;
        let mut k: usize = 0;
        while k < tu.evicted_ats.len()
            invariant
                k <= tu.evicted_ats.len(),
                keys@ == g3 + ids_of_times(tu.evicted_ats@).take(k as int),
            decreases tu.evicted_ats.len() - k,
        {
            keys.push(tu.evicted_ats[k].0);
            k = k + 1;
            assert(keys@ =~= g3 + ids_of_times(tu.evicted_ats@).take(k as int));
        }
        assert(keys@ =~= g3 + ids_of_times(tu.evicted_ats@));
        let ghost g4 = keys@;
        let reorged = self.reorged_ids(u);
        let mut k: usize = 0;
        while k < reorged.len()
            invariant
                k <= reorged.len(),
                keys@ == g4 + reorged@.take(k as int),
            decreases reorged.len() - k,
        {
            keys.push(reorged[k]);
            k = k + 1;
            assert(keys@ =~= g4 + reorged@.take(k as int));
        }
        assert(keys@ =~= g4 + reorged@);
        let mut out: Vec<Txid> = Vec::new();
        let mut k: usize = 0;
        while k < keys.len()
            invariant
                k <= keys.len(),
                out@ == dedup(keys@.take(k as int)),
            decreases keys.len() - k,
        {
            assert(keys@.take(k as int + 1).drop_last() =~= keys@.take(k as int));
            if !contains_id(&out, &keys[k]) {
                out.push(keys[k]);
            }
            k = k + 1;
        }
        assert(keys@.take(k as int) =~= keys@);
        out
    }

    /// The stored ids that the chain suffix of `u` puts in question.
    fn reorged_ids(&self, u: &Update) -> (r: Vec<Txid>)
        requires
            self.wf(),
        ensures
            r@ == reorg_ids(self.chain@, self.store, u),
    {
        let s = match &u.chain {
            Some(s) => s,
            None => {
                return Vec::new();
            },
        };
        let h = match self.chain.divergence_height(s) {
            Some(h) => h,
            None => {
                return Vec::new();
            },
        };
        if h > self.chain.tip().height {
            return Vec::new();
        }
        let es = self.store.entries();
        let anchors = self.store.anchors();
        let mut out: Vec<Txid> = Vec::new();
        let mut k: usize = 0;
        while k < es.len()
            invariant
                k <= es.len(),
                out@ == anchored_ids(es@.take(k as int), anchors@, h),
            decreases es.len() - k,
        {
            assert(es@.take(k as int + 1).drop_last() =~= es@.take(k as int));
            if anchored_at_or_above(anchors, &es[k].txid, h) {
                out.push(es[k].txid);
            }
            k = k + 1;
        }
        assert(es@.take(k as int) =~= es@);
        out
    }

    /// The status of each id of `ids`.
    fn statuses(&self, ids: &Vec<Txid>) -> (r: Vec<Resolution>)
        requires
            self.wf(),
        ensures
            r.len() == ids.len(),
            forall|k: int| 0 <= k < ids.len() ==> r@[k] == status_in(self.chain, self.store, #[trigger] ids@[k]),
    {
        let mut r: Vec<Resolution> = Vec::new();
        let mut k: usize = 0;
        while k < ids.len()
            invariant
                k <= ids.len(),
                self.wf(),
                r.len() == k,
                forall|m: int| 0 <= m < k ==> r@[m] == status_in(self.chain, self.store, #[trigger] ids@[m]),
            decreases ids.len() - k,
        {
            r.push(status(&ids[k], &self.chain, &self.store));
            k = k + 1;
        }
        r
    }

    /// The event that the change of status of `t` from `b` to `a` calls for.
    fn event_of(&self, t: &Txid, b: &Resolution, a: &Resolution) -> (r: Option<WalletEvent>)
        requires
            self.wf(),
            a.winner matches Some(w) ==> has_txid(self.store.entries_view(), w),
        ensures
            r is Some <==> (event_due(*b, *a) && has_txid(self.store.entries_view(), *t)),
            r matches Some(e) ==> event_for(e, *t, *b, *a, self.store) && event_txid(e) == Some(*t)
                && rank(e) >= 1,
    {
        if !event_due_exec(b, a) {
            return None;
        }
        let es = self.store.entries();
        let txs = self.store.txs();
        let i = match find_entry(es, t) {
            Some(i) => i,
            None => {
                return None;
            },
        };
        proof {
            let k = crate::status::index_of(es@, *t);
            assert(0 <= k < es@.len() && es@[k].txid == *t);
        }
        let tx = copy_tx(&txs[i]);
        match a.status {
            CanonicalStatus::Confirmed(block_time) => {
                let old_block_time = match b.status {
                    CanonicalStatus::Confirmed(x) => Some(x),
                    _ => None,
                };
                return Some(WalletEvent::TxConfirmed { txid: *t, tx, block_time, old_block_time });
            },
            _ => {},
        }
        match b.status {
            CanonicalStatus::Confirmed(x) => Some(WalletEvent::TxUnconfirmed { txid: *t, tx, old_block_time: Some(x) }),
            CanonicalStatus::Unconfirmed(_) => match a.winner {
                Some(w) => Some(WalletEvent::TxReplaced { txid: *t, conflicts: self.replaced_by(i, &w) }),
                None => Some(WalletEvent::TxDropped { txid: *t }),
            },
            _ => match a.status {
                CanonicalStatus::Unconfirmed(_) => Some(
                    WalletEvent::TxUnconfirmed { txid: *t, tx, old_block_time: None },
                ),
                _ => {
                    let w = a.winner.unwrap();
                    Some(WalletEvent::TxReplaced { txid: *t, conflicts: self.replaced_by(i, &w) })
                },
            },
        }
    }

    /// The inputs of stored transaction `i` that transaction `w` spends too, paired with `w`.
    fn replaced_by(&self, i: usize, w: &Txid) -> (r: Vec<(usize, Txid)>)
        requires
            self.wf(),
            i < self.store.entries_view().len(),
            has_txid(self.store.entries_view(), *w),
        ensures
            r@ == shared_inputs(
                self.store.txs_view()[i as int].input@,
                tx_of(self.store, *w).input@,
                *w,
            ),
    {
        let es = self.store.entries();
        let txs = self.store.txs();
        let j = find_entry(es, w).unwrap();
        proof {
            let k = crate::status::index_of(es@, *w);
            assert(0 <= k < es@.len() && es@[k].txid == *w);
            assert(k == j as int);
        }
        let a = &txs[i].input;
        let b = &txs[j].input;
        let mut out: Vec<(usize, Txid)> = Vec::new();
        let mut x: usize = 0;
        while x < a.len()
            invariant
                x <= a.len(),
                out@ == shared_inputs(a@.take(x as int), b@, *w),
            decreases a.len() - x,
        {
            assert(a@.take(x as int + 1).drop_last() =~= a@.take(x as int));
            if spends_outpoint(b, &a[x]) {
                out.push((x, *w));
            }
            x = x + 1;
        }
        assert(a@.take(x as int) =~= a@);
        out
    }

    /// The events that the changes from `before` to `after` call for:
    /// confirmations by rising height, other changes, and replacements.
    fn collect_events(&self, aff: &Vec<Txid>, before: &Vec<Resolution>, after: &Vec<Resolution>) -> (r: (
        Vec<WalletEvent>,
        Vec<WalletEvent>,
        Vec<WalletEvent>,
    ))
        requires
            self.wf(),
            before.len() == aff.len(),
            after.len() == aff.len(),
            forall|m: int| 0 <= m < aff.len() ==> after@[m] == status_in(self.chain, self.store, #[trigger] aff@[m]),
            no_dups(aff@),
        ensures
            distinct_ids(r.0@ + r.1@ + r.2@),
            sound(r.0@, aff@, before@, after@, self.store),
            sound(r.1@, aff@, before@, after@, self.store),
            sound(r.2@, aff@, before@, after@, self.store),
            forall|i: int| 0 <= i < r.0@.len() ==> rank(#[trigger] r.0@[i]) == 1,
            forall|i: int| 0 <= i < r.1@.len() ==> rank(#[trigger] r.1@[i]) == 2,
            forall|i: int| 0 <= i < r.2@.len() ==> rank(#[trigger] r.2@[i]) == 3,
            well_ordered(r.0@),
            forall|m: int|
                0 <= m < aff.len() && has_txid(self.store.entries_view(), #[trigger] aff@[m]) && event_due(before@[m], after@[m])
                    ==> found3(r.0@, r.1@, r.2@, aff@[m]),
    {
        let mut conf: Vec<WalletEvent> = Vec::new();
        let mut rest: Vec<WalletEvent> = Vec::new();
        let mut repl: Vec<WalletEvent> = Vec::new();
        let mut k: usize = 0;
        while k < aff.len()
            invariant
                k <= aff.len(),
                self.wf(),
                no_dups(aff@),
                distinct_ids(conf@ + rest@ + repl@),
                forall|i: int| 0 <= i < (conf@ + rest@ + repl@).len() ==> txid_among(#[trigger] (conf@ + rest@ + repl@)[i], aff@, k as int),
                before.len() == aff.len(),
                after.len() == aff.len(),
                forall|m: int| 0 <= m < aff.len() ==> after@[m] == status_in(self.chain, self.store, #[trigger] aff@[m]),
                sound(conf@, aff@, before@, after@, self.store),
                sound(rest@, aff@, before@, after@, self.store),
                sound(repl@, aff@, before@, after@, self.store),
                forall|i: int| 0 <= i < conf@.len() ==> rank(#[trigger] conf@[i]) == 1,
                forall|i: int| 0 <= i < rest@.len() ==> rank(#[trigger] rest@[i]) == 2,
                forall|i: int| 0 <= i < repl@.len() ==> rank(#[trigger] repl@[i]) == 3,
                well_ordered(conf@),
                forall|m: int|
                    0 <= m < k && has_txid(self.store.entries_view(), #[trigger] aff@[m]) && event_due(before@[m], after@[m])
                        ==> found3(conf@, rest@, repl@, aff@[m]),
            decreases aff.len() - k,
        {
            let ghost t = aff@[k as int];
            proof {
                crate::status::lemma_resolved_stored(self.chain@, self.store.txs_view(), self.store.entries_view(), self.store.anchors_view(), t);
            }
            let ghost (cf0, rs0, rp0) = (conf@, rest@, repl@);
            let ghost all0 = cf0 + rs0 + rp0;
            proof { lemma_among_grow(all0, aff@, k as int); }
            let ev = self.event_of(&aff[k], &before[k], &after[k]);
            match ev {
                Some(e) => {
                    if let WalletEvent::TxConfirmed { block_time, .. } = &e {
                        let h = block_time.block_id.height;
                        let mut q: usize = 0;
                        while q < conf.len() && confirmed_height_of(&conf[q]) <= h
                            invariant
                                q <= conf.len(),
                                forall|i: int| 0 <= i < q ==> confirmed_height(#[trigger] conf@[i]) <= h,
                            decreases conf.len() - q,
                        {
                            q = q + 1;
                        }
                        proof {
                            lemma_insert_sorted(conf@, q as int, e);
                            lemma_insert_kept(conf@, q as int, e, aff@, before@, after@, self.store);
                        }
                        conf.insert(q, e);
                        proof {
                            assert(conf@ + rest@ + repl@ =~= all0.insert(q as int, e));
                            lemma_insert_distinct(all0, q as int, e, aff@, k as int);
                        }
                    } else if let WalletEvent::TxReplaced { .. } = &e {
                        proof { lemma_insert_kept(repl@, repl@.len() as int, e, aff@, before@, after@, self.store); }
                        repl.push(e);
                        assert(repl@ == rp0.insert(rp0.len() as int, e));
                        proof {
                            assert(conf@ + rest@ + repl@ =~= all0.insert(all0.len() as int, e));
                            lemma_insert_distinct(all0, all0.len() as int, e, aff@, k as int);
                        }
                    } else {
                        proof { lemma_insert_kept(rest@, rest@.len() as int, e, aff@, before@, after@, self.store); }
                        rest.push(e);
                        assert(rest@ == rs0.insert(rs0.len() as int, e));
                        proof {
                            assert(conf@ + rest@ + repl@ =~= all0.insert((cf0.len() + rs0.len()) as int, e));
                            lemma_insert_distinct(all0, (cf0.len() + rs0.len()) as int, e, aff@, k as int);
                        }
                    }
                },
                None => {},
            }
            assert forall|m: int|
                0 <= m < k + 1 && has_txid(self.store.entries_view(), #[trigger] aff@[m]) && event_due(before@[m], after@[m])
                    implies found3(conf@, rest@, repl@, aff@[m]) by {
                if m < k {
                    assert(found3(cf0, rs0, rp0, aff@[m]));
                }
            }
            k = k + 1;
        }
        (conf, rest, repl)
    }

    /// Applies an update at once and returns the events that describe what
    /// changed. On an error the wallet is left as it was.
    #[verifier::rlimit(60)]
    pub fn apply_update_events(&mut self, u: Update) -> (r: Result<Vec<WalletEvent>, ApplyError>)
        requires
            old(self).wf(),
        ensures
            final(self).wf(),
            ({
                let c0 = old(self).chain_view();
                let s0 = old(self).store_view();
                let c1 = final(self).chain_view();
                let s1 = final(self).store_view();
                let p = with_txs((s0.txs_view(), s0.entries_view()), u.tx_update.txs@);
                let ok = chain_ok(c0@, &u) && anchors_valid(c0@, &u) && refs_known(p.1, &u.tx_update);
                let aff = affected(c0@, s0, &u);
                match r {
                    Err(e) => {
                        &&& !ok
                        &&& c1 == c0
                        &&& s1 == s0
                        &&& e == if !chain_ok(c0@, &u) {
                            ApplyError::Chain(ChainError::Disconnected)
                        } else if !anchors_valid(c0@, &u) {
                            ApplyError::InvalidAnchor
                        } else {
                            ApplyError::Store(StoreError::UnknownTx)
                        }
                    },
                    Ok(evs) => {
                        let tip_changed = c0@.last() != c1@.last();
                        let n0: int = if tip_changed { 1 } else { 0 };
                        &&& ok
                        &&& c1@ == new_chain(c0@, &u)
                        &&& s1.txs_view() == p.0
                        &&& s1.entries_view() == with_evicteds(
                            with_seens(p.1, u.tx_update.seen_ats@),
                            u.tx_update.evicted_ats@,
                        )
                        &&& s1.anchors_view() == with_anchors(s0.anchors_view(), u.tx_update.anchors@)
                        &&& tip_changed ==> evs@.len() > 0 && evs@[0] == (WalletEvent::ChainTipChanged {
                            old_tip: c0@.last(),
                            new_tip: c1@.last(),
                        })
                        &&& events_describe(evs@, n0, aff, c0, s0, c1, s1)
                        &&& (c1@ == c0@ && s1.txs_view() == s0.txs_view() && s1.entries_view()
                            == s0.entries_view() && s1.anchors_view() == s0.anchors_view()) ==> evs@.len() == 0
                        &&& (u.chain is None && u.tx_update.txs@.len() == 0 && u.tx_update.anchors@.len() == 0
                            && u.tx_update.seen_ats@.len() == 0 && u.tx_update.evicted_ats@.len() == 0)
                            ==> evs@.len() == 0 && c1@ == c0@ && s1.txs_view() == s0.txs_view()
                            && s1.entries_view() == s0.entries_view() && s1.anchors_view() == s0.anchors_view()
                    },
                }
            }),
    {
        let ghost c0 = self.chain;
        let ghost s0 = self.store;
        let ghost p = with_txs((s0.txs_view(), s0.entries_view()), u.tx_update.txs@);
        match &u.chain {
            Some(s) => {
                if let Err(e) = self.chain.chain_after_suffix(s) {
                    return Err(ApplyError::Chain(e));
                }
            },
            None => {},
        }
        if !self.anchors_known(&u) {
            return Err(ApplyError::InvalidAnchor);
        }
        if !self.store.refs_known_after(&u.tx_update) {
            return Err(ApplyError::Store(StoreError::UnknownTx));
        }
        let aff = self.affected_ids(&u);
        proof { lemma_dedup_no_dups(affected_keys(self.chain@, self.store, &u)); }
        let before = self.statuses(&aff);
        let old_tip = self.chain.tip();
        let Update { chain, tx_update } = u;
        if let Some(s) = chain {
            let _ = self.chain.apply(&s);
        }
        let merged = self.store.merge(tx_update);
        assert(merged is Ok);
        let new_tip = self.chain.tip();
        let after = self.statuses(&aff);
        let ghost c1 = self.chain;
        let ghost s1 = self.store;
        let (mut conf, mut rest, mut repl) = self.collect_events(&aff, &before, &after);
        let mut evs: Vec<WalletEvent> = Vec::new();
        if !crate::chain::same_block(&old_tip, &new_tip) {
            evs.push(WalletEvent::ChainTipChanged { old_tip, new_tip });
        }
        let ghost n0 = evs@.len();
        let ghost pre = evs@;
        let ghost (cv, rv, pv) = (conf@, rest@, repl@);
        evs.append(&mut conf);
        evs.append(&mut rest);
        evs.append(&mut repl);
        proof {
            lemma_affected_stored(c0@, s0, &u);
            lemma_final(pre, cv, rv, pv, evs@, aff@, before@, after@, c0, s0, c1, s1);
            if c1@ == c0@ && s1.txs_view() == s0.txs_view() && s1.entries_view() == s0.entries_view()
                && s1.anchors_view() == s0.anchors_view() {
                lemma_no_change_no_events(evs@, aff@, c0, s0, c1, s1);
            }
            if u.chain is None && u.tx_update.txs@.len() == 0 && u.tx_update.anchors@.len() == 0
                && u.tx_update.seen_ats@.len() == 0 && u.tx_update.evicted_ats@.len() == 0 {
                lemma_nothing_affected(c0@, s0, &u);
            }
        }
        Ok(evs)
    }
}

fn event_due_exec(b: &Resolution, a: &Resolution) -> (r: bool)
    ensures
        r == event_due(*b, *a),
{
    match a.status {
        CanonicalStatus::Confirmed(x) => match b.status {
            CanonicalStatus::Confirmed(y) => !(crate::chain::same_block(&x.block_id, &y.block_id)
                && x.confirmation_time == y.confirmation_time),
            _ => true,
        },
        _ => match b.status {
            CanonicalStatus::Confirmed(_) => true,
            CanonicalStatus::Unconfirmed(_) => matches!(a.status, CanonicalStatus::Evicted),
            CanonicalStatus::Unknown => matches!(a.status, CanonicalStatus::Unconfirmed(_))
                || (matches!(a.status, CanonicalStatus::Evicted) && a.winner.is_some()),
            CanonicalStatus::Evicted => matches!(a.status, CanonicalStatus::Unconfirmed(_)),
        },
    }
}

fn confirmed_height_of(e: &WalletEvent) -> (r: u32)
    ensures
        r as int == confirmed_height(*e),
{
    match e {
        WalletEvent::TxConfirmed { block_time, .. } => block_time.block_id.height,
        _ => 0,
    }
}

/// A copy of a transaction.
pub fn copy_tx(t: &Transaction) -> (r: Transaction)
    ensures
        same_tx(r, *t),
{
    Transaction { txid: t.txid, input: copied(&t.input), output: copied(&t.output) }
}

fn contains_id(v: &Vec<Txid>, t: &Txid) -> (r: bool)
    ensures
        r == v@.contains(*t),
{
    let mut i: usize = 0;
    while i < v.len()
        invariant
            i <= v.len(),
            forall|m: int| 0 <= m < i ==> v@[m] != *t,
        decreases v.len() - i,
    {
        if crate::chain::digest_eq(&v[i], t) {
            assert(v@[i as int] == *t);
            return true;
        }
        i = i + 1;
    }
    false
}

fn anchored_at_or_above(anchors: &Vec<(Anchor, Txid)>, t: &Txid, h: u32) -> (r: bool)
    ensures
        r == anchored_from(anchors@, *t, h),
{
    let mut k: usize = 0;
    while k < anchors.len()
        invariant
            k <= anchors.len(),
            forall|m: int| 0 <= m < k ==> !(anchors@[m].1 == *t && anchors@[m].0.block_id.height >= h),
        decreases anchors.len() - k,
    {
        if anchors[k].0.block_id.height >= h && crate::chain::digest_eq(&anchors[k].1, t) {
            return true;
        }
        k = k + 1;
    }
    false
}

/// Each event of `l` is the event called for by one of the affected transactions.
pub open spec fn sound(
    l: Seq<WalletEvent>,
    aff: Seq<Txid>,
    before: Seq<Resolution>,
    after: Seq<Resolution>,
    store: TxStore,
) -> bool {
    forall|i: int| 0 <= i < l.len() ==> called_for(#[trigger] l[i], aff, before, after, store)
}

/// `e` is the event called for by one of the affected transactions.
pub open spec fn called_for(
    e: WalletEvent,
    aff: Seq<Txid>,
    before: Seq<Resolution>,
    after: Seq<Resolution>,
    store: TxStore,
) -> bool {
    exists|k: int| 0 <= k < aff.len() && #[trigger] event_for(e, aff[k], before[k], after[k], store)
}

pub open spec fn has_event_for(l: Seq<WalletEvent>, t: Txid) -> bool {
    exists|i: int| 0 <= i < l.len() && #[trigger] event_txid(l[i]) == Some(t)
}

pub open spec fn found3(a: Seq<WalletEvent>, b: Seq<WalletEvent>, c: Seq<WalletEvent>, t: Txid) -> bool {
    has_event_for(a, t) || has_event_for(b, t) || has_event_for(c, t)
}

proof fn lemma_insert_kept(
    l: Seq<WalletEvent>,
    q: int,
    e: WalletEvent,
    aff: Seq<Txid>,
    before: Seq<Resolution>,
    after: Seq<Resolution>,
    store: TxStore,
)
    requires
        0 <= q <= l.len(),
        sound(l, aff, before, after, store),
        called_for(e, aff, before, after, store),
    ensures
        sound(l.insert(q, e), aff, before, after, store),
        forall|t: Txid| has_event_for(l, t) ==> #[trigger] has_event_for(l.insert(q, e), t),
        event_txid(e) matches Some(t) ==> has_event_for(l.insert(q, e), t),
{
    let r = l.insert(q, e);
    assert forall|i: int| 0 <= i < r.len() implies called_for(#[trigger] r[i], aff, before, after, store) by {
        if i < q {
            assert(r[i] == l[i]);
        } else if i > q {
            assert(r[i] == l[i - 1]);
        }
    }
    assert forall|t: Txid| has_event_for(l, t) implies #[trigger] has_event_for(r, t) by {
        let i = choose|i: int| 0 <= i < l.len() && #[trigger] event_txid(l[i]) == Some(t);
        if i < q {
            assert(r[i] == l[i]);
        } else {
            assert(r[i + 1] == l[i]);
        }
    }
    if let Some(t) = event_txid(e) {
        assert(r[q] == e);
    }
}

proof fn lemma_insert_sorted(l: Seq<WalletEvent>, q: int, e: WalletEvent)
    requires
        0 <= q <= l.len(),
        well_ordered(l),
        rank(e) == 1,
        forall|i: int| 0 <= i < l.len() ==> rank(#[trigger] l[i]) == 1,
        forall|i: int| 0 <= i < q ==> confirmed_height(#[trigger] l[i]) <= confirmed_height(e),
        q < l.len() ==> confirmed_height(l[q]) > confirmed_height(e),
    ensures
        well_ordered(l.insert(q, e)),
        forall|i: int| 0 <= i < l.len() + 1 ==> rank(#[trigger] l.insert(q, e)[i]) == 1,
{
    let r = l.insert(q, e);
    assert forall|i: int| 0 <= i < r.len() implies rank(#[trigger] r[i]) == 1 by {
        if i < q {
            assert(r[i] == l[i]);
        } else if i > q {
            assert(r[i] == l[i - 1]);
        }
    }
    assert forall|i: int, j: int| 0 <= i < j < r.len() implies confirmed_height(r[i]) <= confirmed_height(r[j]) by {
        if j < q {
            assert(r[i] == l[i] && r[j] == l[j]);
        } else if j == q {
            assert(r[i] == l[i]);
        } else if i < q {
            assert(r[i] == l[i] && r[j] == l[j - 1]);
            assert(confirmed_height(l[q]) <= confirmed_height(l[j - 1]));
        } else if i == q {
            assert(r[j] == l[j - 1]);
            assert(confirmed_height(l[q]) <= confirmed_height(l[j - 1]));
        } else {
            assert(r[i] == l[i - 1] && r[j] == l[j - 1]);
        }
    }
}

proof fn lemma_dedup_no_dups(s: Seq<Txid>)
    ensures
        no_dups(dedup(s)),
    decreases s.len(),
{
    if s.len() > 0 {
        lemma_dedup_no_dups(s.drop_last());
        let r = dedup(s.drop_last());
        if !r.contains(s.last()) {
            assert forall|i: int, j: int| 0 <= i < j < r.len() + 1 implies r.push(s.last())[i] != r.push(s.last())[j] by {
                if j == r.len() {
                    assert(r.push(s.last())[i] == r[i]);
                }
            }
        }
    }
}

proof fn lemma_among_grow(all: Seq<WalletEvent>, aff: Seq<Txid>, k: int)
    requires
        forall|i: int| 0 <= i < all.len() ==> txid_among(#[trigger] all[i], aff, k),
    ensures
        forall|i: int| 0 <= i < all.len() ==> txid_among(#[trigger] all[i], aff, k + 1),
{
    assert forall|i: int| 0 <= i < all.len() implies txid_among(#[trigger] all[i], aff, k + 1) by {
        assert(txid_among(all[i], aff, k));
    }
}

proof fn lemma_insert_distinct(all: Seq<WalletEvent>, q: int, e: WalletEvent, aff: Seq<Txid>, k: int)
    requires
        0 <= q <= all.len(),
        0 <= k < aff.len(),
        no_dups(aff),
        distinct_ids(all),
        forall|i: int| 0 <= i < all.len() ==> txid_among(#[trigger] all[i], aff, k),
        event_txid(e) == Some(aff[k]),
    ensures
        distinct_ids(all.insert(q, e)),
        forall|i: int| 0 <= i < all.len() + 1 ==> txid_among(#[trigger] all.insert(q, e)[i], aff, k + 1),
{
    let r = all.insert(q, e);
    assert forall|i: int| 0 <= i < all.len() implies event_txid(#[trigger] all[i]) != Some(aff[k]) by {
        assert(txid_among(all[i], aff, k));
        let m = choose|m: int| 0 <= m < k && event_txid(all[i]) == Some(#[trigger] aff[m]);
        assert(aff[m] != aff[k]);
    }
    assert forall|i: int, j: int| 0 <= i < j < r.len() implies event_txid(r[i]) != event_txid(r[j]) by {
        if i < q {
            assert(r[i] == all[i]);
        } else if i > q {
            assert(r[i] == all[i - 1]);
        }
        if j < q {
            assert(r[j] == all[j]);
        } else if j > q {
            assert(r[j] == all[j - 1]);
        }
    }
    assert forall|i: int| 0 <= i < all.len() + 1 implies txid_among(#[trigger] r[i], aff, k + 1) by {
        if i < q {
            assert(r[i] == all[i]);
            assert(txid_among(all[i], aff, k));
        } else if i > q {
            assert(r[i] == all[i - 1]);
            assert(txid_among(all[i - 1], aff, k));
        } else {
            assert(event_txid(r[i]) == Some(aff[k]));
        }
    }
}

proof fn lemma_dedup_from(s: Seq<Txid>)
    ensures
        forall|k: int| 0 <= k < dedup(s).len() ==> s.contains(#[trigger] dedup(s)[k]),
    decreases s.len(),
{
    if s.len() > 0 {
        let d = s.drop_last();
        lemma_dedup_from(d);
        assert forall|k: int| 0 <= k < dedup(s).len() implies s.contains(#[trigger] dedup(s)[k]) by {
            if k < dedup(d).len() {
                let x = choose|x: int| 0 <= x < d.len() && d[x] == dedup(d)[k];
                assert(s[x] == d[x]);
            } else {
                assert(s[s.len() - 1] == s.last());
            }
        }
    }
}

proof fn lemma_anchored_ids_stored(es: Seq<TxEntry>, anchors: Seq<(Anchor, Txid)>, h: u32)
    ensures
        forall|k: int| 0 <= k < anchored_ids(es, anchors, h).len() ==> has_txid(es, #[trigger] anchored_ids(es, anchors, h)[k]),
    decreases es.len(),
{
    if es.len() > 0 {
        let d = es.drop_last();
        lemma_anchored_ids_stored(d, anchors, h);
        assert forall|k: int| 0 <= k < anchored_ids(es, anchors, h).len() implies has_txid(es, #[trigger] anchored_ids(es, anchors, h)[k]) by {
            if k < anchored_ids(d, anchors, h).len() {
                let t = anchored_ids(d, anchors, h)[k];
                let x = choose|x: int| 0 <= x < d.len() && d[x].txid == t;
                assert(es[x] == d[x]);
            } else {
                assert(es[es.len() - 1] == es.last());
            }
        }
    }
}

/// Every transaction that an accepted update affects is stored afterwards.
proof fn lemma_affected_stored(c: Seq<BlockId>, store: TxStore, u: &Update)
    requires
        refs_known(with_txs((store.txs_view(), store.entries_view()), u.tx_update.txs@).1, &u.tx_update),
    ensures
        ({
            let p = with_txs((store.txs_view(), store.entries_view()), u.tx_update.txs@);
            let es1 = with_evicteds(with_seens(p.1, u.tx_update.seen_ats@), u.tx_update.evicted_ats@);
            forall|k: int| 0 <= k < affected(c, store, u).len() ==> has_txid(es1, #[trigger] affected(c, store, u)[k])
        }),
{
    let tu = &u.tx_update;
    let p = with_txs((store.txs_view(), store.entries_view()), tu.txs@);
    let es1 = with_evicteds(with_seens(p.1, tu.seen_ats@), tu.evicted_ats@);
    let a = ids_of_txs(tu.txs@);
    let b = ids_of_anchors(tu.anchors@);
    let cc = ids_of_times(tu.seen_ats@);
    let d = ids_of_times(tu.evicted_ats@);
    let r = reorg_ids(c, store, u);
    let keys = a + b + cc + d + r;
    lemma_dedup_from(keys);
    match u.chain {
        Some(sfx) => match divergence(c, sfx@) {
            Some(h) => {
                lemma_anchored_ids_stored(store.entries_view(), store.anchors_view(), h);
            },
            None => {},
        },
        None => {},
    }
    assert forall|x: int| 0 <= x < keys.len() implies has_txid(p.1, #[trigger] keys[x]) by {
        if x < a.len() {
            crate::store::lemma_with_txs_adds(store.txs_view(), store.entries_view(), tu.txs@, x);
        } else if x < a.len() + b.len() {
            assert(keys[x] == tu.anchors@[x - a.len()].1);
        } else if x < a.len() + b.len() + cc.len() {
            assert(keys[x] == tu.seen_ats@[x - a.len() - b.len()].0);
        } else if x < a.len() + b.len() + cc.len() + d.len() {
            assert(keys[x] == tu.evicted_ats@[x - a.len() - b.len() - cc.len()].0);
        } else {
            let y = x - a.len() - b.len() - cc.len() - d.len();
            assert(keys[x] == r[y]);
            assert(has_txid(store.entries_view(), r[y]));
            crate::store::lemma_with_txs_keeps(store.txs_view(), store.entries_view(), tu.txs@, r[y]);
        }
    }
    assert forall|k: int| 0 <= k < affected(c, store, u).len() implies has_txid(es1, #[trigger] affected(c, store, u)[k]) by {
        let t = affected(c, store, u)[k];
        let x = choose|x: int| 0 <= x < keys.len() && keys[x] == t;
        crate::store::lemma_raising_keeps_ids(p.1, tu.seen_ats@, tu.evicted_ats@, t);
    }
}

proof fn lemma_no_change_no_events(
    evs: Seq<WalletEvent>,
    aff: Seq<Txid>,
    c0: LocalChain,
    s0: TxStore,
    c1: LocalChain,
    s1: TxStore,
)
    requires
        c1@ == c0@,
        s1.txs_view() == s0.txs_view(),
        s1.entries_view() == s0.entries_view(),
        s1.anchors_view() == s0.anchors_view(),
        events_describe(evs, 0, aff, c0, s0, c1, s1),
    ensures
        evs.len() == 0,
{
    reveal(events_describe);
    if evs.len() > 0 {
        assert(explained(evs[0], aff, c0, s0, c1, s1));
        let k = choose|k: int|
            0 <= k < aff.len() && #[trigger] event_for(evs[0], aff[k], status_in(c0, s0, aff[k]), status_in(c1, s1, aff[k]), s1);
        assert(status_in(c0, s0, aff[k]) == status_in(c1, s1, aff[k]));
    }
}

/// Once an update has been applied, applying it again succeeds and leaves
/// the chain and the transaction store as they are, so that it yields no
/// events. This holds for updates whose anchors name blocks that the chain
/// still holds after the first application, or blocks of the suffix.
pub proof fn lemma_update_idempotent(c: LocalChain, s: TxStore, u: &Update)
    requires
        c.wf(),
        s.wf(),
        chain_ok(c@, u),
        anchors_valid(c@, u),
        anchors_valid(new_chain(c@, u), u),
        refs_known(with_txs((s.txs_view(), s.entries_view()), u.tx_update.txs@).1, &u.tx_update),
    ensures
        ({
            let tu = &u.tx_update;
            let c1 = new_chain(c@, u);
            let p = with_txs((s.txs_view(), s.entries_view()), tu.txs@);
            let es1 = with_evicteds(with_seens(p.1, tu.seen_ats@), tu.evicted_ats@);
            let a1 = with_anchors(s.anchors_view(), tu.anchors@);
            let q = with_txs((p.0, es1), tu.txs@);
            &&& chain_ok(c1, u)
            &&& refs_known(q.1, tu)
            &&& new_chain(c1, u) == c1
            &&& q.0 == p.0
            &&& with_evicteds(with_seens(q.1, tu.seen_ats@), tu.evicted_ats@) == es1
            &&& with_anchors(a1, tu.anchors@) == a1
        }),
{
    if let Some(sfx) = u.chain {
        crate::chain::lemma_chain_after_idempotent(c@, sfx@);
    }
    crate::store::lemma_merge_idempotent(s.txs_view(), s.entries_view(), s.anchors_view(), &u.tx_update);
}

proof fn lemma_nothing_affected(c: Seq<BlockId>, store: TxStore, u: &Update)
    requires
        u.chain is None,
        u.tx_update.txs@.len() == 0,
        u.tx_update.anchors@.len() == 0,
        u.tx_update.seen_ats@.len() == 0,
        u.tx_update.evicted_ats@.len() == 0,
    ensures
        affected(c, store, u).len() == 0,
{
    let tu = &u.tx_update;
    assert(ids_of_txs(tu.txs@) + ids_of_anchors(tu.anchors@) + ids_of_times(tu.seen_ats@) + ids_of_times(
        tu.evicted_ats@,
    ) + reorg_ids(c, store, u) =~= Seq::<Txid>::empty());
}

proof fn lemma_final(
    pre: Seq<WalletEvent>,
    cv: Seq<WalletEvent>,
    rv: Seq<WalletEvent>,
    pv: Seq<WalletEvent>,
    evs: Seq<WalletEvent>,
    aff: Seq<Txid>,
    before: Seq<Resolution>,
    after: Seq<Resolution>,
    c0: LocalChain,
    s0: TxStore,
    c1: LocalChain,
    s1: TxStore,
)
    requires
        pre.len() <= 1,
        forall|i: int| 0 <= i < pre.len() ==> rank(#[trigger] pre[i]) == 0,
        sound(cv, aff, before, after, s1),
        sound(rv, aff, before, after, s1),
        sound(pv, aff, before, after, s1),
        forall|i: int| 0 <= i < cv.len() ==> rank(#[trigger] cv[i]) == 1,
        forall|i: int| 0 <= i < rv.len() ==> rank(#[trigger] rv[i]) == 2,
        forall|i: int| 0 <= i < pv.len() ==> rank(#[trigger] pv[i]) == 3,
        well_ordered(cv),
        evs == pre + cv + rv + pv,
        before.len() == aff.len(),
        after.len() == aff.len(),
        forall|m: int| 0 <= m < aff.len() ==> before[m] == status_in(c0, s0, #[trigger] aff[m]),
        forall|m: int| 0 <= m < aff.len() ==> after[m] == status_in(c1, s1, #[trigger] aff[m]),
        forall|m: int|
            0 <= m < aff.len() && has_txid(s1.entries_view(), #[trigger] aff[m]) && event_due(before[m], after[m])
                ==> found3(cv, rv, pv, aff[m]),
        forall|m: int| 0 <= m < aff.len() ==> has_txid(s1.entries_view(), #[trigger] aff[m]),
        distinct_ids(cv + rv + pv),
    ensures
        events_describe(evs, pre.len() as int, aff, c0, s0, c1, s1),
{
    reveal(events_describe);
    lemma_combined(pre, cv, rv, pv, aff, before, after, s1);
    let n0 = pre.len() as int;
    let all = cv + rv + pv;
    assert(evs.skip(n0) == all);
    assert forall|m: int|
        0 <= m < aff.len() && event_due(
            status_in(c0, s0, aff[m]),
            status_in(c1, s1, aff[m]),
        ) implies exists|i: int| n0 <= i < evs.len() && #[trigger] event_txid(evs[i]) == Some(aff[m]) by {
        assert(before[m] == status_in(c0, s0, aff[m]));
        assert(after[m] == status_in(c1, s1, aff[m]));
        assert(found3(cv, rv, pv, aff[m]));
        assert(has_event_for(all, aff[m]));
        let i = choose|i: int| 0 <= i < all.len() && #[trigger] event_txid(all[i]) == Some(aff[m]);
        assert(evs[i + n0] == all[i]);
    }
    assert forall|i: int| n0 <= i < evs.len() implies explained(#[trigger] evs[i], aff, c0, s0, c1, s1) by {
        assert(evs[i] == all[i - n0]);
        assert(called_for(all[i - n0], aff, before, after, s1));
        let m = choose|m: int| 0 <= m < aff.len() && #[trigger] event_for(evs[i], aff[m], before[m], after[m], s1);
        assert(before[m] == status_in(c0, s0, aff[m]));
        assert(after[m] == status_in(c1, s1, aff[m]));
    }
}

proof fn lemma_combined(
    pre: Seq<WalletEvent>,
    cv: Seq<WalletEvent>,
    rv: Seq<WalletEvent>,
    pv: Seq<WalletEvent>,
    aff: Seq<Txid>,
    before: Seq<Resolution>,
    after: Seq<Resolution>,
    store: TxStore,
)
    requires
        pre.len() <= 1,
        forall|i: int| 0 <= i < pre.len() ==> rank(#[trigger] pre[i]) == 0,
        sound(cv, aff, before, after, store),
        sound(rv, aff, before, after, store),
        sound(pv, aff, before, after, store),
        forall|i: int| 0 <= i < cv.len() ==> rank(#[trigger] cv[i]) == 1,
        forall|i: int| 0 <= i < rv.len() ==> rank(#[trigger] rv[i]) == 2,
        forall|i: int| 0 <= i < pv.len() ==> rank(#[trigger] pv[i]) == 3,
        well_ordered(cv),
    ensures
        ({
            let evs = pre + cv + rv + pv;
            let n0 = pre.len() as int;
            &&& evs.skip(n0) == cv + rv + pv
            &&& sound(cv + rv + pv, aff, before, after, store)
            &&& well_ordered(cv + rv + pv)
            &&& replacements_follow_winners(evs)
            &&& forall|i: int| n0 <= i < evs.len() ==> !(#[trigger] evs[i] is ChainTipChanged)
            &&& forall|i: int| n0 <= i < evs.len() ==> #[trigger] evs[i] == (cv + rv + pv)[i - n0]
            &&& forall|t: Txid| found3(cv, rv, pv, t) ==> #[trigger] has_event_for(cv + rv + pv, t)
        }),
{
    let evs = pre + cv + rv + pv;
    let n0 = pre.len() as int;
    let all = cv + rv + pv;
    assert(evs.skip(n0) =~= all);
    assert forall|i: int| 0 <= i < all.len() implies rank(#[trigger] all[i]) == if i < cv.len() {
        1int
    } else if i < cv.len() + rv.len() {
        2int
    } else {
        3int
    } by {
        if i < cv.len() {
            assert(all[i] == cv[i]);
        } else if i < cv.len() + rv.len() {
            assert(all[i] == rv[i - cv.len()]);
        } else {
            assert(all[i] == pv[i - cv.len() - rv.len()]);
        }
    }
    assert forall|i: int| 0 <= i < all.len() implies called_for(#[trigger] all[i], aff, before, after, store) by {
        if i < cv.len() {
            assert(all[i] == cv[i]);
        } else if i < cv.len() + rv.len() {
            assert(all[i] == rv[i - cv.len()]);
        } else {
            assert(all[i] == pv[i - cv.len() - rv.len()]);
        }
    }
    assert forall|i: int, j: int| 0 <= i < j < all.len() implies rank(all[i]) < rank(all[j]) || (rank(all[i])
        == rank(all[j]) && confirmed_height(all[i]) <= confirmed_height(all[j])) by {
        if j < cv.len() {
            assert(all[i] == cv[i] && all[j] == cv[j]);
        } else if i >= cv.len() && j < cv.len() + rv.len() {
            assert(all[i] == rv[i - cv.len()] && all[j] == rv[j - cv.len()]);
        } else if i >= cv.len() + rv.len() {
            assert(all[i] == pv[i - cv.len() - rv.len()] && all[j] == pv[j - cv.len() - rv.len()]);
        }
    }
    assert forall|i: int| 0 <= i < evs.len() implies rank(#[trigger] evs[i]) == if i < n0 {
        0int
    } else {
        rank(all[i - n0])
    } && (i >= n0 ==> evs[i] == all[i - n0]) by {
        if i < n0 {
            assert(evs[i] == pre[i]);
        } else {
            assert(evs[i] == all[i - n0]);
        }
    }
    assert forall|t: Txid| found3(cv, rv, pv, t) implies #[trigger] has_event_for(all, t) by {
        if has_event_for(cv, t) {
            let i = choose|i: int| 0 <= i < cv.len() && #[trigger] event_txid(cv[i]) == Some(t);
            assert(all[i] == cv[i]);
        } else if has_event_for(rv, t) {
            let i = choose|i: int| 0 <= i < rv.len() && #[trigger] event_txid(rv[i]) == Some(t);
            assert(all[i + cv.len()] == rv[i]);
        } else {
            let i = choose|i: int| 0 <= i < pv.len() && #[trigger] event_txid(pv[i]) == Some(t);
            assert(all[i + cv.len() + rv.len()] == pv[i]);
        }
    }
    assert forall|i: int, j: int, m: int|
        #![trigger evs[i], evs[j], evs[j]->TxReplaced_conflicts@[m]]
        0 <= i < evs.len() && 0 <= j < evs.len() && evs[j] is TxReplaced && 0 <= m
            < evs[j]->TxReplaced_conflicts@.len() && (evs[i] is TxConfirmed || evs[i] is TxUnconfirmed)
            && event_txid(evs[i]) == Some(evs[j]->TxReplaced_conflicts@[m].1) implies i < j by {
        assert(rank(evs[i]) < rank(evs[j]));
        if i >= n0 && j >= n0 {
            if j <= i {
                if j < i {
                    assert(rank(all[j - n0]) <= rank(all[i - n0]));
                }
            }
        }
    }
}

} // verus!
