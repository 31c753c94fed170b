use wallet_core::chain::{BlockId, ChainError, LocalChain};
use wallet_core::events::{ApplyError, Update, Wallet, WalletEvent};
use wallet_core::status::{status, CanonicalStatus};
use wallet_core::store::{Anchor, OutPoint, StoreError, Transaction, TxOut, TxUpdate, Txid};

const GENESIS: [u8; 32] = [0x6f; 32];

fn tx(id: u8, inputs: &[(Txid, u32)], n_outputs: usize) -> Transaction {
    Transaction {
        txid: [id; 32],
        input: inputs.iter().map(|&(txid, vout)| OutPoint { txid, vout }).collect(),
        output: (0..n_outputs).map(|i| TxOut { value: 10_000 * (i as u64 + 1) }).collect(),
    }
}

fn block(height: u32, hash: [u8; 32]) -> BlockId {
    BlockId { height, hash }
}

fn anchor(b: BlockId, confirmation_time: u64) -> Anchor {
    Anchor { block_id: b, confirmation_time }
}

fn empty_update() -> Update {
    Update { chain: None, tx_update: TxUpdate::new() }
}

/// A wallet at genesis and an update that funds it: one transaction confirmed
/// at height 1000 and one spending it at height 2000.
fn new_wallet_and_funding_update() -> (Wallet, Transaction, Transaction, Update) {
    let wallet = Wallet::new(GENESIS);
    let tx0 = tx(1, &[([0xaa; 32], 0)], 1);
    let tx1 = tx(2, &[([1; 32], 0)], 2);
    let mut update = empty_update();
    update.chain = Some(vec![block(0, GENESIS), block(1000, [0; 32]), block(2000, [0; 32])]);
    update.tx_update.txs = vec![tx0.clone(), tx1.clone()];
    update.tx_update.anchors = vec![
        (anchor(block(1000, [0; 32]), 100), tx0.txid),
        (anchor(block(2000, [0; 32]), 200), tx1.txid),
    ];
    (wallet, tx0, tx1, update)
}

fn funded_wallet() -> Wallet {
    let (mut wallet, _, _, update) = new_wallet_and_funding_update();
    wallet.apply_update_events(update).unwrap();
    wallet
}

fn unconfirmed_tx_update(t: &Transaction, seen: u64) -> Update {
    let mut update = empty_update();
    update.tx_update.txs = vec![t.clone()];
    update.tx_update.seen_ats = vec![(t.txid, seen)];
    update
}

#[test]
fn test_new_confirmed_tx_event() {
    let (mut wallet, _, _, update) = new_wallet_and_funding_update();
    let genesis = BlockId { height: 0, hash: wallet.local_chain().genesis_hash() };
    let events = wallet.apply_update_events(update).unwrap();
    let new_tip1 = wallet.local_chain().tip();
    assert_eq!(events.len(), 3);
    assert!(
        matches!(events[0], WalletEvent::ChainTipChanged { old_tip, new_tip } if old_tip == genesis && new_tip == new_tip1)
    );
    assert!(
        matches!(events[1], WalletEvent::TxConfirmed { block_time, .. } if block_time.block_id.height == 1000)
    );
    assert!(matches!(&events[1], WalletEvent::TxConfirmed { tx, .. } if tx.output.len() == 1));
    assert!(
        matches!(events[2], WalletEvent::TxConfirmed { block_time, .. } if block_time.block_id.height == 2000)
    );
    assert!(matches!(&events[2], WalletEvent::TxConfirmed { tx, .. } if tx.output.len() == 2));
}

#[test]
fn test_tx_unconfirmed_event() {
    let mut wallet = funded_wallet();
    let reorg_block = block(2_000, [1; 32]);
    let mut reorg_update = empty_update();
    reorg_update.chain = Some(vec![block(1000, [0; 32]), reorg_block]);
    let old_tip1 = wallet.local_chain().tip();
    let events = wallet.apply_update_events(reorg_update).unwrap();
    let new_tip1 = wallet.local_chain().tip();
    assert_eq!(events.len(), 2);
    assert!(
        matches!(events[0], WalletEvent::ChainTipChanged { old_tip, new_tip } if old_tip == old_tip1 && new_tip == new_tip1)
    );
    assert!(
        matches!(&events[1], WalletEvent::TxUnconfirmed { tx, old_block_time, .. } if tx.output.len() == 2 && old_block_time.is_some())
    );
}

#[test]
fn test_tx_replaced_event() {
    let mut wallet = funded_wallet();
    let orig_tx = tx(3, &[([2; 32], 0)], 2);
    let orig_txid = orig_tx.txid;
    let events = wallet.apply_update_events(unconfirmed_tx_update(&orig_tx, 210)).unwrap();
    assert_eq!(events.len(), 1);
    assert!(matches!(events[0], WalletEvent::TxUnconfirmed { .. }));
    assert!(matches!(&events[0], WalletEvent::TxUnconfirmed { tx, .. } if tx.txid == orig_txid));

    // a fee bump spending the same input
    let rbf_tx = tx(4, &[([2; 32], 0)], 2);
    let rbf_txid = rbf_tx.txid;
    let mut update = empty_update();
    update.tx_update.txs = vec![rbf_tx.clone()];
    update.tx_update.evicted_ats = vec![(orig_txid, 220)];
    update.tx_update.seen_ats = vec![(rbf_txid, 220)];
    let events = wallet.apply_update_events(update).unwrap();
    assert_eq!(events.len(), 2);
    assert!(matches!(events[0], WalletEvent::TxUnconfirmed { txid, .. } if txid == rbf_txid));
    assert!(matches!(events[1], WalletEvent::TxReplaced { txid, .. } if txid == orig_txid));
    assert!(
        matches!(&events[1], WalletEvent::TxReplaced { conflicts, .. } if conflicts.len() == 1 &&
            conflicts.contains(&(0, rbf_txid)))
    );
}

#[test]
fn test_tx_confirmed_event() {
    let mut wallet = funded_wallet();
    let new_tx = tx(3, &[([2; 32], 0)], 2);
    let new_txid = new_tx.txid;
    let events = wallet.apply_update_events(unconfirmed_tx_update(&new_tx, 210)).unwrap();
    assert_eq!(events.len(), 1);
    assert!(matches!(events[0], WalletEvent::TxUnconfirmed { .. }));
    assert!(matches!(&events[0], WalletEvent::TxUnconfirmed { tx, .. } if tx.txid == new_txid));

    // confirm it
    let parent_block = block(2000, [0; 32]);
    let new_block = block(2100, [0; 32]);
    let mut update = empty_update();
    update.chain = Some(vec![parent_block, new_block]);
    update.tx_update.anchors = vec![(anchor(new_block, 300), new_txid)];
    let orig_tip = wallet.local_chain().tip();
    let events = wallet.apply_update_events(update).unwrap();
    assert_eq!(events.len(), 2);
    assert!(
        matches!(events[0], WalletEvent::ChainTipChanged { old_tip, new_tip } if old_tip == orig_tip && new_tip == new_block)
    );
    assert!(matches!(events[1], WalletEvent::TxConfirmed { txid, .. } if txid == new_txid));
}

#[test]
fn test_tx_confirmed_new_block_event() {
    let mut wallet = funded_wallet();
    let new_tx = tx(3, &[([2; 32], 0)], 2);
    let new_txid = new_tx.txid;
    let events = wallet.apply_update_events(unconfirmed_tx_update(&new_tx, 210)).unwrap();
    assert_eq!(events.len(), 1);
    assert!(matches!(events[0], WalletEvent::TxUnconfirmed { .. }));
    assert!(matches!(&events[0], WalletEvent::TxUnconfirmed { tx, .. } if tx.txid == new_txid));

    // confirm it
    let parent_block = block(2000, [0; 32]);
    let new_block = block(2100, [0; 32]);
    let mut update = empty_update();
    update.chain = Some(vec![parent_block, new_block]);
    update.tx_update.anchors = vec![(anchor(new_block, 300), new_txid)];
    let orig_tip = wallet.local_chain().tip();
    let events = wallet.apply_update_events(update).unwrap();
    assert_eq!(events.len(), 2);
    assert!(
        matches!(events[0], WalletEvent::ChainTipChanged { old_tip, new_tip } if old_tip == orig_tip && new_tip == new_block)
    );
    assert!(matches!(events[1], WalletEvent::TxConfirmed { txid, .. } if txid == new_txid));

    // its block is replaced, and it is confirmed again in the new one
    let reorg_block = block(2100, [1; 32]);
    let mut update = empty_update();
    update.chain = Some(vec![parent_block, reorg_block]);
    update.tx_update.anchors = vec![(anchor(reorg_block, 310), new_txid)];
    let events = wallet.apply_update_events(update).unwrap();
    assert_eq!(events.len(), 2);
    assert!(
        matches!(events[0], WalletEvent::ChainTipChanged { old_tip, new_tip } if old_tip == new_block && new_tip == reorg_block)
    );
    assert!(
        matches!(events[1], WalletEvent::TxConfirmed { txid, block_time, old_block_time, .. } if txid == new_txid && block_time.block_id == reorg_block && old_block_time.is_some())
    );
}

#[test]
fn test_tx_dropped_event() {
    let mut wallet = funded_wallet();
    let new_tx = tx(3, &[([2; 32], 0)], 2);
    let new_txid = new_tx.txid;
    let events = wallet.apply_update_events(unconfirmed_tx_update(&new_tx, 210)).unwrap();
    assert_eq!(events.len(), 1);
    assert!(matches!(events[0], WalletEvent::TxUnconfirmed { .. }));
    assert!(matches!(&events[0], WalletEvent::TxUnconfirmed { tx, .. } if tx.txid == new_txid));

    let mut update = empty_update();
    update.tx_update.evicted_ats = vec![(new_txid, 220)];
    let events = wallet.apply_update_events(update).unwrap();
    assert_eq!(events.len(), 1);
    assert!(matches!(events[0], WalletEvent::TxDropped { txid, .. } if txid == new_txid));
}

#[test]
fn applying_the_same_update_twice_gives_no_events() {
    let (mut wallet, _, _, update) = new_wallet_and_funding_update();
    wallet.apply_update_events(update).unwrap();
    let tip = wallet.local_chain().tip();
    let n_txs = wallet.tx_store().txs().len();
    let n_anchors = wallet.tx_store().anchors().len();
    let (_, _, _, again) = new_wallet_and_funding_update();
    let events = wallet.apply_update_events(again).unwrap();
    assert!(events.is_empty());
    assert_eq!(wallet.local_chain().tip(), tip);
    assert_eq!(wallet.tx_store().txs().len(), n_txs);
    assert_eq!(wallet.tx_store().anchors().len(), n_anchors);
}

#[test]
fn empty_update_gives_no_events() {
    let mut wallet = funded_wallet();
    let blocks = wallet.local_chain().blocks().clone();
    let entries = wallet.tx_store().entries().clone();
    let events = wallet.apply_update_events(empty_update()).unwrap();
    assert!(events.is_empty());
    assert_eq!(wallet.local_chain().blocks(), &blocks);
    assert_eq!(wallet.tx_store().entries(), &entries);
}

#[test]
fn tip_event_comes_once_and_only_when_the_tip_moves() {
    let mut wallet = funded_wallet();
    // a suffix that holds only known blocks leaves the tip where it is
    let mut update = empty_update();
    update.chain = Some(vec![block(1000, [0; 32]), block(2000, [0; 32])]);
    let events = wallet.apply_update_events(update).unwrap();
    assert!(events.is_empty());
    let mut update = empty_update();
    update.chain = Some(vec![block(2000, [0; 32]), block(2001, [5; 32]), block(2002, [6; 32])]);
    let events = wallet.apply_update_events(update).unwrap();
    assert_eq!(events.len(), 1);
    assert_eq!(
        events[0],
        WalletEvent::ChainTipChanged { old_tip: block(2000, [0; 32]), new_tip: block(2002, [6; 32]) }
    );
}

#[test]
fn status_is_confirmed_then_unconfirmed_never_both() {
    let mut wallet = funded_wallet();
    let t = tx(3, &[([2; 32], 1)], 1);
    wallet.apply_update_events(unconfirmed_tx_update(&t, 50)).unwrap();
    let s = status(&t.txid, wallet.local_chain(), wallet.tx_store());
    assert_eq!(s.status, CanonicalStatus::Unconfirmed(50));
    let mut update = empty_update();
    update.tx_update.anchors = vec![(anchor(block(2000, [0; 32]), 7), t.txid)];
    wallet.apply_update_events(update).unwrap();
    let s = status(&t.txid, wallet.local_chain(), wallet.tx_store());
    assert_eq!(s.status, CanonicalStatus::Confirmed(anchor(block(2000, [0; 32]), 7)));
}

#[test]
fn lowest_anchor_wins() {
    let mut wallet = funded_wallet();
    let t = tx(3, &[([2; 32], 1)], 1);
    let mut update = unconfirmed_tx_update(&t, 50);
    update.tx_update.anchors = vec![
        (anchor(block(2000, [0; 32]), 9), t.txid),
        (anchor(block(1000, [0; 32]), 8), t.txid),
    ];
    let events = wallet.apply_update_events(update).unwrap();
    assert_eq!(events.len(), 1);
    assert!(
        matches!(events[0], WalletEvent::TxConfirmed { block_time, old_block_time: None, .. } if block_time.block_id.height == 1000)
    );
}

#[test]
fn equal_last_seen_smaller_txid_wins() {
    let mut wallet = funded_wallet();
    let a = tx(7, &[([2; 32], 0)], 1);
    let b = tx(5, &[([2; 32], 0)], 1);
    let mut update = empty_update();
    update.tx_update.txs = vec![a.clone(), b.clone()];
    update.tx_update.seen_ats = vec![(a.txid, 300), (b.txid, 300)];
    wallet.apply_update_events(update).unwrap();
    let sa = status(&a.txid, wallet.local_chain(), wallet.tx_store());
    let sb = status(&b.txid, wallet.local_chain(), wallet.tx_store());
    assert_eq!(sb.status, CanonicalStatus::Unconfirmed(300));
    assert_eq!(sa.status, CanonicalStatus::Unknown);
    assert_eq!(sa.winner, Some(b.txid));
}

#[test]
fn confirmed_conflict_supersedes_later_seen() {
    let mut wallet = funded_wallet();
    let a = tx(7, &[([2; 32], 0)], 1);
    let b = tx(5, &[([2; 32], 0)], 1);
    let mut update = empty_update();
    update.tx_update.txs = vec![a.clone(), b.clone()];
    update.tx_update.seen_ats = vec![(a.txid, 900)];
    update.tx_update.evicted_ats = vec![(a.txid, 150)];
    update.tx_update.anchors = vec![(anchor(block(2000, [0; 32]), 150), b.txid)];
    let events = wallet.apply_update_events(update).unwrap();
    let sa = status(&a.txid, wallet.local_chain(), wallet.tx_store());
    assert_eq!(sa.status, CanonicalStatus::Evicted);
    assert_eq!(sa.winner, Some(b.txid));
    assert_eq!(events.len(), 2);
    assert!(matches!(events[0], WalletEvent::TxConfirmed { txid, .. } if txid == b.txid));
    assert!(matches!(&events[1], WalletEvent::TxReplaced { txid, conflicts } if *txid == a.txid && conflicts == &vec![(0usize, b.txid)]));
}

#[test]
fn disconnected_suffix_is_refused_and_nothing_changes() {
    let mut wallet = funded_wallet();
    let tip = wallet.local_chain().tip();
    let mut update = empty_update();
    update.chain = Some(vec![block(1500, [3; 32]), block(2500, [3; 32])]);
    update.tx_update.txs = vec![tx(9, &[], 1)];
    assert_eq!(wallet.apply_update_events(update).unwrap_err(), ApplyError::Chain(ChainError::Disconnected));
    assert_eq!(wallet.local_chain().tip(), tip);
    assert_eq!(wallet.tx_store().txs().len(), 2);
    let mut update = empty_update();
    update.chain = Some(vec![]);
    assert_eq!(wallet.apply_update_events(update).unwrap_err(), ApplyError::Chain(ChainError::Disconnected));
    let mut update = empty_update();
    update.chain = Some(vec![block(1000, [0; 32]), block(900, [1; 32])]);
    assert_eq!(wallet.apply_update_events(update).unwrap_err(), ApplyError::Chain(ChainError::Disconnected));
}

#[test]
fn anchor_to_unknown_block_is_refused() {
    let mut wallet = funded_wallet();
    let t = tx(3, &[], 1);
    let mut update = empty_update();
    update.tx_update.txs = vec![t.clone()];
    update.tx_update.anchors = vec![(anchor(block(1500, [3; 32]), 1), t.txid)];
    assert_eq!(wallet.apply_update_events(update).unwrap_err(), ApplyError::InvalidAnchor);
    assert_eq!(wallet.tx_store().txs().len(), 2);
}

#[test]
fn timestamp_for_unknown_tx_is_refused() {
    let mut wallet = funded_wallet();
    let mut update = empty_update();
    update.tx_update.txs = vec![tx(3, &[], 1)];
    update.tx_update.seen_ats = vec![([8; 32], 5)];
    assert_eq!(wallet.apply_update_events(update).unwrap_err(), ApplyError::Store(StoreError::UnknownTx));
    assert_eq!(wallet.tx_store().txs().len(), 2);
}

#[test]
fn timestamps_are_only_raised() {
    let mut wallet = funded_wallet();
    let t = tx(3, &[], 1);
    wallet.apply_update_events(unconfirmed_tx_update(&t, 500)).unwrap();
    let mut update = empty_update();
    update.tx_update.seen_ats = vec![(t.txid, 400)];
    let events = wallet.apply_update_events(update).unwrap();
    assert!(events.is_empty());
    let e = wallet.tx_store().entries().iter().find(|e| e.txid == t.txid).unwrap();
    assert_eq!(e.last_seen, Some(500));
}

#[test]
fn chain_apply_extends_and_reorganises() {
    let mut chain = LocalChain::new(GENESIS);
    assert_eq!(chain.apply(&vec![block(0, GENESIS), block(5, [1; 32]), block(9, [2; 32])]), Ok(true));
    assert_eq!(chain.tip(), block(9, [2; 32]));
    assert_eq!(chain.apply(&vec![block(5, [1; 32])]), Ok(false));
    assert_eq!(chain.apply(&vec![block(5, [1; 32]), block(7, [3; 32])]), Ok(true));
    assert_eq!(chain.blocks(), &vec![block(0, GENESIS), block(5, [1; 32]), block(7, [3; 32])]);
    assert!(chain.contains(&block(5, [1; 32])));
    assert!(!chain.contains(&block(9, [2; 32])));
    assert_eq!(chain.apply(&vec![block(6, [1; 32])]), Err(ChainError::Disconnected));
}

#[test]
fn suffix_right_above_the_tip_extends_the_chain() {
    let mut chain = LocalChain::new(GENESIS);
    assert_eq!(chain.apply(&vec![block(1, [1; 32]), block(2, [2; 32])]), Ok(true));
    assert_eq!(chain.blocks(), &vec![block(0, GENESIS), block(1, [1; 32]), block(2, [2; 32])]);
    assert_eq!(chain.apply(&vec![block(4, [4; 32])]), Err(ChainError::Disconnected));
}

#[test]
fn conflicts_are_listed_by_input_then_store_order() {
    let mut wallet = funded_wallet();
    let a = tx(7, &[([2; 32], 0), ([2; 32], 1)], 1);
    let b = tx(8, &[([2; 32], 1)], 1);
    let c = tx(9, &[([2; 32], 0), ([2; 32], 1)], 1);
    let mut update = empty_update();
    update.tx_update.txs = vec![a.clone(), b.clone(), c.clone()];
    wallet.apply_update_events(update).unwrap();
    let store = wallet.tx_store();
    assert_eq!(store.conflicts_of(&a.txid), vec![(0, c.txid), (1, b.txid), (1, c.txid)]);
    assert_eq!(store.conflicts_of(&b.txid), vec![(0, a.txid), (0, c.txid)]);
    assert!(store.conflicts_of(&[1; 32]).is_empty());
    assert!(store.conflicts_of(&[0xee; 32]).is_empty());
}
