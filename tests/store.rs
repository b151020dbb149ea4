use tx_fuzzer::hash::TxHash;
use tx_fuzzer::stats::CacheStats;
use tx_fuzzer::status::{CellStatus, TxOutputsStatus, TxStatus};
use tx_fuzzer::store::{StatusStore, StoreError, TxBody};

fn h(b: u8) -> TxHash {
    let mut x = [0u8; 32];
    x[0] = b;
    x
}

fn body(b: u8, caps: Vec<u64>) -> TxBody {
    TxBody { hash: h(b), output_capacities: caps }
}

fn pending(s: Vec<CellStatus>) -> TxStatus {
    TxStatus::Pending(TxOutputsStatus { statuses: s })
}

/// Live cells recounted by decoding every persisted record.
fn recount(store: &StatusStore) -> usize {
    store
        .encoded_records()
        .iter()
        .map(|(_, bytes)| match TxStatus::from_slice(bytes).unwrap() {
            TxStatus::Pending(o) | TxStatus::Committed(o) => {
                o.statuses.iter().filter(|c| **c == CellStatus::Live).count()
            }
            TxStatus::Failed => 0,
        })
        .sum()
}

fn live_of(store: &StatusStore, b: u8) -> Vec<CellStatus> {
    match store.get_status(&h(b)).unwrap() {
        TxStatus::Pending(o) | TxStatus::Committed(o) => o.statuses,
        TxStatus::Failed => vec![],
    }
}

#[test]
fn live_count_matches_recount_through_operations() {
    let mut store = StatusStore::new();
    assert_eq!(store.live_cell_count(), 0);
    store.confirm_block(&vec![(h(1), 3)]).unwrap();
    assert_eq!(store.live_cell_count(), 3);
    assert_eq!(recount(&store), 3);

    // Spend two outputs of the reward into a pending transaction with one output.
    let updates = vec![(
        h(1),
        TxStatus::Committed(TxOutputsStatus {
            statuses: vec![CellStatus::Dead, CellStatus::Dead, CellStatus::Live],
        }),
    )];
    store.submit(body(2, vec![500]), pending(vec![CellStatus::Live]), updates);
    assert_eq!(store.live_cell_count(), 2);
    assert_eq!(recount(&store), 2);

    store.submit_invalid(body(3, vec![]));
    assert_eq!(store.live_cell_count(), recount(&store));
    assert_eq!(store.stats().tx_failed_cnt(), 1);

    store.reconcile_invalid(&h(3), &TxStatus::Failed);
    assert!(store.get_status(&h(3)).is_none());
    assert_eq!(store.live_cell_count(), recount(&store));

    store.confirm_block(&vec![(h(9), 0), (h(2), 1)]).unwrap();
    assert!(matches!(store.get_status(&h(2)).unwrap(), TxStatus::Committed(_)));
    assert!(store.get_transaction(&h(2)).is_none());
    assert_eq!(store.live_cell_count(), 2);
    assert_eq!(recount(&store), 2);
    assert_eq!(store.stats().tx_pending_cnt(), 0);
    assert_eq!(store.stats().tx_committed_cnt(), 2);
}

#[test]
fn confirm_twice_fails_second_time() {
    let mut store = StatusStore::new();
    store.submit(body(2, vec![100]), pending(vec![CellStatus::Live]), vec![]);
    store.confirm_block(&vec![(h(1), 1), (h(2), 1)]).unwrap();
    let second = store.confirm_block(&vec![(h(5), 1), (h(2), 1)]);
    assert_eq!(second, Err(StoreError::ConfirmedTwice(h(2))));
}

#[test]
fn confirm_failed_and_unknown_are_refused() {
    let mut store = StatusStore::new();
    store.submit_invalid(body(4, vec![]));
    assert_eq!(
        store.confirm_block(&vec![(h(1), 0), (h(4), 0)]),
        Err(StoreError::ConfirmedFailed(h(4)))
    );
    assert_eq!(
        store.confirm_block(&vec![(h(1), 0), (h(8), 0)]),
        Err(StoreError::ConfirmedUnknown(h(8)))
    );
}

#[test]
fn failed_while_pending_marker_is_consumed() {
    let mut store = StatusStore::new();
    store.submit(body(6, vec![100]), pending(vec![CellStatus::Live]), vec![]);
    store.reconcile_invalid(&h(6), &pending(vec![CellStatus::Live]));
    assert!(store.get_status(&h(6)).is_none());
    store.confirm_block(&vec![(h(1), 0), (h(6), 1)]).unwrap();
    // The marker is gone: a second confirmation is unknown.
    assert_eq!(
        store.confirm_block(&vec![(h(1), 0), (h(6), 1)]),
        Err(StoreError::ConfirmedUnknown(h(6)))
    );
}

#[test]
fn reward_replaces_stale_record() {
    let mut store = StatusStore::new();
    store.submit(body(1, vec![7]), pending(vec![CellStatus::Dead]), vec![]);
    store.confirm_block(&vec![(h(1), 2)]).unwrap();
    assert_eq!(live_of(&store, 1), vec![CellStatus::Live, CellStatus::Live]);
    assert_eq!(store.stats().tx_pending_cnt(), 0);
    assert_eq!(store.live_cell_count(), 2);
}

#[test]
fn next_status_wraps_around() {
    let mut store = StatusStore::new();
    assert_eq!(store.next_status_from(&h(0)).unwrap_err(), StoreError::Empty);
    store.confirm_block(&vec![(h(3), 1)]).unwrap();
    store.confirm_block(&vec![(h(7), 2)]).unwrap();
    assert_eq!(store.next_status_from(&h(0)).unwrap().0, h(3));
    assert_eq!(store.next_status_from(&h(3)).unwrap().0, h(3));
    assert_eq!(store.next_status_from(&h(4)).unwrap().0, h(7));
    assert_eq!(store.next_status_from(&h(9)).unwrap().0, h(3));
}

#[test]
fn load_rebuilds_counters_and_refuses_corrupt_records() {
    let mut store = StatusStore::new();
    store.confirm_block(&vec![(h(1), 4)]).unwrap();
    store.submit(body(2, vec![5, 6]), pending(vec![CellStatus::Live, CellStatus::Burn]), vec![]);
    let records = store.encoded_records();
    let loaded = StatusStore::load(&records, vec![body(2, vec![5, 6])], &vec![h(9)]).unwrap();
    assert_eq!(loaded.live_cell_count(), 5);
    assert_eq!(loaded.stats().tx_pending_cnt(), 1);
    assert_eq!(loaded.get_transaction(&h(2)).unwrap(), vec![5, 6]);

    let bad = vec![(h(1), vec![0x01, 1, 0, 0, 0, 0b0100_0000])];
    assert!(matches!(
        StatusStore::load(&bad, vec![], &vec![]),
        Err(StoreError::Corrupt(_))
    ));
}

#[test]
fn cache_stats_operations() {
    let mut s = CacheStats::new();
    s.load_tx(&pending(vec![CellStatus::Live, CellStatus::Live, CellStatus::Dead]));
    assert_eq!((s.tx_pending_cnt(), s.cell_live_cnt()), (1, 2));
    s.commit_pending();
    assert_eq!((s.tx_pending_cnt(), s.tx_committed_cnt()), (0, 1));
    s.commit_cellbase(5);
    assert_eq!((s.tx_committed_cnt(), s.cell_live_cnt()), (2, 7));
    s.submit_tx(3, &pending(vec![CellStatus::Live]));
    assert_eq!((s.tx_pending_cnt(), s.cell_live_cnt()), (1, 5));
    s.remove_tx(&pending(vec![CellStatus::Live]));
    assert_eq!((s.tx_pending_cnt(), s.cell_live_cnt()), (0, 4));
    s.load_tx(&TxStatus::Failed);
    assert_eq!(s.tx_failed_cnt(), 1);
    s.load_cells(&[CellStatus::Live, CellStatus::Burn]);
    assert_eq!(s.cell_live_cnt(), 5);
}
