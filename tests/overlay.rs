use tx_fuzzer::hash::TxHash;
use tx_fuzzer::overlay::{Overlay, OverlayError, TxOverlay, TxOverlayChanges};
use tx_fuzzer::status::{CellStatus, TxOutputsStatus, TxStatus};
use tx_fuzzer::store::StatusStore;
use tx_fuzzer::tx::{OutPoint, TxSummary};

fn h(b: u8) -> TxHash {
    let mut x = [0u8; 32];
    x[0] = b;
    x
}

fn outs(s: Vec<CellStatus>) -> TxOutputsStatus {
    TxOutputsStatus { statuses: s }
}

fn entry(id: u8, spends: Vec<(u8, u32)>, caps: Vec<u64>, changes: TxOverlayChanges) -> TxOverlay {
    let summary = TxSummary {
        hash: h(id),
        inputs: spends.into_iter().map(|(t, i)| OutPoint { tx_hash: h(t), index: i }).collect(),
        output_capacities: caps,
    };
    TxOverlay::new(ckb_types::core::TransactionView::new_advanced_builder().build(), summary, changes)
}

fn statuses(t: TxStatus) -> Vec<CellStatus> {
    match t {
        TxStatus::Pending(o) | TxStatus::Committed(o) => o.statuses,
        TxStatus::Failed => vec![],
    }
}

#[test]
fn later_revision_wins_over_generated_status() {
    let mut store = StatusStore::new();
    store.confirm_block(&vec![(h(1), 2)]).unwrap();
    let mut overlay = Overlay::new(&store);
    // A spends output 0 of the stored transaction.
    let a = entry(
        10,
        vec![(1, 0)],
        vec![100, 200],
        TxOverlayChanges::Pending {
            new: outs(vec![CellStatus::Live, CellStatus::Live]),
            updates: vec![(h(1), TxStatus::Committed(outs(vec![CellStatus::Dead, CellStatus::Live])))],
        },
    );
    // B spends output 1 of A.
    let b = entry(
        20,
        vec![(10, 1)],
        vec![150],
        TxOverlayChanges::Pending {
            new: outs(vec![CellStatus::Live]),
            updates: vec![(h(10), TxStatus::Pending(outs(vec![CellStatus::Live, CellStatus::Dead])))],
        },
    );
    overlay.add_tx(a).unwrap();
    overlay.add_tx(b).unwrap();

    let a_status = overlay.get_tx_status(&h(10)).unwrap();
    assert!(matches!(a_status, TxStatus::Pending(_)));
    assert_eq!(statuses(a_status), vec![CellStatus::Live, CellStatus::Dead]);
    assert_eq!(
        statuses(overlay.get_tx_status(&h(1)).unwrap()),
        vec![CellStatus::Dead, CellStatus::Live]
    );
    assert_eq!(statuses(overlay.get_tx_status(&h(20)).unwrap()), vec![CellStatus::Live]);
    assert_eq!(overlay.get_tx_status(&h(99)).unwrap_err(), OverlayError::Unknown(h(99)));
    assert_eq!(overlay.get_tx(&h(10)).unwrap(), vec![100, 200]);
    assert!(overlay.get_tx(&h(1)).is_none());
    assert!(overlay.has_tx(&h(20)));
    assert!(!overlay.has_tx(&h(1)));
}

#[test]
fn duplicate_entry_is_refused() {
    let store = StatusStore::new();
    let mut overlay = Overlay::new(&store);
    let mk = || entry(5, vec![], vec![], TxOverlayChanges::Failed { updates: vec![] });
    overlay.add_tx(mk()).unwrap();
    assert_eq!(overlay.add_tx(mk()).unwrap_err(), OverlayError::Duplicate(h(5)));
}

#[test]
fn overlay_live_count_nets_out_entries() {
    let mut store = StatusStore::new();
    store.confirm_block(&vec![(h(1), 10)]).unwrap();
    let mut overlay = Overlay::new(&store);
    assert_eq!(overlay.live_cells_count(), 10);
    overlay
        .add_tx(entry(
            2,
            vec![(1, 0), (1, 1)],
            vec![1, 2, 3],
            TxOverlayChanges::Pending { new: outs(vec![CellStatus::Live; 3]), updates: vec![] },
        ))
        .unwrap();
    assert_eq!(overlay.live_cells_count(), 5);
    overlay
        .add_tx(entry(3, vec![(1, 5)], vec![], TxOverlayChanges::Failed { updates: vec![] }))
        .unwrap();
    assert_eq!(overlay.live_cells_count(), 5);
    overlay
        .add_tx(entry(
            4,
            vec![(1, 2), (1, 3), (1, 4)],
            vec![9, 9, 9],
            TxOverlayChanges::Pending { new: outs(vec![CellStatus::Live; 3]), updates: vec![] },
        ))
        .unwrap();
    assert_eq!(overlay.live_cells_count(), 0);
}

#[test]
fn entry_accessors() {
    let e = entry(
        7,
        vec![],
        vec![3],
        TxOverlayChanges::Committed {
            new: outs(vec![CellStatus::Burn]),
            updates: vec![(h(1), TxStatus::Failed)],
        },
    );
    assert!(!e.is_failed());
    assert!(matches!(e.status(), TxStatus::Committed(_)));
    let (t, u) = e.changes().ok().unwrap();
    assert_eq!(statuses(t), vec![CellStatus::Burn]);
    assert_eq!(u.len(), 1);
    let f = entry(8, vec![], vec![], TxOverlayChanges::Failed { updates: vec![] });
    assert!(f.is_failed());
    assert!(f.changes().is_err());
}
