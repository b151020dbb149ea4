use ckb_types::packed::{Byte32, CellDep};
use ckb_types::prelude::{Entity, Unpack};
use tx_fuzzer::hash::{compare_hash, TxHash};
use tx_fuzzer::overlay::{Overlay, OverlayError, TxOverlay, TxOverlayChanges};
use tx_fuzzer::policy::{
    continue_outcome, data_hash_type_outcome, has_next_transaction, lock_outcome, rare_outcome, type_outcome,
    u64_between, RandomGenerator, RandomSource,
};
use tx_fuzzer::status::{CellStatus, TxOutputsStatus, TxStatus};
use tx_fuzzer::store::{StatusStore, TxBody};
use tx_fuzzer::strategy::{
    add_generated, assemble_transaction, build_changes, finish_transaction, generate_inputs, generate_outputs,
    partition_capacity, partition_of, pick_cell, plan_outputs, push_input, GenerationError, RawOutputCell,
    InputCell, RawInputCell, Status, FEE_SHANNONS, SMALLEST_SHANNONS,
};
use tx_fuzzer::tx::{OutputPlan, ScriptAnchor, ScriptPlan, TxSummary};

/// Hands out the given draws in order, then zeros.
struct Scripted {
    vals: Vec<u64>,
    pos: usize,
}

impl Scripted {
    fn new(vals: Vec<u64>) -> Self {
        Scripted { vals, pos: 0 }
    }
}

impl RandomSource for Scripted {
    fn below(&mut self, limit: u64) -> u64 {
        let v = self.vals.get(self.pos).copied().unwrap_or(0);
        self.pos += 1;
        v % limit
    }

    fn random_hash(&mut self) -> TxHash {
        [0u8; 32]
    }
}

fn h(b: u8) -> TxHash {
    let mut x = [0u8; 32];
    x[0] = b;
    x
}

fn anchor() -> ScriptAnchor {
    ScriptAnchor::new(CellDep::default(), Byte32::default(), Byte32::default())
}

fn statuses(t: TxStatus) -> Vec<CellStatus> {
    match t {
        TxStatus::Pending(o) | TxStatus::Committed(o) => o.statuses,
        TxStatus::Failed => vec![],
    }
}

const CKB: u64 = 100_000_000;

#[test]
fn spend_both_outputs_of_committed_transaction() {
    let t0 = h(1);
    let mut store = StatusStore::new();
    store.confirm_block(&vec![(t0, 2)]).unwrap();
    let overlay = Overlay::new(&store);

    // no-inputs 5; pick output 0; another input; pick output 1; no more inputs.
    let mut rg = Scripted::new(vec![5, 0, 3, 1, 0]);
    let raw = generate_inputs(&mut rg, &overlay).unwrap();
    assert_eq!(raw.len(), 2);
    assert_eq!((raw[0].tx_hash, raw[0].index, raw[0].status), (t0, 0, Status::Committed));
    assert_eq!((raw[1].tx_hash, raw[1].index, raw[1].status), (t0, 1, Status::Committed));

    let fetched = vec![(t0, vec![200 * CKB, 300 * CKB])];
    let remain = 500 * CKB - FEE_SHANNONS;
    // no-outputs 5; overflow 5; one output taking all; lock succeeds; cycles;
    // hash type; no type script; no data.
    let mut rg = Scripted::new(vec![5, 5, remain - SMALLEST_SHANNONS - 1, 50, 0, 50, 10, 0]);
    let tx = finish_transaction(&mut rg, &overlay, &raw, &fetched, &anchor()).unwrap();
    assert_eq!(tx.summary.output_capacities, vec![200 * CKB + 300 * CKB - FEE_SHANNONS]);
    // The ledger transaction carries the same inputs, output and id.
    let view = tx.view();
    assert_eq!(view.hash().as_slice(), &tx.summary.hash[..]);
    assert_eq!(view.inputs().len(), 2);
    let out = view.outputs().get(0).unwrap();
    assert_eq!(Unpack::<u64>::unpack(&out.capacity()), 500 * CKB - FEE_SHANNONS);
    assert_eq!(out.lock().hash_type().as_slice(), &[1u8][..]);
    assert_eq!(out.lock().args().raw_data().len(), 32);
    assert_eq!(&out.lock().args().raw_data()[..8], &[0u8; 8][..]);
    assert!(out.type_().to_opt().is_none());
    let (status, updates) = tx.changes().ok().unwrap();
    assert!(matches!(status, TxStatus::Pending(_)));
    assert_eq!(statuses(status), vec![CellStatus::Live]);
    assert_eq!(updates.len(), 1);
    assert_eq!(updates[0].0, t0);
    assert_eq!(statuses(updates[0].1.copy()), vec![CellStatus::Dead, CellStatus::Dead]);

    let new_hash = tx.summary.hash;
    let (st, ups) = tx.changes().ok().unwrap();
    store.submit(TxBody { hash: new_hash, output_capacities: tx.summary.output_capacities.clone() }, st, ups);
    assert_eq!(statuses(store.get_status(&t0).unwrap()), vec![CellStatus::Dead, CellStatus::Dead]);
    let new_status = store.get_status(&new_hash).unwrap();
    assert!(matches!(new_status, TxStatus::Pending(_)));
    assert_eq!(statuses(new_status), vec![CellStatus::Live]);
}

#[test]
fn failed_transaction_is_picked_only_on_rare_draw() {
    assert!(pick_cell(&mut Scripted::new(vec![7]), h(3), &TxStatus::Failed).is_none());
    let c = pick_cell(&mut Scripted::new(vec![0]), h(3), &TxStatus::Failed).unwrap();
    assert_eq!((c.tx_hash, c.index, c.status), (h(3), 0, Status::Failed));

    let mut store = StatusStore::new();
    store.submit_invalid(TxBody { hash: h(3), output_capacities: vec![] });
    let overlay = Overlay::new(&store);
    // no-inputs 5; not from the failed one (7); then it fires (0); stop (0).
    let raw = generate_inputs(&mut Scripted::new(vec![5, 7, 0, 0]), &overlay).unwrap();
    assert_eq!(raw.len(), 1);
    assert_eq!((raw[0].tx_hash, raw[0].index, raw[0].status), (h(3), 0, Status::Failed));
}

#[test]
fn burned_and_dead_cells_are_taken_only_as_failing() {
    let t = TxStatus::Committed(TxOutputsStatus { statuses: vec![CellStatus::Burn, CellStatus::Dead] });
    // offset 0; burn declined; dead declined.
    assert!(pick_cell(&mut Scripted::new(vec![0, 1, 1]), h(4), &t).is_none());
    // offset 1; dead accepted.
    let c = pick_cell(&mut Scripted::new(vec![1, 0]), h(4), &t).unwrap();
    assert_eq!((c.index, c.status), (1, Status::Failed));
}

#[test]
fn zero_inputs_give_failed_transaction_without_changes() {
    let store = StatusStore::new();
    let overlay = Overlay::new(&store);
    let raw: Vec<RawInputCell> = vec![];
    let tx = finish_transaction(&mut Scripted::new(vec![]), &overlay, &raw, &vec![], &anchor()).unwrap();
    assert!(tx.is_failed());
    assert!(tx.summary.output_capacities.is_empty());
    match tx.changes {
        TxOverlayChanges::Failed { updates } => assert!(updates.is_empty()),
        _ => panic!("expected a failing transaction"),
    }
    let (outs, st) = generate_outputs(&mut Scripted::new(vec![]), &vec![]);
    assert!(outs.is_empty());
    assert_eq!(st, Status::Failed);
    // A rare no-inputs draw gives no inputs at all.
    assert!(generate_inputs(&mut Scripted::new(vec![0]), &overlay).unwrap().is_empty());
}

#[test]
fn outputs_fail_below_fee_and_on_overflow() {
    let cell = |cap: u64| InputCell { tx_hash: h(1), index: 0, status: Status::Committed, capacity: cap };
    let (outs, st) = generate_outputs(&mut Scripted::new(vec![5]), &vec![cell(FEE_SHANNONS - 1)]);
    assert!(outs.is_empty());
    assert_eq!(st, Status::Failed);
    let (outs, st) = generate_outputs(&mut Scripted::new(vec![5]), &vec![cell(FEE_SHANNONS + SMALLEST_SHANNONS - 1)]);
    assert!(outs.is_empty());
    assert_eq!(st, Status::Failed);
    // Overflow fires: the outputs hold one shannon more than the inputs.
    let total = 1000 * CKB;
    let (outs, st) = generate_outputs(&mut Scripted::new(vec![5, 0]), &vec![cell(total)]);
    assert_eq!(st, Status::Failed);
    let sum: u64 = outs.iter().map(|o| o.output.capacity).sum();
    assert_eq!(sum, total + 1);
    assert!(outs.iter().all(|o| o.output.capacity >= SMALLEST_SHANNONS));
}

#[test]
fn failing_type_script_fails_transaction() {
    let cell = InputCell { tx_hash: h(1), index: 0, status: Status::Committed, capacity: 300 * CKB };
    let remain = 300 * CKB - FEE_SHANNONS;
    // one output; lock succeeds; cycles; hash type; type script fails (40); cycles; hash type; data.
    let vals = vec![5, 5, remain - SMALLEST_SHANNONS - 1, 50, 0, 50, 40, 0, 50, 0];
    let (outs, st) = generate_outputs(&mut Scripted::new(vals), &vec![cell]);
    assert_eq!(outs.len(), 1);
    assert_eq!(st, Status::Failed);
    assert_eq!(outs[0].cell_status, CellStatus::Live);
    assert!(!outs[0].output.type_script.as_ref().unwrap().expect_success);
    assert_eq!(outs[0].output.type_script.as_ref().unwrap().args.len(), 32);
}

#[test]
fn changes_refuse_invalid_spends() {
    let t0 = h(1);
    let mut store = StatusStore::new();
    store.confirm_block(&vec![(t0, 2)]).unwrap();
    let overlay = Overlay::new(&store);
    let input = |st: Status, i: u32| InputCell { tx_hash: t0, index: i, status: st, capacity: 1 };
    let new = || TxOutputsStatus { statuses: vec![CellStatus::Live] };
    assert_eq!(
        build_changes(&overlay, &vec![input(Status::Failed, 0)], Status::Pending, new()).err(),
        Some(GenerationError::FailedInput(t0, 0))
    );
    assert_eq!(
        build_changes(&overlay, &vec![input(Status::Committed, 0), input(Status::Committed, 0)], Status::Pending, new())
            .err(),
        Some(GenerationError::SpendNonLive(t0, 0))
    );
    let unknown = InputCell { tx_hash: h(9), index: 0, status: Status::Committed, capacity: 1 };
    assert_eq!(
        build_changes(&overlay, &vec![unknown], Status::Pending, new()).err(),
        Some(GenerationError::Overlay(OverlayError::Unknown(h(9))))
    );
    // Expected failure: only already-invalid sources are recorded.
    match build_changes(&overlay, &vec![input(Status::Failed, 0)], Status::Failed, new()).unwrap() {
        TxOverlayChanges::Failed { updates } => assert!(updates.is_empty()),
        _ => panic!("expected a failing transaction"),
    }
}

#[test]
fn unknown_body_and_capacity_overflow() {
    let t0 = h(1);
    let mut store = StatusStore::new();
    store.confirm_block(&vec![(t0, 2)]).unwrap();
    let overlay = Overlay::new(&store);
    let raw = vec![RawInputCell::new(t0, 0, Status::Committed), RawInputCell::new(t0, 1, Status::Committed)];
    assert_eq!(
        finish_transaction(&mut Scripted::new(vec![]), &overlay, &raw, &vec![], &anchor()).err(),
        Some(GenerationError::UnknownTransaction(t0))
    );
    let fetched = vec![(t0, vec![u64::MAX, 1])];
    assert_eq!(
        finish_transaction(&mut Scripted::new(vec![]), &overlay, &raw, &fetched, &anchor()).err(),
        Some(GenerationError::CapacityOverflow)
    );
    // An index past the outputs counts as the smallest output.
    let raw = vec![RawInputCell::new(t0, 5, Status::Committed)];
    let fetched = vec![(t0, vec![1])];
    let mut rg = Scripted::new(vec![1, 1]);
    let tx = finish_transaction(&mut rg, &overlay, &raw, &fetched, &anchor()).unwrap();
    assert!(tx.is_failed());
}

#[test]
fn round_stops_on_colliding_id() {
    let store = StatusStore::new();
    let mut overlay = Overlay::new(&store);
    let raw: Vec<RawInputCell> = vec![];
    let a = finish_transaction(&mut Scripted::new(vec![]), &overlay, &raw, &vec![], &anchor()).unwrap();
    let b = finish_transaction(&mut Scripted::new(vec![]), &overlay, &raw, &vec![], &anchor()).unwrap();
    assert_eq!(a.summary.hash, b.summary.hash);
    assert!(add_generated(&mut overlay, a));
    assert!(!add_generated(&mut overlay, b));
}

#[test]
fn decision_thresholds() {
    assert_eq!(lock_outcome(0), None);
    assert_eq!(lock_outcome(1), Some(false));
    assert_eq!(lock_outcome(9), Some(false));
    assert_eq!(lock_outcome(10), Some(true));
    assert_eq!(type_outcome(39), None);
    assert_eq!(type_outcome(40), Some(false));
    assert_eq!(type_outcome(45), Some(false));
    assert_eq!(type_outcome(46), Some(true));
    assert!(data_hash_type_outcome(39));
    assert!(!data_hash_type_outcome(40));
    assert!(has_next_transaction(&mut Scripted::new(vec![1])));
    assert!(!has_next_transaction(&mut Scripted::new(vec![0])));
}

#[test]
fn status_merge_lattice() {
    let (p, c, f) = (Status::Pending, Status::Committed, Status::Failed);
    assert_eq!(c.merge(c), c);
    assert_eq!(c.merge(p), p);
    assert_eq!(p.merge(c), p);
    assert_eq!(p.merge(f), f);
    assert_eq!(f.merge(c), f);
    assert_eq!(p.name(), "pending");
}

#[test]
fn seeded_generator_is_deterministic_and_in_range() {
    let mut a = RandomGenerator::new(42);
    let mut b = RandomGenerator::new(42);
    for _ in 0..200 {
        let x = a.below(7);
        assert!(x < 7);
        assert_eq!(x, b.below(7));
        let y = u64_between(&mut a, 500, 1_000_000);
        assert!((500..1_000_000).contains(&y));
        assert_eq!(y, u64_between(&mut b, 500, 1_000_000));
    }
    assert_eq!(a.random_hash(), b.random_hash());
    assert_ne!(a.random_hash(), [0u8; 32]);
}

#[test]
fn hash_order_is_bytewise() {
    assert_eq!(compare_hash(&h(1), &h(2)), -1);
    assert_eq!(compare_hash(&h(2), &h(1)), 1);
    assert_eq!(compare_hash(&h(2), &h(2)), 0);
    let mut late = h(1);
    late[31] = 9;
    assert_eq!(compare_hash(&h(1), &late), -1);
}

#[test]
fn partition_folds_small_leftover() {
    let remain = 2 * SMALLEST_SHANNONS + 5;
    let (v, rest) = partition_capacity(&mut Scripted::new(vec![SMALLEST_SHANNONS]), remain);
    assert_eq!((v, rest), (remain, 0));
    let (v, rest) = partition_capacity(&mut Scripted::new(vec![0]), remain);
    assert_eq!((v, rest), (SMALLEST_SHANNONS, SMALLEST_SHANNONS + 5));
    assert_eq!(partition_capacity(&mut Scripted::new(vec![]), SMALLEST_SHANNONS), (SMALLEST_SHANNONS, 0));
}

#[test]
fn output_without_lock_is_burned() {
    let cell = InputCell { tx_hash: h(1), index: 0, status: Status::Committed, capacity: 300 * CKB };
    let remain = 300 * CKB - FEE_SHANNONS;
    // one output; no lock (0); no type script (10); data size 3.
    let vals = vec![5, 5, remain - SMALLEST_SHANNONS - 1, 0, 10, 3];
    let (outs, st) = generate_outputs(&mut Scripted::new(vals), &vec![cell]);
    assert_eq!(st, Status::Pending);
    assert_eq!(outs.len(), 1);
    assert_eq!(outs[0].cell_status, CellStatus::Burn);
    assert!(outs[0].output.lock.is_none());
    assert_eq!(outs[0].output.data_size, 3);
}

#[test]
fn decision_outcomes_of_draws() {
    assert!(continue_outcome(1));
    assert!(!continue_outcome(0));
    assert!(rare_outcome(0));
    assert!(!rare_outcome(1));
}

#[test]
fn partition_of_drawn_values() {
    let s = SMALLEST_SHANNONS;
    assert_eq!(partition_of(3 * s, s), (s, 2 * s));
    assert_eq!(partition_of(3 * s, 2 * s + 1), (3 * s, 0));
    assert_eq!(partition_of(2 * s + 7, s + 8), (2 * s + 7, 0));
}

#[test]
fn plan_outputs_with_given_flags() {
    let cell = InputCell { tx_hash: h(1), index: 0, status: Status::Committed, capacity: 500 * CKB };
    let (outs, st) = plan_outputs(&mut Scripted::new(vec![]), &vec![cell], true, false);
    assert!(outs.is_empty());
    assert_eq!(st, Status::Failed);
    let (outs, st) = plan_outputs(&mut Scripted::new(vec![]), &vec![cell], false, true);
    assert_eq!(st, Status::Failed);
    assert_eq!(outs.iter().map(|o| o.output.capacity).sum::<u64>(), 500 * CKB + 1);
    // Locks succeed (50), no type scripts (10): all outputs live and pending.
    let (outs, st) = plan_outputs(&mut Scripted::new(vec![0, 50, 0, 50, 10, 0]), &vec![cell], false, false);
    assert!(!outs.is_empty());
    assert_eq!(outs.iter().map(|o| o.output.capacity).sum::<u64>(), 500 * CKB - FEE_SHANNONS);
    assert_eq!(outs[0].cell_status, CellStatus::Live);
}

#[test]
fn push_input_steps() {
    let a = RawInputCell::new(h(1), 0, Status::Committed);
    let mut v = vec![];
    push_input(&mut v, a, false);
    assert_eq!(v.len(), 1);
    push_input(&mut v, a, false);
    assert_eq!(v.len(), 1);
    push_input(&mut v, a, true);
    assert_eq!(v.len(), 2);
    assert_eq!(v[1].status, Status::Failed);
    push_input(&mut v, RawInputCell::new(h(1), 1, Status::Pending), false);
    assert_eq!((v.len(), v[2].index, v[2].status), (3, 1, Status::Pending));
}

fn live_output(capacity: u64) -> RawOutputCell {
    RawOutputCell {
        output: OutputPlan {
            capacity,
            lock: Some(ScriptPlan { by_data_hash: true, expect_success: true, args: vec![0; 32] }),
            type_script: None,
            data_size: 0,
        },
        cell_status: CellStatus::Live,
    }
}

#[test]
fn assemble_spends_both_outputs_of_committed_transaction() {
    let t0 = h(1);
    let mut store = StatusStore::new();
    store.confirm_block(&vec![(t0, 2)]).unwrap();
    let overlay = Overlay::new(&store);
    let raw = vec![RawInputCell::new(t0, 0, Status::Committed), RawInputCell::new(t0, 1, Status::Committed)];
    let inputs = vec![
        InputCell { tx_hash: t0, index: 0, status: Status::Committed, capacity: 200 },
        InputCell { tx_hash: t0, index: 1, status: Status::Committed, capacity: 300 },
    ];
    let tx = assemble_transaction(&overlay, &raw, &inputs, vec![live_output(490)], Status::Pending, &anchor()).unwrap();
    assert_eq!(tx.summary.output_capacities, vec![490]);
    let (status, updates) = tx.changes().ok().unwrap();
    assert!(matches!(status, TxStatus::Pending(_)));
    assert_eq!(statuses(status), vec![CellStatus::Live]);
    assert_eq!(updates.len(), 1);
    assert_eq!(updates[0].0, t0);
    assert!(matches!(updates[0].1, TxStatus::Committed(_)));
    assert_eq!(statuses(updates[0].1.copy()), vec![CellStatus::Dead, CellStatus::Dead]);
    // A failing outputs side makes the whole transaction fail, with no updates
    // since its inputs are not from invalid transactions.
    let tx = assemble_transaction(&overlay, &raw, &inputs, vec![live_output(490)], Status::Failed, &anchor()).unwrap();
    assert!(tx.is_failed());
    assert!(tx.changes().err().unwrap().is_empty());
}

fn failed_entry(id: u8, marks: u8) -> TxOverlay {
    TxOverlay::new(
        ckb_types::core::TransactionView::new_advanced_builder().build(),
        TxSummary { hash: h(id), inputs: vec![], output_capacities: vec![] },
        TxOverlayChanges::Failed { updates: vec![(h(marks), TxStatus::Failed)] },
    )
}

#[test]
fn resolve_pick_prefers_smaller_entry_and_drops_marked() {
    let mut store = StatusStore::new();
    store.confirm_block(&vec![(h(5), 1)]).unwrap();
    let mut overlay = Overlay::new(&store);
    let stored = store.get_status(&h(5)).unwrap();
    let (hash, _) = overlay.resolve_pick(h(5), stored.copy()).unwrap();
    assert_eq!(hash, h(5));
    // An entry expected to fail marks the stored pick: the attempt is dropped.
    overlay.add_tx(failed_entry(9, 5)).unwrap();
    assert!(overlay.resolve_pick(h(5), stored.copy()).is_none());
    assert!(overlay.random_tx(&mut Scripted::new(vec![])).unwrap().is_none());
    // An entry with a smaller id wins over the stored pick.
    overlay.add_tx(failed_entry(2, 7)).unwrap();
    let (hash, status) = overlay.resolve_pick(h(5), stored.copy()).unwrap();
    assert_eq!(hash, h(2));
    assert!(matches!(status, TxStatus::Failed));
}
