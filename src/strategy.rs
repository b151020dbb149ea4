//! Generation of one round of candidate transactions: input selection,
//! output synthesis, and the prediction of each transaction's outcome.
use vstd::prelude::*;

use crate::hash::{hash_eq, TxHash};
use crate::overlay::{
    entry_failed, entry_status, entry_updates, updates_model, entry_hash, local_caps, overlay_status, visible_status, OverlayError, Overlay, TxOverlay, TxOverlayChanges,
};
use crate::policy::{
    allow_capacity_overflow, allow_duplicated, could_be_from_failed_tx, could_has_burned_input,
    could_has_dead_input, has_next_input, is_data_hash_type, lock_status, no_inputs, no_outputs,
    type_status, u64_between, usize_less_than, RandomSource,
};
use crate::status::{status_can_spend, status_invalid, status_spent, status_outputs, CellStatus, StatusModel, TxOutputsStatus, TxStatus};
use crate::store::StoreError;
use crate::tx::{build_transaction, OutPoint, OutputPlan, ScriptAnchor, ScriptPlan, TxSummary};

verus! {

/// Shannons in one byte of capacity.
pub const BYTE_SHANNONS: u64 = 100_000_000;

/// The smallest output: one that holds a lock and a type script of 32-byte
/// arguments.
pub const SMALLEST_SHANNONS: u64 = 138 * BYTE_SHANNONS;

/// The fee of every generated transaction.
pub const FEE_SHANNONS: u64 = 10_000_000;

/// Below this many live cells no transaction is generated.
pub const LOW_WATER_CELLS: usize = 1_000;

/// Most random picks spent on the inputs of one transaction.
pub const MAX_DRAWS: u32 = 10_000;

/// The expected outcome of a transaction or of one of its parts.
#[derive(Debug, Clone, Copy, PartialEq, Eq, Structural)]
pub enum Status {
    Pending,
    Committed,
    Failed,
}

/// `Failed` dominates, then `Pending`, then `Committed`.
pub open spec fn merge_spec(a: Status, b: Status) -> Status {
    if a == Status::Failed || b == Status::Failed {
        Status::Failed
    } else if a == Status::Pending || b == Status::Pending {
        Status::Pending
    } else {
        Status::Committed
    }
}

impl Status {
    pub fn merge(self, another: Self) -> (r: Self)
        ensures
            r == merge_spec(self, another),
    {
        if self == Status::Failed || another == Status::Failed {
            Status::Failed
        } else if self == Status::Pending || another == Status::Pending {
            Status::Pending
        } else {
            Status::Committed
        }
    }

    /// The name of the status.
    pub fn name(&self) -> (r: &'static str) {
        match self {
            Status::Pending => "pending",
            Status::Committed => "committed",
            Status::Failed => "failed",
        }
    }
}

/// The kind of a transaction status.
pub open spec fn kind_of(t: StatusModel) -> Status {
    match t {
        StatusModel::Pending(_) => Status::Pending,
        StatusModel::Committed(_) => Status::Committed,
        StatusModel::Failed => Status::Failed,
    }
}

/// A chosen input before its capacity is known.
#[derive(Debug, Clone, Copy)]
pub struct RawInputCell {
    pub tx_hash: TxHash,
    pub index: u32,
    pub status: Status,
}

impl RawInputCell {
    pub fn new(tx_hash: TxHash, index: u32, status: Status) -> (r: Self)
        ensures
            r.tx_hash == tx_hash,
            r.index == index,
            r.status == status,
    {
        RawInputCell { tx_hash, index, status }
    }
}

/// An input that is not expected to fail spends a live output of a status
/// that a random pick may report, and spends it once.
pub open spec fn inputs_ok(es: Seq<TxOverlay>, store: Map<Seq<u8>, StatusModel>, ins: Seq<RawInputCell>) -> bool {
    &&& forall|i: int|
        0 <= i < ins.len() && (#[trigger] ins[i]).status != Status::Failed ==> exists|t: StatusModel|
            visible_status(es, store, ins[i].tx_hash@, t) && kind_of(t) == ins[i].status && ins[i].index
                < status_outputs(t).len() && status_outputs(t)[ins[i].index as int] == CellStatus::Live
    &&& forall|i: int, j: int|
        0 <= i < j < ins.len() && ins[j].status != Status::Failed ==> !(ins[i].tx_hash@ == ins[j].tx_hash@
            && ins[i].index == ins[j].index)
}

/// Step `k` of a scan over `n` positions that starts at `start` and wraps.
pub open spec fn scan_index(start: int, n: int, k: int) -> int {
    if k < n - start {
        start + k
    } else {
        k - (n - start)
    }
}

/// Picks an output of `tx_status` to spend: scanning from a random offset,
/// the first live one; a burned or dead one only on a rare draw, and then
/// expected to fail; output 0 of a failed transaction only on a rare draw,
/// expected to fail.
pub fn pick_cell<R: RandomSource>(rg: &mut R, tx_hash: TxHash, tx_status: &TxStatus) -> (r: Option<RawInputCell>)
    ensures
        r matches Some(c) ==> c.tx_hash == tx_hash,
        r matches Some(c) ==> (c.status != Status::Failed ==> kind_of(tx_status@) == c.status && c.index
            < status_outputs(tx_status@).len() && status_outputs(tx_status@)[c.index as int] == CellStatus::Live),
        r matches Some(c) ==> (tx_status@ is Failed ==> c.status == Status::Failed && c.index == 0),
        !(tx_status@ is Failed) && status_outputs(tx_status@).len() <= u32::MAX && (exists|i: int|
            0 <= i < status_outputs(tx_status@).len() && status_outputs(tx_status@)[i] == CellStatus::Live)
            ==> r is Some,
{
    match tx_status {
        TxStatus::Pending(cells) | TxStatus::Committed(cells) => {
            let status = match tx_status {
                TxStatus::Pending(_) => Status::Pending,
                _ => Status::Committed,
            };
            let n = cells.count();
            if n == 0 || n > (u32::MAX as usize) {
                return None;
            }
            assert(0 < n);
            let start = usize_less_than(rg, n);
            let mut k: usize = 0;
            while k < n
                invariant
                    n == cells@.len(),
                    0 < n <= u32::MAX,
                    start < n,
                    k <= n,
                    status == kind_of(tx_status@),
                    cells@ == status_outputs(tx_status@),
                    forall|k2: int| 0 <= k2 < k ==> cells@[#[trigger] scan_index(start as int, n as int, k2)]
                        != CellStatus::Live,
                decreases n - k,
            {
                let idx = if k < n - start {
                    start + k
                } else {
                    k - (n - start)
                };
                match cells.status(idx) {
                    CellStatus::Live => {
                        return Some(RawInputCell::new(tx_hash, idx as u32, status));
                    },
                    CellStatus::Burn => {
                        if could_has_burned_input(rg) {
                            return Some(RawInputCell::new(tx_hash, idx as u32, Status::Failed));
                        }
                    },
                    CellStatus::Dead => {
                        if could_has_dead_input(rg) {
                            return Some(RawInputCell::new(tx_hash, idx as u32, Status::Failed));
                        }
                    },
                }
                k += 1;
            }
            proof {
                assert forall|i: int| 0 <= i < n implies cells@[i] != CellStatus::Live by {
                    let k2 = if i >= start { i - start } else { i + n - start };
                    assert(0 <= k2 < n);
                    assert(scan_index(start as int, n as int, k2) == i);
                }
            }
            None
        },
        TxStatus::Failed => {
            if could_be_from_failed_tx(rg) {
                Some(RawInputCell::new(tx_hash, 0, Status::Failed))
            } else {
                None
            }
        },
    }
}

fn spends_same(inputs: &Vec<RawInputCell>, cell: &RawInputCell) -> (r: bool)
    ensures
        r == exists|i: int|
            0 <= i < inputs@.len() && inputs@[i].tx_hash@ == cell.tx_hash@ && inputs@[i].index == cell.index,
{
    let mut i: usize = 0;
    while i < inputs.len()
        invariant
            i <= inputs@.len(),
            forall|j: int|
                0 <= j < i ==> !(inputs@[j].tx_hash@ == cell.tx_hash@ && inputs@[j].index == cell.index),
        decreases inputs@.len() - i,
    {
        if hash_eq(&inputs[i].tx_hash, &cell.tx_hash) && inputs[i].index == cell.index {
            return true;
        }
        i += 1;
    }
    false
}

/// The same output is already among the inputs.
pub open spec fn already_spent(inputs: Seq<RawInputCell>, cell: RawInputCell) -> bool {
    exists|i: int| 0 <= i < inputs.len() && inputs[i].tx_hash@ == cell.tx_hash@ && inputs[i].index == cell.index
}

/// One step of input selection, with the picked cell and the "allow a
/// duplicate" draw: a new cell is appended; a repeated one is appended as
/// `Failed` when the draw allows it, else dropped.
pub fn push_input(inputs: &mut Vec<RawInputCell>, cell: RawInputCell, allow_duplicate: bool)
    ensures
        !already_spent(old(inputs)@, cell) ==> final(inputs)@ == old(inputs)@.push(cell),
        already_spent(old(inputs)@, cell) && allow_duplicate ==> final(inputs)@ == old(inputs)@.push(
            RawInputCell { tx_hash: cell.tx_hash, index: cell.index, status: Status::Failed },
        ),
        already_spent(old(inputs)@, cell) && !allow_duplicate ==> final(inputs)@ == old(inputs)@,
{
    if !spends_same(inputs, &cell) {
        inputs.push(cell);
    } else if allow_duplicate {
        inputs.push(RawInputCell::new(cell.tx_hash, cell.index, Status::Failed));
    }
}

/// Chooses the inputs of a transaction: none on a rare draw; else cells
/// picked from random existing transactions while the "another input" draw
/// holds. A cell already chosen is dropped, or on a rare draw kept and
/// expected to fail. Stops when the overlay finds no candidate.
pub fn generate_inputs<R: RandomSource>(rg: &mut R, overlay: &Overlay) -> (r: Result<Vec<RawInputCell>, StoreError>)
    requires
        overlay.wf(),
    ensures
        r matches Ok(ins) ==> inputs_ok(overlay.entries(), overlay.store()@.statuses, ins@),
        r matches Err(e) ==> e == StoreError::Empty && forall|q: Seq<u8>| !overlay.store()@.statuses.contains_key(q),
{
    let ghost es = overlay.entries();
    let ghost store = overlay.store()@.statuses;
    let mut inputs: Vec<RawInputCell> = Vec::new();
    if no_inputs(rg) {
        return Ok(inputs);
    }
    let mut draws: u32 = 0;
    let mut done = false;
    let mut searching = true;
    while !done && draws < MAX_DRAWS
        invariant
            overlay.wf(),
            es == overlay.entries(),
            store == overlay.store()@.statuses,
            draws <= MAX_DRAWS,
            inputs_ok(es, store, inputs@),
        decreases MAX_DRAWS - draws, if done {
            0int
        } else {
            1int
        }, if searching {
            0int
        } else {
            1int
        },
    {
        if !searching {
            if inputs.len() > 0 && !has_next_input(rg) {
                done = true;
            } else {
                searching = true;
            }
        } else {
            draws += 1;
            match overlay.random_tx(rg)? {
                None => {
                    done = true;
                },
                Some((h, st)) => {
                    if let Some(c) = pick_cell(rg, h, &st) {
                        searching = false;
                        let ghost before = inputs@;
                        let allow = if spends_same(&inputs, &c) {
                            allow_duplicated(rg)
                        } else {
                            false
                        };
                        push_input(&mut inputs, c, allow);
                        proof {
                            assert forall|i: int|
                                0 <= i < inputs@.len() && (#[trigger] inputs@[i]).status != Status::Failed implies exists|t: StatusModel|
                                visible_status(es, store, inputs@[i].tx_hash@, t) && kind_of(t) == inputs@[i].status
                                    && inputs@[i].index < status_outputs(t).len() && status_outputs(t)[inputs@[i].index as int]
                                    == CellStatus::Live by {
                                if i == before.len() {
                                    assert(visible_status(es, store, c.tx_hash@, st@));
                                } else {
                                    assert(inputs@[i] == before[i]);
                                }
                            }
                            assert forall|i: int, j: int|
                                0 <= i < j < inputs@.len() && inputs@[j].status != Status::Failed implies !(inputs@[i].tx_hash@
                                == inputs@[j].tx_hash@ && inputs@[i].index == inputs@[j].index) by {
                                if j == before.len() {
                                    assert(inputs@[i] == before[i]);
                                } else {
                                    assert(inputs@[i] == before[i] && inputs@[j] == before[j]);
                                }
                            }
                        }
                    }
                },
            }
        }
    }
    Ok(inputs)
}

/// Why a transaction could not be generated.
#[derive(Debug, Clone, Copy, PartialEq, Eq)]
pub enum GenerationError {
    /// The store failed.
    Store(StoreError),
    /// The overlay failed.
    Overlay(OverlayError),
    /// No body is known for a transaction that an input spends from.
    UnknownTransaction(TxHash),
    /// An input expected to fail stands in a transaction expected to pass.
    FailedInput(TxHash, u32),
    /// An input spends an output that is not live.
    SpendNonLive(TxHash, u32),
    /// The capacities of the inputs do not fit in a `u64`.
    CapacityOverflow,
}

/// An input with the capacity of the output it spends.
#[derive(Debug, Clone, Copy)]
pub struct InputCell {
    pub tx_hash: TxHash,
    pub index: u32,
    pub status: Status,
    pub capacity: u64,
}

/// The first capacities fetched for `h`.
pub open spec fn fetched_caps(fs: Seq<(TxHash, Vec<u64>)>, h: Seq<u8>) -> Option<Seq<u64>>
    decreases fs.len(),
{
    if fs.len() == 0 {
        None
    } else if fs[0].0@ == h {
        Some(fs[0].1@)
    } else {
        fetched_caps(fs.drop_first(), h)
    }
}

/// The output capacities of `h`: from the overlay, else the store, else what
/// was fetched from the ledger.
pub open spec fn resolved_caps(
    es: Seq<TxOverlay>,
    bodies: Map<Seq<u8>, Seq<u64>>,
    fs: Seq<(TxHash, Vec<u64>)>,
    h: Seq<u8>,
) -> Option<Seq<u64>> {
    match local_caps(es, bodies, h) {
        Some(c) => Some(c),
        None => fetched_caps(fs, h),
    }
}

/// The capacity of output `index`; an index out of range counts as the
/// smallest output.
pub open spec fn input_capacity(caps: Seq<u64>, index: u32) -> u64 {
    if index < caps.len() {
        caps[index as int]
    } else {
        SMALLEST_SHANNONS
    }
}

/// The ids, among those the inputs spend from, that neither the overlay nor
/// the store holds a body for: the ledger has to supply them.
pub fn missing_transactions(overlay: &Overlay, raw: &Vec<RawInputCell>) -> (r: Vec<TxHash>)
    requires
        overlay.wf(),
    ensures
        forall|i: int| 0 <= i < r@.len() ==> local_caps(overlay.entries(), overlay.store()@.bodies, (#[trigger] r@[i])@) is None,
        forall|j: int|
            0 <= j < raw@.len() && local_caps(overlay.entries(), overlay.store()@.bodies, (#[trigger] raw@[j]).tx_hash@) is None
                ==> exists|i: int| 0 <= i < r@.len() && r@[i]@ == raw@[j].tx_hash@,
{
    let mut out: Vec<TxHash> = Vec::new();
    let mut j: usize = 0;
    while j < raw.len()
        invariant
            overlay.wf(),
            j <= raw@.len(),
            forall|i: int| 0 <= i < out@.len() ==> local_caps(overlay.entries(), overlay.store()@.bodies, (#[trigger] out@[i])@) is None,
            forall|k: int|
                0 <= k < j && local_caps(overlay.entries(), overlay.store()@.bodies, (#[trigger] raw@[k]).tx_hash@) is None
                    ==> exists|i: int| 0 <= i < out@.len() && out@[i]@ == raw@[k].tx_hash@,
        decreases raw@.len() - j,
    {
        let ghost before = out@;
        if overlay.get_tx(&raw[j].tx_hash).is_none() {
            out.push(raw[j].tx_hash);
            proof {
                assert(out@[before.len() as int]@ == raw@[j as int].tx_hash@);
                assert forall|k: int|
                    0 <= k < j + 1 && local_caps(overlay.entries(), overlay.store()@.bodies, (#[trigger] raw@[k]).tx_hash@) is None
                        implies exists|i: int| 0 <= i < out@.len() && out@[i]@ == raw@[k].tx_hash@ by {
                    if k < j {
                        let i = choose|i: int| 0 <= i < before.len() && before[i]@ == raw@[k].tx_hash@;
                        assert(out@[i] == before[i]);
                    }
                }
            }
        }
        j += 1;
    }
    out
}

fn find_fetched(fetched: &Vec<(TxHash, Vec<u64>)>, h: &TxHash) -> (r: Option<usize>)
    ensures
        r matches Some(i) ==> i < fetched@.len() && fetched_caps(fetched@, h@) == Some(fetched@[i as int].1@),
        r is None <==> fetched_caps(fetched@, h@) is None,
{
    let mut i: usize = 0;
    assert(fetched@.subrange(0, fetched@.len() as int) =~= fetched@);
    while i < fetched.len()
        invariant
            i <= fetched@.len(),
            fetched_caps(fetched@, h@) == fetched_caps(fetched@.subrange(i as int, fetched@.len() as int), h@),
        decreases fetched@.len() - i,
    {
        let ghost rest = fetched@.subrange(i as int, fetched@.len() as int);
        assert(rest.drop_first() =~= fetched@.subrange(i + 1, fetched@.len() as int));
        if hash_eq(&fetched[i].0, h) {
            return Some(i);
        }
        i += 1;
    }
    None
}

fn capacity_at(caps: &Vec<u64>, index: u32) -> (r: u64)
    ensures
        r == input_capacity(caps@, index),
{
    if (index as usize) < caps.len() {
        caps[index as usize]
    } else {
        SMALLEST_SHANNONS
    }
}

/// Gives each input the capacity of the output it spends, looked up in the
/// overlay, else the store, else `fetched` (from the ledger).
pub fn complete_inputs(overlay: &Overlay, raw: &Vec<RawInputCell>, fetched: &Vec<(TxHash, Vec<u64>)>) -> (r: Result<
    Vec<InputCell>,
    GenerationError,
>)
    requires
        overlay.wf(),
    ensures
        r is Err <==> exists|j: int|
            0 <= j < raw@.len() && resolved_caps(overlay.entries(), overlay.store()@.bodies, fetched@, (#[trigger] raw@[j]).tx_hash@) is None,
        r matches Err(e) ==> e is UnknownTransaction,
        r matches Ok(v) ==> v@.len() == raw@.len() && forall|j: int|
            0 <= j < raw@.len() ==> (#[trigger] v@[j]).tx_hash == raw@[j].tx_hash && v@[j].index == raw@[j].index
                && v@[j].status == raw@[j].status && resolved_caps(overlay.entries(), overlay.store()@.bodies, fetched@, raw@[j].tx_hash@) is Some
                && v@[j].capacity == input_capacity(resolved_caps(overlay.entries(), overlay.store()@.bodies, fetched@, raw@[j].tx_hash@).unwrap(), raw@[j].index),
{
    let mut out: Vec<InputCell> = Vec::new();
    let mut j: usize = 0;
    while j < raw.len()
        invariant
            overlay.wf(),
            j <= raw@.len(),
            out@.len() == j,
            forall|k: int|
                0 <= k < j ==> (#[trigger] out@[k]).tx_hash == raw@[k].tx_hash && out@[k].index == raw@[k].index
                    && out@[k].status == raw@[k].status && resolved_caps(overlay.entries(), overlay.store()@.bodies, fetched@, raw@[k].tx_hash@) is Some
                    && out@[k].capacity == input_capacity(resolved_caps(overlay.entries(), overlay.store()@.bodies, fetched@, raw@[k].tx_hash@).unwrap(), raw@[k].index),
        decreases raw@.len() - j,
    {
        let x = raw[j];
        let capacity = match overlay.get_tx(&x.tx_hash) {
            Some(caps) => capacity_at(&caps, x.index),
            None => match find_fetched(fetched, &x.tx_hash) {
                Some(i) => capacity_at(&fetched[i].1, x.index),
                None => {
                    assert(resolved_caps(overlay.entries(), overlay.store()@.bodies, fetched@, raw@[j as int].tx_hash@) is None);
                    return Err(GenerationError::UnknownTransaction(x.tx_hash));
                },
            },
        };
        out.push(InputCell { tx_hash: x.tx_hash, index: x.index, status: x.status, capacity });
        j += 1;
    }
    proof {
        assert forall|k: int| 0 <= k < raw@.len() implies resolved_caps(overlay.entries(), overlay.store()@.bodies, fetched@, (#[trigger] raw@[k]).tx_hash@) is Some by {
            assert(out@[k].tx_hash == raw@[k].tx_hash);
        }
    }
    Ok(out)
}

/// Little-endian bytes of a `u64`.
pub open spec fn u64_le(x: u64) -> Seq<u8> {
    Seq::new(8, |i: int| ((x >> ((8 * i) as u64)) & 0xff) as u8)
}

/// The exit code a synthetic script is told to return.
pub open spec fn exit_code(result: bool) -> u64 {
    if result {
        0
    } else {
        1
    }
}

/// Arguments of a synthetic script: the expected exit code (0 for success)
/// and the cycles to burn, each written twice.
pub open spec fn script_args(code: u64, cycles: u64) -> Seq<u8> {
    u64_le(code) + u64_le(cycles) + u64_le(code) + u64_le(cycles)
}

fn push_u64_le(out: &mut Vec<u8>, x: u64)
    ensures
        final(out)@ == old(out)@ + u64_le(x),
{
    let mut k: u64 = 0;
    while k < 8
        invariant
            k <= 8,
            out@ == old(out)@ + u64_le(x).subrange(0, k as int),
        decreases 8 - k,
    {
        out.push(((x >> (8 * k)) & 0xff) as u8);
        assert(out@ =~= old(out)@ + u64_le(x).subrange(0, k + 1));
        k += 1;
    }
    assert(u64_le(x).subrange(0, 8) =~= u64_le(x));
}

/// A synthetic script expected to succeed or fail, burning a random number of
/// cycles in `500..1_000_000`.
pub fn generate_script<R: RandomSource>(rg: &mut R, result: bool) -> (r: ScriptPlan)
    ensures
        r.expect_success == result,
        r.args@.len() == 32,
        exists|cycles: u64| 500 <= cycles < 1_000_000 && r.args@ == #[trigger] script_args(exit_code(result), cycles),
{
    let code: u64 = if result {
        0
    } else {
        1
    };
    let cycles = u64_between(rg, 500, 1_000_000);
    let by_data_hash = is_data_hash_type(rg);
    let mut args: Vec<u8> = Vec::new();
    push_u64_le(&mut args, code);
    push_u64_le(&mut args, cycles);
    push_u64_le(&mut args, code);
    push_u64_le(&mut args, cycles);
    assert(args@ =~= script_args(code, cycles));
    assert(code == exit_code(result));
    assert(args@ == script_args(exit_code(result), cycles));
    ScriptPlan { by_data_hash, expect_success: result, args }
}

/// Bytes a script occupies: code hash, hash type and arguments.
pub open spec fn script_bytes(s: Option<ScriptPlan>) -> int {
    match s {
        Some(p) => 33 + p.args@.len() as int,
        None => 33,
    }
}

/// Bytes an output occupies without data: capacity, lock (the default script
/// when absent) and type script.
pub open spec fn output_bytes(lock: Option<ScriptPlan>, type_script: Option<ScriptPlan>) -> int {
    8 + script_bytes(lock) + match type_script {
        Some(p) => 33 + p.args@.len() as int,
        None => 0,
    }
}

fn occupied_bytes(lock: &Option<ScriptPlan>, type_script: &Option<ScriptPlan>) -> (r: u64)
    requires
        lock matches Some(p) ==> p.args@.len() == 32,
        type_script matches Some(p) ==> p.args@.len() == 32,
    ensures
        r == output_bytes(*lock, *type_script),
        r <= 138,
{
    let l: u64 = match lock {
        Some(p) => 33 + p.args.len() as u64,
        None => 33,
    };
    let t: u64 = match type_script {
        Some(p) => 33 + p.args.len() as u64,
        None => 0,
    };
    8 + l + t
}

/// A planned output with the status its cell will have.
pub struct RawOutputCell {
    pub output: OutputPlan,
    pub cell_status: CellStatus,
}

/// Sum of the capacities of the outputs.
pub open spec fn outputs_total(os: Seq<RawOutputCell>) -> int
    decreases os.len(),
{
    if os.len() == 0 {
        0
    } else {
        outputs_total(os.drop_last()) + os.last().output.capacity
    }
}

/// Sum of the capacities of the inputs.
pub open spec fn inputs_total(ins: Seq<InputCell>) -> int
    decreases ins.len(),
{
    if ins.len() == 0 {
        0
    } else {
        inputs_total(ins.drop_last()) + ins.last().capacity
    }
}

/// An output is well formed: at least the smallest capacity, a cell that is
/// live exactly when its lock is expected to succeed, scripts with the usual
/// arguments, and data that fits the capacity left.
pub open spec fn output_ok(o: RawOutputCell) -> bool {
    &&& o.output.capacity >= SMALLEST_SHANNONS
    &&& (o.cell_status == CellStatus::Live || o.cell_status == CellStatus::Burn)
    &&& (o.output.lock matches Some(p) ==> p.args@.len() == 32)
    &&& (o.output.type_script matches Some(p) ==> p.args@.len() == 32)
    &&& (o.cell_status == CellStatus::Live <==> (o.output.lock matches Some(p) && p.expect_success))
    &&& (o.output.data_size as int + output_bytes(o.output.lock, o.output.type_script)) * BYTE_SHANNONS <= o.output.capacity
}

/// The type script of the output is expected to fail.
pub open spec fn type_fails(o: RawOutputCell) -> bool {
    o.output.type_script matches Some(p) && !p.expect_success
}

fn sum_capacities(inputs: &Vec<InputCell>) -> (r: Option<u64>)
    ensures
        r matches Some(t) ==> t == inputs_total(inputs@),
        r is None <==> inputs_total(inputs@) > u64::MAX,
{
    let mut total: u64 = 0;
    let mut i: usize = 0;
    while i < inputs.len()
        invariant
            i <= inputs@.len(),
            total == inputs_total(inputs@.subrange(0, i as int)),
        decreases inputs@.len() - i,
    {
        assert(inputs@.subrange(0, i + 1).drop_last() =~= inputs@.subrange(0, i as int));
        if total > u64::MAX - inputs[i].capacity {
            proof {
                lemma_inputs_total_prefix(inputs@, i + 1);
            }
            return None;
        }
        total = total + inputs[i].capacity;
        i += 1;
    }
    assert(inputs@.subrange(0, i as int) =~= inputs@);
    Some(total)
}

proof fn lemma_inputs_total_prefix(ins: Seq<InputCell>, k: int)
    requires
        0 <= k <= ins.len(),
    ensures
        inputs_total(ins.subrange(0, k)) <= inputs_total(ins),
    decreases ins.len() - k,
{
    if k < ins.len() {
        lemma_inputs_total_prefix(ins, k + 1);
        assert(ins.subrange(0, k + 1).drop_last() =~= ins.subrange(0, k));
    } else {
        assert(ins.subrange(0, k) =~= ins);
    }
}

/// One draw of the capacity partition: a value in `SMALLEST..remain` (all of
/// `remain` when that is the smallest), and what is left; a leftover below the
/// smallest is folded into the value drawn.
pub fn partition_capacity<R: RandomSource>(rg: &mut R, remain: u64) -> (r: (u64, u64))
    requires
        remain >= SMALLEST_SHANNONS,
    ensures
        r.0 + r.1 == remain,
        r.0 >= SMALLEST_SHANNONS,
        r.1 == 0 || r.1 >= SMALLEST_SHANNONS,
        remain < 2 * SMALLEST_SHANNONS ==> r == (remain, 0u64),
{
    if remain == SMALLEST_SHANNONS {
        (remain, 0)
    } else {
        let drawn = u64_between(rg, SMALLEST_SHANNONS, remain);
        partition_of(remain, drawn)
    }
}

/// The partition step for a drawn value: the value and what is left, or the
/// whole remainder when what would be left is below the smallest output.
pub fn partition_of(remain: u64, drawn: u64) -> (r: (u64, u64))
    requires
        SMALLEST_SHANNONS <= drawn < remain,
    ensures
        r == if remain - drawn < SMALLEST_SHANNONS {
            (remain, 0u64)
        } else {
            (drawn, (remain - drawn) as u64)
        },
{
    if remain - drawn < SMALLEST_SHANNONS {
        (remain, 0)
    } else {
        (drawn, remain - drawn)
    }
}

/// Some output has a type script expected to fail.
pub open spec fn some_type_fails(os: Seq<RawOutputCell>) -> bool {
    exists|i: int| 0 <= i < os.len() && type_fails(#[trigger] os[i])
}

/// Synthesizes the outputs of a transaction and its expected outcome from
/// the outputs' side. No outputs, and `Failed`, without inputs, on a rare
/// draw, or when the inputs cannot pay the fee and one smallest output.
/// Otherwise the inputs less the fee are split into random outputs of at
/// least the smallest capacity (on a rare draw, one shannon more than the
/// inputs: then `Failed`); `Pending` unless some type script is expected to
/// fail.
pub fn generate_outputs<R: RandomSource>(rg: &mut R, inputs: &Vec<InputCell>) -> (r: (Vec<RawOutputCell>, Status))
    requires
        inputs_total(inputs@) < u64::MAX,
    ensures
        r.1 == Status::Pending || r.1 == Status::Failed,
        inputs@.len() == 0 ==> r.0@.len() == 0,
        inputs_total(inputs@) < FEE_SHANNONS + SMALLEST_SHANNONS ==> r.0@.len() == 0,
        r.0@.len() == 0 ==> r.1 == Status::Failed,
        forall|i: int| 0 <= i < r.0@.len() ==> output_ok(#[trigger] r.0@[i]),
        r.0@.len() > 0 ==> outputs_total(r.0@) == inputs_total(inputs@) - FEE_SHANNONS || outputs_total(r.0@)
            == inputs_total(inputs@) + 1,
        r.1 == Status::Pending <==> r.0@.len() > 0 && outputs_total(r.0@) == inputs_total(inputs@) - FEE_SHANNONS
            && !some_type_fails(r.0@),
{
    let skip = inputs.len() == 0 || no_outputs(rg);
    let covers = match sum_capacities(inputs) {
        Some(t) => t >= FEE_SHANNONS && t - FEE_SHANNONS >= SMALLEST_SHANNONS,
        None => false,
    };
    let overflow = !skip && covers && allow_capacity_overflow(rg);
    plan_outputs(rg, inputs, skip, overflow)
}

/// Synthesizes the outputs once the "no outputs" and "overflow" draws are
/// known: none, and `Failed`, when skipped or when the inputs cannot pay the
/// fee and one smallest output; else random outputs of at least the smallest
/// capacity summing to the inputs less the fee (one shannon more than the
/// inputs on overflow), `Failed` on overflow or when some type script is
/// expected to fail, else `Pending`.
pub fn plan_outputs<R: RandomSource>(rg: &mut R, inputs: &Vec<InputCell>, skip: bool, overflow: bool) -> (r: (
    Vec<RawOutputCell>,
    Status,
))
    requires
        inputs_total(inputs@) < u64::MAX,
    ensures
        r.1 == Status::Pending || r.1 == Status::Failed,
        skip || inputs@.len() == 0 || inputs_total(inputs@) < FEE_SHANNONS + SMALLEST_SHANNONS ==> r.0@.len() == 0,
        r.0@.len() == 0 ==> r.1 == Status::Failed,
        !skip && inputs@.len() > 0 && inputs_total(inputs@) >= FEE_SHANNONS + SMALLEST_SHANNONS ==> r.0@.len() > 0
            && outputs_total(r.0@) == if overflow {
            inputs_total(inputs@) + 1
        } else {
            inputs_total(inputs@) - FEE_SHANNONS
        },
        r.0@.len() > 0 ==> r.1 == if overflow || some_type_fails(r.0@) {
            Status::Failed
        } else {
            Status::Pending
        },
        forall|i: int| 0 <= i < r.0@.len() ==> output_ok(#[trigger] r.0@[i]),
{
    let mut outputs: Vec<RawOutputCell> = Vec::new();
    if skip || inputs.len() == 0 {
        return (outputs, Status::Failed);
    }
    let total = match sum_capacities(inputs) {
        Some(t) => t,
        None => {
            return (outputs, Status::Failed);
        },
    };
    if total < FEE_SHANNONS {
        return (outputs, Status::Failed);
    }
    let remain_capacity = total - FEE_SHANNONS;
    if remain_capacity < SMALLEST_SHANNONS {
        return (outputs, Status::Failed);
    }
    let mut expected = if overflow {
        Status::Failed
    } else {
        Status::Pending
    };
    let target: u64 = if overflow {
        total + 1
    } else {
        remain_capacity
    };
    let mut remain: u64 = target;
    while remain > 0
        invariant
            remain == 0 || remain >= SMALLEST_SHANNONS,
            target >= SMALLEST_SHANNONS,
            outputs_total(outputs@) + remain == target,
            forall|i: int| 0 <= i < outputs@.len() ==> output_ok(#[trigger] outputs@[i]),
            expected == if overflow || some_type_fails(outputs@) {
                Status::Failed
            } else {
                Status::Pending
            },
        decreases remain,
    {
        let (shannons, rest) = partition_capacity(rg, remain);
        remain = rest;
        let lock = lock_status(rg);
        let cell_status = match lock {
            Some(true) => CellStatus::Live,
            _ => CellStatus::Burn,
        };
        let lock_plan = match lock {
            None => None,
            Some(ok) => Some(generate_script(rg, ok)),
        };
        let type_result = type_status(rg);
        let status = match type_result {
            Some(false) => Status::Failed,
            _ => Status::Pending,
        };
        expected = expected.merge(status);
        let type_plan = match type_result {
            None => None,
            Some(ok) => Some(generate_script(rg, ok)),
        };
        let occupied = occupied_bytes(&lock_plan, &type_plan);
        let free_bytes = (shannons - occupied * BYTE_SHANNONS) / BYTE_SHANNONS;
        let data_size: u64 = if free_bytes > 0 {
            rg.below(free_bytes)
        } else {
            0
        };
        let o = RawOutputCell {
            output: OutputPlan { capacity: shannons, lock: lock_plan, type_script: type_plan, data_size },
            cell_status,
        };
        assert(output_ok(o));
        let ghost before = outputs@;
        outputs.push(o);
        proof {
            assert(outputs@.drop_last() =~= before);
            assert(outputs@[before.len() as int] == o);
            if some_type_fails(outputs@) && !some_type_fails(before) {
                let i = choose|i: int| 0 <= i < outputs@.len() && type_fails(#[trigger] outputs@[i]);
                if i < before.len() {
                    assert(outputs@[i] == before[i]);
                }
            }
            if some_type_fails(before) {
                let i = choose|i: int| 0 <= i < before.len() && type_fails(#[trigger] before[i]);
                assert(outputs@[i] == before[i]);
            }
            if type_result == Some(false) {
                assert(type_fails(outputs@[before.len() as int]));
            }
        }
    }
    assert(outputs@.len() > 0);
    (outputs, expected)
}

/// The status updates a set of changes carries.
pub open spec fn changes_updates(c: TxOverlayChanges) -> Seq<(Seq<u8>, StatusModel)> {
    match c {
        TxOverlayChanges::Pending { updates, .. } => updates_model(updates@),
        TxOverlayChanges::Committed { updates, .. } => updates_model(updates@),
        TxOverlayChanges::Failed { updates } => updates_model(updates@),
    }
}

/// Keys of `u` are unique.
pub open spec fn keys_unique(u: Seq<(Seq<u8>, StatusModel)>) -> bool {
    forall|a: int, b: int| 0 <= a < b < u.len() ==> u[a].0 != u[b].0
}

/// The status recorded for `h` in `u`, if any.
pub open spec fn ups_get(u: Seq<(Seq<u8>, StatusModel)>, h: Seq<u8>) -> Option<StatusModel> {
    if exists|p: int| 0 <= p < u.len() && u[p].0 == h {
        Some(u[choose|p: int| 0 <= p < u.len() && u[p].0 == h].1)
    } else {
        None
    }
}

/// `u` with `t` recorded for `h`: in place when `h` is there, else last.
pub open spec fn ups_put(u: Seq<(Seq<u8>, StatusModel)>, h: Seq<u8>, t: StatusModel) -> Seq<(Seq<u8>, StatusModel)> {
    if exists|p: int| 0 <= p < u.len() && u[p].0 == h {
        u.update(choose|p: int| 0 <= p < u.len() && u[p].0 == h, (h, t))
    } else {
        u.push((h, t))
    }
}

/// The revised statuses of the transactions that `ins` spend from, each
/// spent output marked `Dead`; `None` when an input is expected to fail, its
/// transaction is unknown, or its output is not live.
pub open spec fn spend_updates(es: Seq<TxOverlay>, m: Map<Seq<u8>, StatusModel>, ins: Seq<InputCell>) -> Option<
    Seq<(Seq<u8>, StatusModel)>,
>
    decreases ins.len(),
{
    if ins.len() == 0 {
        Some(Seq::empty())
    } else {
        match spend_updates(es, m, ins.drop_last()) {
            None => None,
            Some(u) => {
                let x = ins.last();
                let cur = match ups_get(u, x.tx_hash@) {
                    Some(t) => Some(t),
                    None => overlay_status(es, m, x.tx_hash@),
                };
                if x.status == Status::Failed {
                    None
                } else {
                    match cur {
                        None => None,
                        Some(t) => if status_can_spend(t, x.index as int) {
                            Some(ups_put(u, x.tx_hash@, status_spent(t, x.index as int)))
                        } else {
                            None
                        },
                    }
                }
            },
        }
    }
}

/// For a transaction expected to fail: the current statuses of the
/// transactions its failing inputs draw from that are already invalid, each
/// once; `None` when one of them is unknown.
pub open spec fn failed_updates(es: Seq<TxOverlay>, m: Map<Seq<u8>, StatusModel>, ins: Seq<InputCell>) -> Option<
    Seq<(Seq<u8>, StatusModel)>,
>
    decreases ins.len(),
{
    if ins.len() == 0 {
        Some(Seq::empty())
    } else {
        match failed_updates(es, m, ins.drop_last()) {
            None => None,
            Some(u) => {
                let x = ins.last();
                if x.status != Status::Failed {
                    Some(u)
                } else {
                    match overlay_status(es, m, x.tx_hash@) {
                        None => None,
                        Some(t) => if status_invalid(t) && ups_get(u, x.tx_hash@) is None {
                            Some(u.push((x.tx_hash@, t)))
                        } else {
                            Some(u)
                        },
                    }
                }
            },
        }
    }
}

fn update_position(u: &Vec<(TxHash, TxStatus)>, h: &TxHash) -> (r: Option<usize>)
    requires
        keys_unique(updates_model(u@)),
    ensures
        r matches Some(p) ==> p < u@.len() && u@[p as int].0@ == h@ && ups_get(updates_model(u@), h@) == Some(u@[p as int].1@)
            && p == choose|q: int| 0 <= q < updates_model(u@).len() && updates_model(u@)[q].0 == h@,
        r is None ==> ups_get(updates_model(u@), h@) is None && !(exists|q: int| 0 <= q < updates_model(u@).len() && updates_model(u@)[q].0 == h@),
{
    let ghost um = updates_model(u@);
    let mut i: usize = 0;
    while i < u.len()
        invariant
            i <= u@.len(),
            um == updates_model(u@),
            keys_unique(um),
            forall|j: int| 0 <= j < i ==> u@[j].0@ != h@,
        decreases u@.len() - i,
    {
        if hash_eq(&u[i].0, h) {
            proof {
                assert(um[i as int].0 == h@);
                let q = choose|q: int| 0 <= q < um.len() && um[q].0 == h@;
                if q != i {
                    assert(um[q].0 != um[i as int].0);
                }
            }
            return Some(i);
        }
        i += 1;
    }
    proof {
        assert forall|q: int| 0 <= q < um.len() implies um[q].0 != h@ by {
            assert(um[q].0 == u@[q].0@);
        }
    }
    None
}

/// The changes a generated transaction will make once recorded: for an
/// expected pass, the spent outputs of its inputs marked `Dead`; for an
/// expected failure, the already-invalid transactions it drew from.
pub fn build_changes(overlay: &Overlay, inputs: &Vec<InputCell>, final_status: Status, new: TxOutputsStatus) -> (r: Result<
    TxOverlayChanges,
    GenerationError,
>)
    requires
        overlay.wf(),
    ensures
        final_status != Status::Failed ==> (r is Ok <==> spend_updates(overlay.entries(), overlay.store()@.statuses, inputs@) is Some),
        final_status == Status::Failed ==> (r is Ok <==> failed_updates(overlay.entries(), overlay.store()@.statuses, inputs@) is Some),
        r matches Err(e) ==> !(e is UnknownTransaction) && !(e is CapacityOverflow),
        r matches Ok(c) ==> keys_unique(changes_updates(c)),
        r matches Ok(c) ==> match c {
            TxOverlayChanges::Pending { new: n, updates } => final_status == Status::Pending && n@ == new@
                && Some(updates_model(updates@)) == spend_updates(overlay.entries(), overlay.store()@.statuses, inputs@),
            TxOverlayChanges::Committed { new: n, updates } => final_status == Status::Committed && n@ == new@
                && Some(updates_model(updates@)) == spend_updates(overlay.entries(), overlay.store()@.statuses, inputs@),
            TxOverlayChanges::Failed { updates } => final_status == Status::Failed
                && Some(updates_model(updates@)) == failed_updates(overlay.entries(), overlay.store()@.statuses, inputs@),
        },
{
    let ghost es = overlay.entries();
    let ghost m = overlay.store()@.statuses;
    let mut updates: Vec<(TxHash, TxStatus)> = Vec::new();
    let mut i: usize = 0;
    if final_status == Status::Failed {
        while i < inputs.len()
            invariant
                overlay.wf(),
                es == overlay.entries(),
                m == overlay.store()@.statuses,
                i <= inputs@.len(),
                final_status == Status::Failed,
                keys_unique(updates_model(updates@)),
                failed_updates(es, m, inputs@.subrange(0, i as int)) == Some(updates_model(updates@)),
            decreases inputs@.len() - i,
        {
            let x = inputs[i];
            let ghost before = updates_model(updates@);
            assert(inputs@.subrange(0, i + 1).drop_last() =~= inputs@.subrange(0, i as int));
            assert(inputs@.subrange(0, i + 1).last() == x);
            if x.status == Status::Failed {
                let t = match overlay.get_tx_status(&x.tx_hash) {
                    Ok(t) => t,
                    Err(e) => {
                        proof {
                            lemma_failed_updates_none_extends(es, m, inputs@, i as int + 1);
                        }
                        return Err(GenerationError::Overlay(e));
                    },
                };
                if t.is_invalid() && update_position(&updates, &x.tx_hash).is_none() {
                    updates.push((x.tx_hash, t));
                    assert(updates_model(updates@) =~= before.push((x.tx_hash@, t@)));
                }
            }
            i += 1;
        }
        assert(inputs@.subrange(0, i as int) =~= inputs@);
        Ok(TxOverlayChanges::Failed { updates })
    } else {
        while i < inputs.len()
            invariant
                overlay.wf(),
                es == overlay.entries(),
                m == overlay.store()@.statuses,
                i <= inputs@.len(),
                final_status != Status::Failed,
                keys_unique(updates_model(updates@)),
                spend_updates(es, m, inputs@.subrange(0, i as int)) == Some(updates_model(updates@)),
            decreases inputs@.len() - i,
        {
            let x = inputs[i];
            let ghost before = updates_model(updates@);
            assert(inputs@.subrange(0, i + 1).drop_last() =~= inputs@.subrange(0, i as int));
            assert(inputs@.subrange(0, i + 1).last() == x);
            if x.status == Status::Failed {
                proof {
                    lemma_spend_updates_none_extends(es, m, inputs@, i as int + 1);
                }
                return Err(GenerationError::FailedInput(x.tx_hash, x.index));
            }
            let ghost mut cur: StatusModel = StatusModel::Failed;
            let ghost mut found: bool = false;
            let pos = match update_position(&updates, &x.tx_hash) {
                Some(p) => {
                    proof {
                        cur = updates@[p as int].1@;
                        found = true;
                    }
                    p
                },
                None => {
                    let t = match overlay.get_tx_status(&x.tx_hash) {
                        Ok(t) => t,
                        Err(e) => {
                            proof {
                                lemma_spend_updates_none_extends(es, m, inputs@, i as int + 1);
                            }
                            return Err(GenerationError::Overlay(e));
                        },
                    };
                    proof {
                        cur = t@;
                    }
                    updates.push((x.tx_hash, t));
                    updates.len() - 1
                },
            };
            let ghost mid = updates@;
            assert(mid[pos as int].0@ == x.tx_hash@ && mid[pos as int].1@ == cur);
            let mut entry = updates.remove(pos);
            if !can_spend(&entry.1, x.index) {
                proof {
                    lemma_spend_updates_none_extends(es, m, inputs@, i as int + 1);
                }
                return Err(GenerationError::SpendNonLive(x.tx_hash, x.index));
            }
            entry.1.spent(x.index as usize);
            updates.insert(pos, entry);
            proof {
                assert(updates@ =~= mid.update(pos as int, updates@[pos as int]));
                let target = ups_put(before, x.tx_hash@, status_spent(cur, x.index as int));
                if found {
                    assert(mid =~= updates@.update(pos as int, mid[pos as int]));
                    assert(updates_model(updates@) =~= target);
                } else {
                    assert(updates_model(updates@) =~= target);
                }
                assert forall|a: int, b: int| 0 <= a < b < updates_model(updates@).len() implies updates_model(updates@)[a].0
                    != updates_model(updates@)[b].0 by {
                    if found {
                        assert(updates_model(updates@)[a].0 == before[a].0);
                        assert(updates_model(updates@)[b].0 == before[b].0);
                    } else if b == before.len() {
                        assert(updates_model(updates@)[a].0 == before[a].0);
                    } else {
                        assert(updates_model(updates@)[a].0 == before[a].0);
                        assert(updates_model(updates@)[b].0 == before[b].0);
                    }
                }
            }
            i += 1;
        }
        assert(inputs@.subrange(0, i as int) =~= inputs@);
        match final_status {
            Status::Pending => Ok(TxOverlayChanges::Pending { new, updates }),
            _ => Ok(TxOverlayChanges::Committed { new, updates }),
        }
    }
}

fn can_spend(t: &TxStatus, index: u32) -> (r: bool)
    ensures
        r == status_can_spend(t@, index as int),
{
    match t {
        TxStatus::Pending(o) | TxStatus::Committed(o) => (index as usize) < o.count() && o.status(index as usize)
            == CellStatus::Live,
        TxStatus::Failed => false,
    }
}

proof fn lemma_spend_updates_none_extends(es: Seq<TxOverlay>, m: Map<Seq<u8>, StatusModel>, ins: Seq<InputCell>, k: int)
    requires
        0 <= k <= ins.len(),
        spend_updates(es, m, ins.subrange(0, k)) is None,
    ensures
        spend_updates(es, m, ins) is None,
    decreases ins.len() - k,
{
    if k < ins.len() {
        assert(ins.subrange(0, k + 1).drop_last() =~= ins.subrange(0, k));
        lemma_spend_updates_none_extends(es, m, ins, k + 1);
    } else {
        assert(ins.subrange(0, k) =~= ins);
    }
}

proof fn lemma_failed_updates_none_extends(es: Seq<TxOverlay>, m: Map<Seq<u8>, StatusModel>, ins: Seq<InputCell>, k: int)
    requires
        0 <= k <= ins.len(),
        failed_updates(es, m, ins.subrange(0, k)) is None,
    ensures
        failed_updates(es, m, ins) is None,
    decreases ins.len() - k,
{
    if k < ins.len() {
        assert(ins.subrange(0, k + 1).drop_last() =~= ins.subrange(0, k));
        lemma_failed_updates_none_extends(es, m, ins, k + 1);
    } else {
        assert(ins.subrange(0, k) =~= ins);
    }
}

/// The expected outcome of the inputs: `Failed` when there are none, else
/// their statuses merged, starting from `Committed`.
pub open spec fn inputs_status(ins: Seq<RawInputCell>) -> Status
    decreases ins.len(),
{
    if ins.len() == 0 {
        Status::Failed
    } else if ins.len() == 1 {
        merge_spec(Status::Committed, ins[0].status)
    } else {
        merge_spec(inputs_status(ins.drop_last()), ins.last().status)
    }
}

fn merge_inputs(raw: &Vec<RawInputCell>) -> (r: Status)
    ensures
        r == inputs_status(raw@),
{
    if raw.len() == 0 {
        return Status::Failed;
    }
    let mut all = Status::Committed.merge(raw[0].status);
    let mut i: usize = 1;
    while i < raw.len()
        invariant
            1 <= i <= raw@.len(),
            all == inputs_status(raw@.subrange(0, i as int)),
        decreases raw@.len() - i,
    {
        assert(raw@.subrange(0, i + 1).drop_last() =~= raw@.subrange(0, i as int));
        all = all.merge(raw[i].status);
        i += 1;
    }
    assert(raw@.subrange(0, i as int) =~= raw@);
    all
}

/// The first phase of generating a transaction: nothing while the overlay
/// has fewer than the low-water mark of live cells; else its inputs.
pub fn begin_transaction<R: RandomSource>(rg: &mut R, overlay: &Overlay) -> (r: Result<Option<Vec<RawInputCell>>, GenerationError>)
    requires
        overlay.wf(),
    ensures
        r matches Ok(None) <==> overlay.store().tally().live < consumed_cells_bound(overlay),
        r matches Ok(Some(ins)) ==> inputs_ok(overlay.entries(), overlay.store()@.statuses, ins@),
        r matches Err(e) ==> e == GenerationError::Store(StoreError::Empty) && forall|q: Seq<u8>|
            !overlay.store()@.statuses.contains_key(q),
{
    let live = overlay.live_cells_count();
    if live < LOW_WATER_CELLS {
        return Ok(None);
    }
    match generate_inputs(rg, overlay) {
        Ok(ins) => Ok(Some(ins)),
        Err(_) => Err(GenerationError::Store(StoreError::Empty)),
    }
}

/// Live cells the store must hold for a transaction to be generated: the
/// low-water mark plus what the overlay already takes.
pub open spec fn consumed_cells_bound(overlay: &Overlay) -> int {
    LOW_WATER_CELLS + crate::overlay::consumed_cells(overlay.entries())
}

/// The inputs with their capacities, as `complete_inputs` gives them.
pub open spec fn completed(
    es: Seq<TxOverlay>,
    bodies: Map<Seq<u8>, Seq<u64>>,
    fs: Seq<(TxHash, Vec<u64>)>,
    raw: Seq<RawInputCell>,
) -> Seq<InputCell> {
    Seq::new(
        raw.len(),
        |j: int|
            InputCell {
                tx_hash: raw[j].tx_hash,
                index: raw[j].index,
                status: raw[j].status,
                capacity: input_capacity(resolved_caps(es, bodies, fs, raw[j].tx_hash@).unwrap(), raw[j].index),
            },
    )
}

/// Sum of a sequence of capacities.
pub open spec fn caps_total(cs: Seq<u64>) -> int
    decreases cs.len(),
{
    if cs.len() == 0 {
        0
    } else {
        caps_total(cs.drop_last()) + cs.last()
    }
}

/// The second phase of generating a transaction, once the ledger has supplied
/// the bodies in `fetched`: capacities, outputs, the expected outcome, the
/// ledger transaction and its changes.
pub fn finish_transaction<R: RandomSource>(
    rg: &mut R,
    overlay: &Overlay,
    raw: &Vec<RawInputCell>,
    fetched: &Vec<(TxHash, Vec<u64>)>,
    anchor: &ScriptAnchor,
) -> (r: Result<TxOverlay, GenerationError>)
    requires
        overlay.wf(),
    ensures
        ({
            let es = overlay.entries();
            let ins = completed(es, overlay.store()@.bodies, fetched@, raw@);
            let resolved = forall|j: int|
                0 <= j < raw@.len() ==> resolved_caps(es, overlay.store()@.bodies, fetched@, (#[trigger] raw@[j]).tx_hash@) is Some;
            &&& (r matches Err(GenerationError::UnknownTransaction(_))) <==> !resolved
            &&& (r matches Err(GenerationError::CapacityOverflow)) <==> resolved && inputs_total(ins) >= u64::MAX
            &&& resolved && inputs_total(ins) < u64::MAX && spend_updates(es, overlay.store()@.statuses, ins) is Some
                && failed_updates(es, overlay.store()@.statuses, ins) is Some ==> r is Ok
        }),
        r matches Ok(tx) ==> {
            let ins = completed(overlay.entries(), overlay.store()@.bodies, fetched@, raw@);
            &&& tx.summary.inputs@.len() == raw@.len()
            &&& forall|j: int|
                0 <= j < raw@.len() ==> (#[trigger] tx.summary.inputs@[j]).tx_hash == raw@[j].tx_hash
                    && tx.summary.inputs@[j].index == raw@[j].index
            &&& !(tx.changes is Committed)
            &&& status_outputs(entry_status(tx)).len() == if entry_failed(tx) { 0 } else { tx.summary.output_capacities@.len() }
            &&& (inputs_status(raw@) == Status::Failed ==> entry_failed(tx))
            &&& (raw@.len() == 0 ==> tx.summary.output_capacities@.len() == 0 && entry_updates(tx).len() == 0)
            &&& (!entry_failed(tx) ==> caps_total(tx.summary.output_capacities@) + FEE_SHANNONS == inputs_total(ins)
                && Some(entry_updates(tx)) == spend_updates(overlay.entries(), overlay.store()@.statuses, ins))
            &&& (entry_failed(tx) ==> Some(entry_updates(tx)) == failed_updates(overlay.entries(), overlay.store()@.statuses, ins))
        },
{
    let inputs = complete_inputs(overlay, raw, fetched)?;
    let ghost ins = completed(overlay.entries(), overlay.store()@.bodies, fetched@, raw@);
    assert(inputs@ =~= ins);
    match sum_capacities(&inputs) {
        Some(t) => {
            if t == u64::MAX {
                return Err(GenerationError::CapacityOverflow);
            }
        },
        None => {
            return Err(GenerationError::CapacityOverflow);
        },
    }
    let (outputs, outputs_status) = generate_outputs(rg, &inputs);
    assemble_transaction(overlay, raw, &inputs, outputs, outputs_status, anchor)
}

/// The capacities of the outputs, in order.
pub open spec fn output_caps(os: Seq<RawOutputCell>) -> Seq<u64> {
    Seq::new(os.len(), |i: int| os[i].output.capacity)
}

/// The cell statuses of the outputs, in order.
pub open spec fn output_cells(os: Seq<RawOutputCell>) -> Seq<CellStatus> {
    Seq::new(os.len(), |i: int| os[i].cell_status)
}

/// Builds a generated transaction from its inputs and its synthesized
/// outputs. Its expected outcome is the merge of the inputs' and the outputs'
/// outcomes; its changes are the spent outputs marked `Dead` when it is
/// expected to pass, and the already-invalid sources when expected to fail.
pub fn assemble_transaction(
    overlay: &Overlay,
    raw: &Vec<RawInputCell>,
    inputs: &Vec<InputCell>,
    outputs: Vec<RawOutputCell>,
    outputs_status: Status,
    anchor: &ScriptAnchor,
) -> (r: Result<TxOverlay, GenerationError>)
    requires
        overlay.wf(),
        inputs@.len() == raw@.len(),
        forall|j: int|
            0 <= j < raw@.len() ==> (#[trigger] inputs@[j]).tx_hash == raw@[j].tx_hash && inputs@[j].index == raw@[j].index
                && inputs@[j].status == raw@[j].status,
    ensures
        ({
            let fin = merge_spec(inputs_status(raw@), outputs_status);
            let es = overlay.entries();
            let m = overlay.store()@.statuses;
            &&& fin != Status::Failed ==> (r is Ok <==> spend_updates(es, m, inputs@) is Some)
            &&& fin == Status::Failed ==> (r is Ok <==> failed_updates(es, m, inputs@) is Some)
            &&& r matches Err(e) ==> !(e is UnknownTransaction) && !(e is CapacityOverflow)
            &&& r matches Ok(tx) ==> {
                &&& kind_of(entry_status(tx)) == fin
                &&& fin != Status::Failed ==> status_outputs(entry_status(tx)) == output_cells(outputs@)
                    && Some(entry_updates(tx)) == spend_updates(es, m, inputs@)
                &&& fin == Status::Failed ==> Some(entry_updates(tx)) == failed_updates(es, m, inputs@)
                &&& tx.summary.output_capacities@ == output_caps(outputs@)
                &&& caps_total(tx.summary.output_capacities@) == outputs_total(outputs@)
                &&& tx.summary.inputs@.len() == raw@.len()
                &&& forall|j: int|
                    0 <= j < raw@.len() ==> (#[trigger] tx.summary.inputs@[j]).tx_hash == raw@[j].tx_hash
                        && tx.summary.inputs@[j].index == raw@[j].index
            }
        }),
{
    let ins_status = merge_inputs(raw);
    let final_status = ins_status.merge(outputs_status);
    let ghost outs = outputs@;
    let mut statuses: Vec<CellStatus> = Vec::new();
    let mut caps: Vec<u64> = Vec::new();
    let mut plans: Vec<OutputPlan> = Vec::new();
    let mut outputs = outputs;
    let n_out = outputs.len();
    let mut k: usize = 0;
    while k < n_out
        invariant
            k <= n_out,
            n_out == outs.len(),
            outputs@ == outs.subrange(k as int, n_out as int),
            statuses@ == output_cells(outs).subrange(0, k as int),
            caps@ == output_caps(outs).subrange(0, k as int),
            caps_total(caps@) == outputs_total(outs.subrange(0, k as int)),
        decreases n_out - k,
    {
        assert(outs.subrange(0, k + 1).drop_last() =~= outs.subrange(0, k as int));
        assert(outs.subrange(k + 1, n_out as int) =~= outputs@.remove(0));
        let o = outputs.remove(0);
        let ghost before = caps@;
        statuses.push(o.cell_status);
        caps.push(o.output.capacity);
        assert(caps@.drop_last() =~= before);
        assert(statuses@ =~= output_cells(outs).subrange(0, k + 1));
        assert(caps@ =~= output_caps(outs).subrange(0, k + 1));
        plans.push(o.output);
        k += 1;
    }
    assert(outs.subrange(0, k as int) =~= outs);
    assert(statuses@ =~= output_cells(outs));
    assert(caps@ =~= output_caps(outs));
    let new = TxOutputsStatus { statuses };
    let changes = build_changes(overlay, inputs, final_status, new)?;
    let mut points: Vec<OutPoint> = Vec::new();
    let mut j: usize = 0;
    while j < inputs.len()
        invariant
            j <= inputs@.len(),
            inputs@.len() == raw@.len(),
            forall|q: int|
                0 <= q < raw@.len() ==> (#[trigger] inputs@[q]).tx_hash == raw@[q].tx_hash && inputs@[q].index == raw@[q].index,
            points@.len() == j,
            forall|q: int| 0 <= q < j ==> (#[trigger] points@[q]).tx_hash == raw@[q].tx_hash && points@[q].index == raw@[q].index,
        decreases inputs@.len() - j,
    {
        points.push(OutPoint { tx_hash: inputs[j].tx_hash, index: inputs[j].index });
        j += 1;
    }
    let (view, hash) = build_transaction(anchor, &points, &plans);
    let summary = TxSummary { hash, inputs: points, output_capacities: caps };
    Ok(TxOverlay { view, summary, changes })
}

/// Adds a generated transaction to the overlay. `false`, and no change, when
/// its id is already there: the round ends.
pub fn add_generated(overlay: &mut Overlay, tx: TxOverlay) -> (r: bool)
    requires
        old(overlay).wf(),
    ensures
        final(overlay).wf(),
        final(overlay).store() == old(overlay).store(),
        r == !(exists|i: int| 0 <= i < old(overlay).entries().len() && entry_hash(old(overlay).entries()[i]) == tx.summary.hash@),
        r ==> final(overlay).entries() == old(overlay).entries().push(tx),
        !r ==> final(overlay).entries() == old(overlay).entries(),
{
    if overlay.has_tx(&tx.summary.hash) {
        return false;
    }
    match overlay.add_tx(tx) {
        Ok(()) => true,
        Err(_) => false,
    }
}

/// Spending an output that is not live, in the status as the earlier inputs
/// left it, is refused: the changes of the whole transaction are undefined.
pub proof fn lemma_spend_needs_live(es: Seq<TxOverlay>, m: Map<Seq<u8>, StatusModel>, ins: Seq<InputCell>, k: int)
    requires
        0 <= k < ins.len(),
        spend_updates(es, m, ins.subrange(0, k)) is Some,
        ({
            let u = spend_updates(es, m, ins.subrange(0, k))->Some_0;
            let cur = match ups_get(u, ins[k].tx_hash@) {
                Some(t) => Some(t),
                None => overlay_status(es, m, ins[k].tx_hash@),
            };
            cur matches Some(t) && !status_can_spend(t, ins[k].index as int)
        }),
    ensures
        spend_updates(es, m, ins) is None,
{
    assert(ins.subrange(0, k + 1).drop_last() =~= ins.subrange(0, k));
    assert(ins.subrange(0, k + 1).last() == ins[k]);
    lemma_spend_updates_none_extends(es, m, ins, k + 1);
}

} // verus!
