//! Transactions as the generation logic sees them, and the ledger types that
//! carry them to the acceptance engine.
use vstd::prelude::*;

use ckb_types::packed::{Byte32, CellDep, CellOutput, Script};
use ckb_types::prelude::{Builder, Entity, Pack, Unpack};

use crate::hash::TxHash;

verus! {

#[verifier::external_type_specification]
#[verifier::external_body]
pub struct ExTransactionView(ckb_types::core::TransactionView);

#[verifier::external_type_specification]
#[verifier::external_body]
pub struct ExByte32(Byte32);

#[verifier::external_type_specification]
#[verifier::external_body]
pub struct ExCellDep(CellDep);

#[verifier::external_type_specification]
#[verifier::external_body]
pub struct ExCellOutput(CellOutput);

#[verifier::external_type_specification]
#[verifier::external_body]
pub struct ExScript(Script);

/// A reference to output `index` of transaction `tx_hash`.
#[derive(Debug, Clone, Copy)]
pub struct OutPoint {
    pub tx_hash: TxHash,
    pub index: u32,
}

/// What the generation logic reads of a transaction: its id, what it spends,
/// and the capacities of its outputs.
#[derive(Debug)]
pub struct TxSummary {
    pub hash: TxHash,
    pub inputs: Vec<OutPoint>,
    pub output_capacities: Vec<u64>,
}

/// The always-success script deployed on the ledger, which the synthetic
/// lock and type scripts call.
pub struct ScriptAnchor {
    pub cell_dep: CellDep,
    pub data_hash: Byte32,
    pub type_hash: Byte32,
}

impl ScriptAnchor {
    pub fn new(cell_dep: CellDep, data_hash: Byte32, type_hash: Byte32) -> (r: Self)
        ensures
            r.cell_dep == cell_dep,
            r.data_hash == data_hash,
            r.type_hash == type_hash,
    {
        ScriptAnchor { cell_dep, data_hash, type_hash }
    }
}

/// A synthetic script: calls the anchor by data or by type hash, with the
/// expected result and cycle cost in its arguments.
pub struct ScriptPlan {
    pub by_data_hash: bool,
    pub expect_success: bool,
    pub args: Vec<u8>,
}

/// One output to be created.
pub struct OutputPlan {
    pub capacity: u64,
    pub lock: Option<ScriptPlan>,
    pub type_script: Option<ScriptPlan>,
    pub data_size: u64,
}

/// Hash type byte of a script that names its code by data hash.
pub const HASH_TYPE_DATA: u8 = 0;

/// Hash type byte of a script that names its code by type hash.
pub const HASH_TYPE_TYPE: u8 = 1;

/// Relies on ckb-types' `packed::Script` builder: a script with this code
/// hash, hash type byte and arguments.
#[verifier::external_body]
fn pack_script(code_hash: &Byte32, hash_type: u8, args: &Vec<u8>) -> Script {
    Script::new_builder().hash_type(ckb_types::packed::Byte::new(hash_type)).code_hash(code_hash.clone()).args(
        args.pack(),
    ).build()
}

/// Relies on ckb-types' `packed::Script::default`: the empty lock, which no
/// input can unlock.
#[verifier::external_body]
fn empty_script() -> Script {
    Script::default()
}

/// Relies on ckb-types' `packed::CellOutput` builder: an output with this
/// capacity, lock and optional type script.
#[verifier::external_body]
fn pack_output(capacity: u64, lock: Script, type_script: Option<Script>) -> CellOutput {
    CellOutput::new_builder().capacity(capacity).lock(lock).type_(type_script.pack()).build()
}

/// The script of a plan: it calls the anchor by data hash or by type hash.
fn plan_script(anchor: &ScriptAnchor, plan: &ScriptPlan) -> Script {
    if plan.by_data_hash {
        pack_script(&anchor.data_hash, HASH_TYPE_DATA, &plan.args)
    } else {
        pack_script(&anchor.type_hash, HASH_TYPE_TYPE, &plan.args)
    }
}

/// Relies on ckb-types' `TransactionBuilder`: a transaction with the anchor
/// as its one cell dependency, these inputs (since 0), outputs, and zeroed
/// output data of these sizes.
#[verifier::external_body]
fn pack_transaction(
    anchor: &ScriptAnchor,
    inputs: &Vec<OutPoint>,
    outputs: Vec<CellOutput>,
    data_sizes: &Vec<u64>,
) -> ckb_types::core::TransactionView {
    let inputs = inputs.iter().map(|i| {
        let op = ckb_types::packed::OutPoint::new(i.tx_hash.pack(), i.index);
        ckb_types::packed::CellInput::new(op, 0)
    });
    let data = data_sizes.iter().map(|n| vec![0u8; *n as usize].pack());
    ckb_types::core::TransactionView::new_advanced_builder().cell_dep(anchor.cell_dep.clone()).inputs(inputs).outputs(
        outputs,
    ).outputs_data(data).build()
}

/// Relies on ckb-types' `ckb_types::core::TransactionView::hash`: the transaction's id.
#[verifier::external_body]
fn view_hash(view: &ckb_types::core::TransactionView) -> TxHash {
    view.hash().unpack()
}

/// The ledger transaction for these inputs and outputs, and its id.
pub fn build_transaction(anchor: &ScriptAnchor, inputs: &Vec<OutPoint>, outputs: &Vec<OutputPlan>) -> (r: (
    ckb_types::core::TransactionView,
    TxHash,
)) {
    let mut packed: Vec<CellOutput> = Vec::new();
    let mut sizes: Vec<u64> = Vec::new();
    let mut i: usize = 0;
    while i < outputs.len()
        invariant
            i <= outputs@.len(),
        decreases outputs@.len() - i,
    {
        let o = &outputs[i];
        let lock = match &o.lock {
            Some(p) => plan_script(anchor, p),
            None => empty_script(),
        };
        let type_script = match &o.type_script {
            Some(p) => Some(plan_script(anchor, p)),
            None => None,
        };
        packed.push(pack_output(o.capacity, lock, type_script));
        sizes.push(o.data_size);
        i += 1;
    }
    let view = pack_transaction(anchor, inputs, packed, &sizes);
    let hash = view_hash(&view);
    (view, hash)
}

} // verus!
