//! Aggregate counters over all known transaction statuses.
use vstd::prelude::*;

use crate::status::{live_count, status_live_count, CellStatus, StatusModel, TxStatus};

verus! {

/// The value of the counters.
pub struct Tally {
    pub pending: int,
    pub committed: int,
    pub failed: int,
    pub live: int,
}

pub open spec fn tally_zero() -> Tally {
    Tally { pending: 0, committed: 0, failed: 0, live: 0 }
}

pub open spec fn tally_add(a: Tally, b: Tally) -> Tally {
    Tally {
        pending: a.pending + b.pending,
        committed: a.committed + b.committed,
        failed: a.failed + b.failed,
        live: a.live + b.live,
    }
}

pub open spec fn tally_sub(a: Tally, b: Tally) -> Tally {
    Tally {
        pending: a.pending - b.pending,
        committed: a.committed - b.committed,
        failed: a.failed - b.failed,
        live: a.live - b.live,
    }
}

/// What one transaction status adds to the counters.
pub open spec fn tally_one(t: StatusModel) -> Tally {
    match t {
        StatusModel::Pending(s) => Tally { pending: 1, committed: 0, failed: 0, live: live_count(s) as int },
        StatusModel::Committed(s) => Tally {
            pending: 0,
            committed: 1,
            failed: 0,
            live: live_count(s) as int,
        },
        StatusModel::Failed => Tally { pending: 0, committed: 0, failed: 1, live: 0 },
    }
}

/// The counters recounted from a sequence of statuses.
pub open spec fn tally_all(s: Seq<StatusModel>) -> Tally
    decreases s.len(),
{
    if s.len() == 0 {
        tally_zero()
    } else {
        tally_add(tally_all(s.drop_last()), tally_one(s.last()))
    }
}

pub open spec fn tally_fits(t: Tally) -> bool {
    0 <= t.pending <= usize::MAX && 0 <= t.committed <= usize::MAX && 0 <= t.failed <= usize::MAX
        && 0 <= t.live <= usize::MAX
}

pub proof fn lemma_tally_nonneg(s: Seq<StatusModel>)
    ensures
        tally_all(s).pending >= 0,
        tally_all(s).committed >= 0,
        tally_all(s).failed >= 0,
        tally_all(s).live >= 0,
    decreases s.len(),
{
    if s.len() > 0 {
        lemma_tally_nonneg(s.drop_last());
    }
}

pub proof fn lemma_tally_push(s: Seq<StatusModel>, x: StatusModel)
    ensures
        tally_all(s.push(x)) == tally_add(tally_all(s), tally_one(x)),
{
    assert(s.push(x).drop_last() =~= s);
}

pub proof fn lemma_tally_update(s: Seq<StatusModel>, i: int, x: StatusModel)
    requires
        0 <= i < s.len(),
    ensures
        tally_all(s.update(i, x)) == tally_add(tally_sub(tally_all(s), tally_one(s[i])), tally_one(x)),
    decreases s.len(),
{
    if i == s.len() - 1 {
        assert(s.update(i, x).drop_last() =~= s.drop_last());
    } else {
        assert(s.update(i, x).drop_last() =~= s.drop_last().update(i, x));
        lemma_tally_update(s.drop_last(), i, x);
    }
}

pub proof fn lemma_tally_remove(s: Seq<StatusModel>, i: int)
    requires
        0 <= i < s.len(),
    ensures
        tally_all(s.remove(i)) == tally_sub(tally_all(s), tally_one(s[i])),
    decreases s.len(),
{
    if i == s.len() - 1 {
        assert(s.remove(i) =~= s.drop_last());
    } else {
        assert(s.remove(i).drop_last() =~= s.drop_last().remove(i));
        lemma_tally_remove(s.drop_last(), i);
    }
}

/// Running counters: transactions by status, and live cells.
#[derive(Debug)]
pub struct CacheStats {
    tx_pending_cnt: usize,
    tx_committed_cnt: usize,
    tx_failed_cnt: usize,
    cell_live_cnt: usize,
}

impl View for CacheStats {
    type V = Tally;

    closed spec fn view(&self) -> Tally {
        Tally {
            pending: self.tx_pending_cnt as int,
            committed: self.tx_committed_cnt as int,
            failed: self.tx_failed_cnt as int,
            live: self.cell_live_cnt as int,
        }
    }
}

/// Number of `Live` entries of a slice.
pub fn count_live(statuses: &[CellStatus]) -> (r: usize)
    ensures
        r == live_count(statuses@),
{
    let mut cnt: usize = 0;
    let mut i: usize = 0;
    while i < statuses.len()
        invariant
            i <= statuses@.len(),
            cnt == live_count(statuses@.subrange(0, i as int)),
            cnt <= i,
        decreases statuses@.len() - i,
    {
        assert(statuses@.subrange(0, i + 1).drop_last() =~= statuses@.subrange(0, i as int));
        if statuses[i] == CellStatus::Live {
            cnt += 1;
        }
        i += 1;
    }
    assert(statuses@.subrange(0, i as int) =~= statuses@);
    cnt
}

impl CacheStats {
    /// All counters zero.
    pub fn new() -> (r: Self)
        ensures
            r@ == tally_zero(),
    {
        CacheStats { tx_pending_cnt: 0, tx_committed_cnt: 0, tx_failed_cnt: 0, cell_live_cnt: 0 }
    }

    pub proof fn lemma_fits(&self)
        ensures
            tally_fits(self@),
    {
    }

    pub fn tx_pending_cnt(&self) -> (r: usize)
        ensures
            r == self@.pending,
    {
        self.tx_pending_cnt
    }

    pub fn tx_committed_cnt(&self) -> (r: usize)
        ensures
            r == self@.committed,
    {
        self.tx_committed_cnt
    }

    pub fn tx_failed_cnt(&self) -> (r: usize)
        ensures
            r == self@.failed,
    {
        self.tx_failed_cnt
    }

    pub fn cell_live_cnt(&self) -> (r: usize)
        ensures
            r == self@.live,
    {
        self.cell_live_cnt
    }

    /// Counts a newly submitted transaction by its status and live outputs,
    /// and takes the `inputs_count` cells it spends out of the live count.
    pub fn submit_tx(&mut self, inputs_count: usize, tx_status: &TxStatus)
        requires
            tally_fits(tally_add(old(self)@, tally_one(tx_status@))),
            old(self)@.live + status_live_count(tx_status@) >= inputs_count,
        ensures
            final(self)@ == tally_sub(
                tally_add(old(self)@, tally_one(tx_status@)),
                Tally { pending: 0, committed: 0, failed: 0, live: inputs_count as int },
            ),
    {
        self.load_tx(tx_status);
        self.cell_live_cnt -= inputs_count;
    }

    /// Forgets a transaction with this status, and its live outputs.
    pub fn remove_tx(&mut self, tx_status: &TxStatus)
        requires
            tally_fits(tally_sub(old(self)@, tally_one(tx_status@))),
        ensures
            final(self)@ == tally_sub(old(self)@, tally_one(tx_status@)),
    {
        match tx_status {
            TxStatus::Pending(inner) => {
                self.tx_pending_cnt -= 1;
                let n = count_live(inner.statuses.as_slice());
                self.cell_live_cnt -= n;
            },
            TxStatus::Committed(inner) => {
                self.tx_committed_cnt -= 1;
                let n = count_live(inner.statuses.as_slice());
                self.cell_live_cnt -= n;
            },
            TxStatus::Failed => {
                self.tx_failed_cnt -= 1;
            },
        }
    }

    /// Counts a reward transaction committed with `outputs_count` live outputs.
    pub fn commit_cellbase(&mut self, outputs_count: usize)
        requires
            old(self)@.committed + 1 <= usize::MAX,
            old(self)@.live + outputs_count <= usize::MAX,
        ensures
            final(self)@ == tally_add(
                old(self)@,
                Tally { pending: 0, committed: 1, failed: 0, live: outputs_count as int },
            ),
    {
        self.tx_committed_cnt += 1;
        self.cell_live_cnt += outputs_count;
    }

    /// Moves one transaction from pending to committed.
    pub fn commit_pending(&mut self)
        requires
            old(self)@.pending >= 1,
            old(self)@.committed + 1 <= usize::MAX,
        ensures
            final(self)@ == tally_add(
                old(self)@,
                Tally { pending: -1, committed: 1, failed: 0, live: 0 },
            ),
    {
        self.tx_pending_cnt -= 1;
        self.tx_committed_cnt += 1;
    }

    /// Counts a transaction with this status, and its live outputs.
    pub fn load_tx(&mut self, tx_status: &TxStatus)
        requires
            tally_fits(tally_add(old(self)@, tally_one(tx_status@))),
        ensures
            final(self)@ == tally_add(old(self)@, tally_one(tx_status@)),
    {
        match tx_status {
            TxStatus::Pending(inner) => {
                self.tx_pending_cnt += 1;
                self.load_cells(inner.statuses.as_slice());
            },
            TxStatus::Committed(inner) => {
                self.tx_committed_cnt += 1;
                self.load_cells(inner.statuses.as_slice());
            },
            TxStatus::Failed => {
                self.tx_failed_cnt += 1;
            },
        }
    }

    /// Adds the `Live` entries of `statuses` to the live count.
    pub fn load_cells(&mut self, statuses: &[CellStatus])
        requires
            old(self)@.live + live_count(statuses@) <= usize::MAX,
        ensures
            final(self)@ == tally_add(
                old(self)@,
                Tally { pending: 0, committed: 0, failed: 0, live: live_count(statuses@) as int },
            ),
    {
        let n = count_live(statuses);
        self.cell_live_cnt += n;
    }
}

} // verus!
