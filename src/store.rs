//! The status store: per-transaction statuses, the bodies of transactions not
//! yet committed, and the transactions known to have failed while pending.
//!
//! The store holds its state in memory and offers it as encoded records for
//! persistence; the aggregate counters always equal a recount of the records.
use vstd::prelude::*;

use crate::keyed::{keyed_ok, lemma_keyed_absent, lemma_keyed_at, lemma_keyed_push, lemma_keyed_remove, lemma_keyed_update};
use crate::hash::{compare_hash, hash_eq, hash_le, lemma_hash_lt_transitive, TxHash};
use crate::stats::{
    count_live,
    lemma_tally_nonneg, lemma_tally_push, lemma_tally_remove, lemma_tally_update, tally_add,
    tally_all, tally_fits, tally_one, tally_sub, tally_zero, CacheStats, Tally,
};
use crate::status::{
    all_live,
    decode_status, encode_status, lemma_decode_encode_status, status_encodable,
    status_live_count, CorruptError, StatusModel, TxStatus,
};

verus! {

/// A persisted status record: a transaction id and its status.
pub struct StatusRecord {
    pub hash: TxHash,
    pub status: TxStatus,
}

/// What the logic reads of a transaction body: its id and the capacities of
/// its outputs.
pub struct TxBody {
    pub hash: TxHash,
    pub output_capacities: Vec<u64>,
}

/// The abstract content of a store.
pub struct StoreModel {
    pub statuses: Map<Seq<u8>, StatusModel>,
    pub bodies: Map<Seq<u8>, Seq<u64>>,
    pub failed_pending: Set<Seq<u8>>,
}

/// Why the store refused an operation.
#[derive(Debug, Clone, Copy, PartialEq, Eq)]
pub enum StoreError {
    /// A persisted record does not decode.
    Corrupt(CorruptError),
    /// The store holds no status at all.
    Empty,
    /// A transaction known to have failed was confirmed.
    ConfirmedFailed(TxHash),
    /// A committed transaction was confirmed again.
    ConfirmedTwice(TxHash),
    /// A transaction this store never heard of was confirmed.
    ConfirmedUnknown(TxHash),
    /// The counters would not fit in a `usize`.
    CounterOverflow,
}

pub struct StatusStore {
    records: Vec<StatusRecord>,
    bodies: Vec<TxBody>,
    failed_pending: Vec<TxHash>,
    stats: CacheStats,
    status_map: Ghost<Map<Seq<u8>, StatusModel>>,
    body_map: Ghost<Map<Seq<u8>, Seq<u64>>>,
    marker_map: Ghost<Map<Seq<u8>, ()>>,
}

pub open spec fn record_keys(recs: Seq<StatusRecord>) -> Seq<Seq<u8>> {
    Seq::new(recs.len(), |i: int| recs[i].hash@)
}

pub open spec fn body_keys(bs: Seq<TxBody>) -> Seq<Seq<u8>> {
    Seq::new(bs.len(), |i: int| bs[i].hash@)
}

pub open spec fn body_vals(bs: Seq<TxBody>) -> Seq<Seq<u64>> {
    Seq::new(bs.len(), |i: int| bs[i].output_capacities@)
}

pub open spec fn marker_keys(v: Seq<TxHash>) -> Seq<Seq<u8>> {
    Seq::new(v.len(), |i: int| v[i]@)
}

pub open spec fn marker_vals(v: Seq<TxHash>) -> Seq<()> {
    Seq::new(v.len(), |i: int| ())
}

pub open spec fn record_statuses(recs: Seq<StatusRecord>) -> Seq<StatusModel> {
    Seq::new(recs.len(), |i: int| recs[i].status@)
}

/// The statuses after putting each update in turn; a later update of the same
/// id wins.
pub open spec fn apply_updates(
    m: Map<Seq<u8>, StatusModel>,
    ups: Seq<(Seq<u8>, StatusModel)>,
) -> Map<Seq<u8>, StatusModel>
    decreases ups.len(),
{
    if ups.len() == 0 {
        m
    } else {
        apply_updates(m, ups.drop_last()).insert(ups.last().0, ups.last().1)
    }
}

pub open spec fn updates_view(ups: Seq<(TxHash, TxStatus)>) -> Seq<(Seq<u8>, StatusModel)> {
    Seq::new(ups.len(), |i: int| (ups[i].0@, ups[i].1@))
}

/// What a sequence of statuses adds to the counters at most.
pub open spec fn updates_tally(ups: Seq<(Seq<u8>, StatusModel)>) -> Tally
    decreases ups.len(),
{
    if ups.len() == 0 {
        tally_zero()
    } else {
        tally_add(updates_tally(ups.drop_last()), tally_one(ups.last().1))
    }
}

/// The counters after putting `t` as the status of `k`.
pub open spec fn tally_after_put(t0: Tally, m: Map<Seq<u8>, StatusModel>, k: Seq<u8>, t: StatusModel) -> Tally {
    if m.contains_key(k) {
        tally_add(tally_sub(t0, tally_one(m[k])), tally_one(t))
    } else {
        tally_add(t0, tally_one(t))
    }
}

/// One non-reward transaction of a block, confirmed against the model.
pub open spec fn confirm_tx(m: StoreModel, h: Seq<u8>) -> Option<StoreModel> {
    let m1 = StoreModel { bodies: m.bodies.remove(h), ..m };
    if m.statuses.contains_key(h) {
        match m.statuses[h] {
            StatusModel::Pending(s) => Some(
                StoreModel { statuses: m1.statuses.insert(h, StatusModel::Committed(s)), ..m1 },
            ),
            _ => None,
        }
    } else if m.failed_pending.contains(h) {
        Some(StoreModel { failed_pending: m1.failed_pending.remove(h), ..m1 })
    } else {
        None
    }
}

/// The error that confirming `h` against `m` gives, if any.
pub open spec fn confirm_error(m: StoreModel, h: TxHash) -> StoreError {
    if m.statuses.contains_key(h@) {
        match m.statuses[h@] {
            StatusModel::Failed => StoreError::ConfirmedFailed(h),
            _ => StoreError::ConfirmedTwice(h),
        }
    } else {
        StoreError::ConfirmedUnknown(h)
    }
}

/// The non-reward transactions `txs[i..]`, confirmed in turn.
pub open spec fn confirm_rest(m: StoreModel, txs: Seq<(TxHash, usize)>, i: int) -> Result<
    StoreModel,
    StoreError,
>
    decreases txs.len() - i,
{
    if i >= txs.len() || i < 0 {
        Ok(m)
    } else {
        match confirm_tx(m, txs[i].0@) {
            Some(m2) => confirm_rest(m2, txs, i + 1),
            None => Err(confirm_error(m, txs[i].0)),
        }
    }
}

/// The reward transaction commits its outputs, when it has any.
pub open spec fn confirm_reward(m: StoreModel, h: Seq<u8>, n: usize) -> StoreModel {
    if n > 0 {
        StoreModel {
            statuses: m.statuses.insert(h, StatusModel::Committed(all_live(n as nat))),
            ..m
        }
    } else {
        m
    }
}

/// A whole block: the reward transaction first, then the others in order.
pub open spec fn confirm_block_model(m: StoreModel, txs: Seq<(TxHash, usize)>) -> Result<
    StoreModel,
    StoreError,
> {
    if txs.len() == 0 {
        Ok(m)
    } else {
        confirm_rest(confirm_reward(m, txs[0].0@, txs[0].1), txs, 1)
    }
}

impl View for StatusStore {
    type V = StoreModel;

    closed spec fn view(&self) -> StoreModel {
        StoreModel {
            statuses: self.status_map@,
            bodies: self.body_map@,
            failed_pending: self.marker_map@.dom(),
        }
    }
}

impl StatusStore {
    /// The counters of the store.
    pub closed spec fn tally(&self) -> Tally {
        self.stats@
    }

    pub closed spec fn wf(&self) -> bool {
        &&& keyed_ok(record_keys(self.records@), record_statuses(self.records@), self.status_map@)
        &&& forall|i: int|
            0 <= i < self.records@.len() ==> status_encodable(#[trigger] self.records@[i].status@)
        &&& keyed_ok(body_keys(self.bodies@), body_vals(self.bodies@), self.body_map@)
        &&& keyed_ok(marker_keys(self.failed_pending@), marker_vals(self.failed_pending@), self.marker_map@)
        &&& self.stats@ == tally_all(record_statuses(self.records@))
    }

    /// An empty store.
    pub fn new() -> (r: Self)
        ensures
            r.wf(),
            r@.statuses == Map::<Seq<u8>, StatusModel>::empty(),
            r@.bodies == Map::<Seq<u8>, Seq<u64>>::empty(),
            r@.failed_pending == Set::<Seq<u8>>::empty(),
            r.tally() == tally_zero(),
    {
        let r = StatusStore {
            records: Vec::new(),
            bodies: Vec::new(),
            failed_pending: Vec::new(),
            stats: CacheStats::new(),
            status_map: Ghost(Map::empty()),
            body_map: Ghost(Map::empty()),
            marker_map: Ghost(Map::empty()),
        };
        assert(record_statuses(r.records@) =~= Seq::<StatusModel>::empty());
        assert(record_keys(r.records@) =~= Seq::<Seq<u8>>::empty());
        assert(body_keys(r.bodies@) =~= Seq::<Seq<u8>>::empty());
        assert(body_vals(r.bodies@) =~= Seq::<Seq<u64>>::empty());
        assert(marker_keys(r.failed_pending@) =~= Seq::<Seq<u8>>::empty());
        assert(marker_vals(r.failed_pending@) =~= Seq::<()>::empty());
        assert(r@.failed_pending =~= Set::<Seq<u8>>::empty());
        r
    }

    /// Number of live cells over all stored statuses.
    pub fn live_cell_count(&self) -> (r: usize)
        ensures
            r == self.tally().live,
    {
        self.stats.cell_live_cnt()
    }

    /// The transactions known to have failed while pending.
    pub fn failed_pending(&self) -> (r: Vec<TxHash>)
        requires
            self.wf(),
        ensures
            forall|i: int| 0 <= i < r@.len() ==> self@.failed_pending.contains(#[trigger] r@[i]@),
            forall|k: Seq<u8>| #[trigger] self@.failed_pending.contains(k) ==> exists|i: int| 0 <= i < r@.len() && r@[i]@ == k,
    {
        let ghost keys = marker_keys(self.failed_pending@);
        let ghost vals = marker_vals(self.failed_pending@);
        let mut r: Vec<TxHash> = Vec::new();
        let mut i: usize = 0;
        while i < self.failed_pending.len()
            invariant
                self.wf(),
                keys == marker_keys(self.failed_pending@),
                vals == marker_vals(self.failed_pending@),
                i <= self.failed_pending@.len(),
                r@ == self.failed_pending@.subrange(0, i as int),
            decreases self.failed_pending@.len() - i,
        {
            r.push(self.failed_pending[i]);
            i += 1;
        }
        proof {
            assert(r@ =~= self.failed_pending@);
            assert forall|j: int| 0 <= j < r@.len() implies self@.failed_pending.contains(#[trigger] r@[j]@) by {
                lemma_keyed_at(keys, vals, self.marker_map@, j);
            }
            assert forall|k: Seq<u8>| #[trigger] self@.failed_pending.contains(k) implies exists|j: int| 0 <= j < r@.len() && r@[j]@ == k by {
                let j = choose|j: int| 0 <= j < keys.len() && keys[j] == k;
                assert(r@[j]@ == k);
            }
        }
        r
    }

    /// The counters.
    pub fn stats(&self) -> (r: &CacheStats)
        ensures
            r@ == self.tally(),
    {
        &self.stats
    }

    fn find_record(&self, h: &TxHash) -> (r: Option<usize>)
        requires
            self.wf(),
        ensures
            r matches Some(i) ==> i < self.records@.len() && self.records@[i as int].hash@ == h@,
            r is None ==> !self@.statuses.contains_key(h@),
    {
        let mut i: usize = 0;
        while i < self.records.len()
            invariant
                i <= self.records@.len(),
                forall|j: int| 0 <= j < i ==> self.records@[j].hash@ != h@,
            decreases self.records@.len() - i,
        {
            if hash_eq(&self.records[i].hash, h) {
                return Some(i);
            }
            i += 1;
        }
        proof {
            lemma_keyed_absent(record_keys(self.records@), record_statuses(self.records@), self.status_map@, h@);
        }
        None
    }

    /// The status of `h`, if stored.
    pub fn get_status(&self, h: &TxHash) -> (r: Option<TxStatus>)
        requires
            self.wf(),
        ensures
            r is Some <==> self@.statuses.contains_key(h@),
            r matches Some(t) ==> t@ == self@.statuses[h@],
    {
        match self.find_record(h) {
            Some(i) => {
                proof {
                    lemma_keyed_at(record_keys(self.records@), record_statuses(self.records@), self.status_map@, i as int);
                }
                Some(self.records[i].status.copy())
            },
            None => None,
        }
    }

    proof fn lemma_put_bounds(&self, k: Seq<u8>, t: StatusModel)
        requires
            self.wf(),
        ensures
            tally_le(tally_zero(), tally_after_put(self.tally(), self@.statuses, k, t)),
            tally_le(tally_after_put(self.tally(), self@.statuses, k, t), tally_add(self.tally(), tally_one(t))),
            tally_le(tally_zero(), self.tally()),
    {
        let keys = record_keys(self.records@);
        let vals = record_statuses(self.records@);
        lemma_tally_nonneg(vals);
        if self.status_map@.contains_key(k) {
            let i = choose|i: int| 0 <= i < keys.len() && keys[i] == k;
            lemma_keyed_at(keys, vals, self.status_map@, i);
            lemma_tally_remove(vals, i);
            lemma_tally_nonneg(vals.remove(i));
        }
    }

    /// Stores `t` as the status of `h`, replacing any earlier one.
    fn put_status(&mut self, h: TxHash, t: TxStatus)
        requires
            old(self).wf(),
            status_encodable(t@),
            tally_fits(tally_after_put(old(self).tally(), old(self)@.statuses, h@, t@)),
        ensures
            final(self).wf(),
            final(self)@ == (StoreModel { statuses: old(self)@.statuses.insert(h@, t@), ..old(self)@ }),
            final(self).tally() == tally_after_put(old(self).tally(), old(self)@.statuses, h@, t@),
    {
        let ghost tv = t@;
        let ghost keys = record_keys(self.records@);
        let ghost s0 = record_statuses(self.records@);
        match self.find_record(&h) {
            Some(i) => {
                proof {
                    lemma_keyed_at(keys, s0, self.status_map@, i as int);
                    lemma_tally_remove(s0, i as int);
                    lemma_tally_nonneg(s0.remove(i as int));
                    self.stats.lemma_fits();
                    assert(s0[i as int] == self.records@[i as int].status@);
                    lemma_tally_update(s0, i as int, tv);
                    lemma_keyed_update(keys, s0, self.status_map@, i as int, tv);
                }
                let old_status = self.records[i].status.copy();
                self.stats.remove_tx(&old_status);
                self.stats.load_tx(&t);
                self.records.set(i, StatusRecord { hash: h, status: t });
                self.status_map = Ghost(self.status_map@.insert(h@, tv));
                assert(record_statuses(self.records@) =~= s0.update(i as int, tv));
                assert(record_keys(self.records@) =~= keys);
            },
            None => {
                proof {
                    lemma_tally_push(s0, tv);
                    lemma_keyed_push(keys, s0, self.status_map@, h@, tv);
                }
                self.stats.load_tx(&t);
                self.records.push(StatusRecord { hash: h, status: t });
                self.status_map = Ghost(self.status_map@.insert(h@, tv));
                assert(record_statuses(self.records@) =~= s0.push(tv));
                assert(record_keys(self.records@) =~= keys.push(h@));
            },
        }
    }

    /// Removes the status of `h`, if any.
    fn delete_status(&mut self, h: &TxHash)
        requires
            old(self).wf(),
        ensures
            final(self).wf(),
            final(self)@ == (StoreModel { statuses: old(self)@.statuses.remove(h@), ..old(self)@ }),
            old(self)@.statuses.contains_key(h@) ==> final(self).tally() == tally_sub(
                old(self).tally(),
                tally_one(old(self)@.statuses[h@]),
            ),
            !old(self)@.statuses.contains_key(h@) ==> final(self).tally() == old(self).tally(),
    {
        let ghost keys = record_keys(self.records@);
        let ghost s0 = record_statuses(self.records@);
        match self.find_record(h) {
            Some(i) => {
                proof {
                    lemma_keyed_at(keys, s0, self.status_map@, i as int);
                    lemma_tally_remove(s0, i as int);
                    lemma_tally_nonneg(s0.remove(i as int));
                    self.stats.lemma_fits();
                    assert(s0[i as int] == self.records@[i as int].status@);
                    lemma_keyed_remove(keys, s0, self.status_map@, i as int);
                }
                let old_status = self.records[i].status.copy();
                self.stats.remove_tx(&old_status);
                self.records.remove(i);
                self.status_map = Ghost(self.status_map@.remove(h@));
                assert(record_statuses(self.records@) =~= s0.remove(i as int));
                assert(record_keys(self.records@) =~= keys.remove(i as int));
            },
            None => {
                assert(self.status_map@.remove(h@) =~= self.status_map@);
            },
        }
    }
}


pub open spec fn tally_le(a: Tally, b: Tally) -> bool {
    a.pending <= b.pending && a.committed <= b.committed && a.failed <= b.failed && a.live <= b.live
}

/// The statuses that a sequence of persisted entries decodes to, each entry
/// put in turn; `None` when one of them does not decode.
pub open spec fn decoded_entries(es: Seq<(TxHash, Vec<u8>)>) -> Option<Map<Seq<u8>, StatusModel>>
    decreases es.len(),
{
    if es.len() == 0 {
        Some(Map::empty())
    } else {
        match (decoded_entries(es.drop_last()), decode_status(es.last().1@)) {
            (Some(m), Some(t)) => Some(m.insert(es.last().0@, t)),
            _ => None,
        }
    }
}

/// The live cells of persisted entries, each decoded.
pub open spec fn entries_live_total(es: Seq<(TxHash, Vec<u8>)>) -> int
    decreases es.len(),
{
    if es.len() == 0 {
        0
    } else {
        entries_live_total(es.drop_last()) + match decode_status(es.last().1@) {
            Some(t) => status_live_count(t) as int,
            None => 0,
        }
    }
}

fn copy_u64s(v: &Vec<u64>) -> (r: Vec<u64>)
    ensures
        r@ == v@,
{
    let mut r: Vec<u64> = Vec::new();
    let mut i: usize = 0;
    while i < v.len()
        invariant
            i <= v@.len(),
            r@ == v@.subrange(0, i as int),
        decreases v@.len() - i,
    {
        r.push(v[i]);
        i += 1;
    }
    assert(r@ =~= v@);
    r
}

impl StatusStore {
    fn find_body(&self, h: &TxHash) -> (r: Option<usize>)
        requires
            self.wf(),
        ensures
            r matches Some(i) ==> i < self.bodies@.len() && self.bodies@[i as int].hash@ == h@
                && self@.bodies.contains_key(h@) && self@.bodies[h@]
                == self.bodies@[i as int].output_capacities@,
            r is None ==> !self@.bodies.contains_key(h@),
    {
        let ghost keys = body_keys(self.bodies@);
        let ghost vals = body_vals(self.bodies@);
        let mut i: usize = 0;
        while i < self.bodies.len()
            invariant
                i <= self.bodies@.len(),
                keys == body_keys(self.bodies@),
                vals == body_vals(self.bodies@),
                keyed_ok(keys, vals, self.body_map@),
                forall|j: int| 0 <= j < i ==> self.bodies@[j].hash@ != h@,
            decreases self.bodies@.len() - i,
        {
            if hash_eq(&self.bodies[i].hash, h) {
                proof {
                    lemma_keyed_at(keys, vals, self.body_map@, i as int);
                }
                return Some(i);
            }
            i += 1;
        }
        proof {
            lemma_keyed_absent(keys, vals, self.body_map@, h@);
        }
        None
    }

    /// The output capacities of the body of `h`, if stored.
    pub fn get_transaction(&self, h: &TxHash) -> (r: Option<Vec<u64>>)
        requires
            self.wf(),
        ensures
            r is Some <==> self@.bodies.contains_key(h@),
            r matches Some(c) ==> c@ == self@.bodies[h@],
    {
        match self.find_body(h) {
            Some(i) => Some(copy_u64s(&self.bodies[i].output_capacities)),
            None => None,
        }
    }

    fn put_body(&mut self, body: TxBody)
        requires
            old(self).wf(),
        ensures
            final(self).wf(),
            final(self).tally() == old(self).tally(),
            final(self)@ == (StoreModel {
                bodies: old(self)@.bodies.insert(body.hash@, body.output_capacities@),
                ..old(self)@
            }),
    {
        let ghost keys = body_keys(self.bodies@);
        let ghost vals = body_vals(self.bodies@);
        let ghost k = body.hash@;
        let ghost v = body.output_capacities@;
        match self.find_body(&body.hash) {
            Some(i) => {
                proof {
                    lemma_keyed_update(keys, vals, self.body_map@, i as int, v);
                }
                self.bodies.set(i, body);
                self.body_map = Ghost(self.body_map@.insert(k, v));
                assert(body_keys(self.bodies@) =~= keys);
                assert(body_vals(self.bodies@) =~= vals.update(i as int, v));
            },
            None => {
                proof {
                    lemma_keyed_push(keys, vals, self.body_map@, k, v);
                }
                self.bodies.push(body);
                self.body_map = Ghost(self.body_map@.insert(k, v));
                assert(body_keys(self.bodies@) =~= keys.push(k));
                assert(body_vals(self.bodies@) =~= vals.push(v));
            },
        }
    }

    fn delete_body(&mut self, h: &TxHash)
        requires
            old(self).wf(),
        ensures
            final(self).wf(),
            final(self).tally() == old(self).tally(),
            final(self)@ == (StoreModel { bodies: old(self)@.bodies.remove(h@), ..old(self)@ }),
    {
        let ghost keys = body_keys(self.bodies@);
        let ghost vals = body_vals(self.bodies@);
        match self.find_body(h) {
            Some(i) => {
                proof {
                    lemma_keyed_remove(keys, vals, self.body_map@, i as int);
                }
                self.bodies.remove(i);
                self.body_map = Ghost(self.body_map@.remove(h@));
                assert(body_keys(self.bodies@) =~= keys.remove(i as int));
                assert(body_vals(self.bodies@) =~= vals.remove(i as int));
            },
            None => {
                assert(self.body_map@.remove(h@) =~= self.body_map@);
            },
        }
    }

    fn find_marker(&self, h: &TxHash) -> (r: Option<usize>)
        requires
            self.wf(),
        ensures
            r matches Some(i) ==> i < self.failed_pending@.len() && self.failed_pending@[i as int]@
                == h@ && self@.failed_pending.contains(h@),
            r is None ==> !self@.failed_pending.contains(h@),
    {
        let ghost keys = marker_keys(self.failed_pending@);
        let ghost vals = marker_vals(self.failed_pending@);
        let mut i: usize = 0;
        while i < self.failed_pending.len()
            invariant
                i <= self.failed_pending@.len(),
                keys == marker_keys(self.failed_pending@),
                vals == marker_vals(self.failed_pending@),
                keyed_ok(keys, vals, self.marker_map@),
                forall|j: int| 0 <= j < i ==> self.failed_pending@[j]@ != h@,
            decreases self.failed_pending@.len() - i,
        {
            if hash_eq(&self.failed_pending[i], h) {
                proof {
                    lemma_keyed_at(keys, vals, self.marker_map@, i as int);
                }
                return Some(i);
            }
            i += 1;
        }
        proof {
            lemma_keyed_absent(keys, vals, self.marker_map@, h@);
        }
        None
    }

    fn put_marker(&mut self, h: TxHash)
        requires
            old(self).wf(),
        ensures
            final(self).wf(),
            final(self).tally() == old(self).tally(),
            final(self)@ == (StoreModel {
                failed_pending: old(self)@.failed_pending.insert(h@),
                ..old(self)@
            }),
    {
        let ghost keys = marker_keys(self.failed_pending@);
        let ghost vals = marker_vals(self.failed_pending@);
        match self.find_marker(&h) {
            Some(_) => {
                assert(self.marker_map@.dom().insert(h@) =~= self.marker_map@.dom());
            },
            None => {
                proof {
                    lemma_keyed_push(keys, vals, self.marker_map@, h@, ());
                }
                self.failed_pending.push(h);
                self.marker_map = Ghost(self.marker_map@.insert(h@, ()));
                assert(marker_keys(self.failed_pending@) =~= keys.push(h@));
                assert(marker_vals(self.failed_pending@) =~= vals.push(()));
                assert(self.marker_map@.dom() =~= old(self).marker_map@.dom().insert(h@));
            },
        }
    }

    fn delete_marker(&mut self, h: &TxHash)
        requires
            old(self).wf(),
        ensures
            final(self).wf(),
            final(self).tally() == old(self).tally(),
            final(self)@ == (StoreModel {
                failed_pending: old(self)@.failed_pending.remove(h@),
                ..old(self)@
            }),
    {
        let ghost keys = marker_keys(self.failed_pending@);
        let ghost vals = marker_vals(self.failed_pending@);
        match self.find_marker(h) {
            Some(i) => {
                proof {
                    lemma_keyed_remove(keys, vals, self.marker_map@, i as int);
                }
                self.failed_pending.remove(i);
                self.marker_map = Ghost(self.marker_map@.remove(h@));
                assert(marker_keys(self.failed_pending@) =~= keys.remove(i as int));
                assert(marker_vals(self.failed_pending@) =~= vals.remove(i as int));
                assert(self.marker_map@.dom() =~= old(self).marker_map@.dom().remove(h@));
            },
            None => {
                assert(self.marker_map@.dom().remove(h@) =~= self.marker_map@.dom());
            },
        }
    }
}

impl StatusStore {
    /// The stored status at or after `start` in id order, wrapping round to
    /// the smallest id when none is at or after it; an error when the store
    /// holds no status.
    pub fn next_status_from(&self, start: &TxHash) -> (r: Result<(TxHash, TxStatus), StoreError>)
        requires
            self.wf(),
        ensures
            r is Err <==> forall|q: Seq<u8>| !self@.statuses.contains_key(q),
            r matches Err(e) ==> e == StoreError::Empty,
            r matches Ok((k, t)) ==> {
                &&& self@.statuses.contains_key(k@)
                &&& t@ == self@.statuses[k@]
                &&& (exists|q: Seq<u8>| self@.statuses.contains_key(q) && hash_le(start@, q)) ==> {
                    &&& hash_le(start@, k@)
                    &&& forall|q: Seq<u8>|
                        self@.statuses.contains_key(q) && hash_le(start@, q) ==> hash_le(k@, q)
                }
                &&& !(exists|q: Seq<u8>| self@.statuses.contains_key(q) && hash_le(start@, q))
                    ==> forall|q: Seq<u8>| self@.statuses.contains_key(q) ==> hash_le(k@, q)
            },
    {
        let ghost keys = record_keys(self.records@);
        let ghost vals = record_statuses(self.records@);
        let n = self.records.len();
        if n == 0 {
            assert forall|q: Seq<u8>| !self@.statuses.contains_key(q) by {
                if self.status_map@.contains_key(q) {
                    let i = choose|i: int| 0 <= i < keys.len() && keys[i] == q;
                }
            }
            return Err(StoreError::Empty);
        }
        let mut best_ge: Option<usize> = None;
        let mut best_any: usize = 0;
        let mut i: usize = 0;
        while i < n
            invariant
                n == self.records@.len(),
                n > 0,
                i <= n,
                keys == record_keys(self.records@),
                best_any < n,
                i > 0 ==> best_any < i,
                forall|j: int| 0 <= j < i ==> hash_le(keys[best_any as int], keys[j]),
                best_ge matches Some(b) ==> b < i && hash_le(start@, keys[b as int]) && forall|j: int|
                    0 <= j < i && hash_le(start@, keys[j]) ==> hash_le(keys[b as int], keys[j]),
                best_ge is None ==> forall|j: int| 0 <= j < i ==> !hash_le(start@, keys[j]),
            decreases n - i,
        {
            let key = &self.records[i].hash;
            assert(key@ == keys[i as int]);
            let c = compare_hash(key, start);
            if c >= 0 {
                match best_ge {
                    None => {
                        best_ge = Some(i);
                    },
                    Some(b) => {
                        if compare_hash(key, &self.records[b].hash) < 0 {
                            proof {
                                assert forall|j: int|
                                    0 <= j < i && hash_le(start@, keys[j]) implies hash_le(
                                    keys[i as int],
                                    keys[j],
                                ) by {
                                    if keys[b as int] != keys[j] {
                                        lemma_hash_lt_transitive(keys[i as int], keys[b as int], keys[j]);
                                    }
                                }
                            }
                            best_ge = Some(i);
                        }
                    },
                }
            }
            if i == 0 {
                best_any = 0;
            } else if compare_hash(key, &self.records[best_any].hash) < 0 {
                proof {
                    assert forall|j: int| 0 <= j < i implies hash_le(keys[i as int], keys[j]) by {
                        if keys[best_any as int] != keys[j] {
                            lemma_hash_lt_transitive(keys[i as int], keys[best_any as int], keys[j]);
                        }
                    }
                }
                best_any = i;
            }
            i += 1;
        }
        let idx = match best_ge {
            Some(b) => b,
            None => best_any,
        };
        proof {
            lemma_keyed_at(keys, vals, self.status_map@, idx as int);
            assert(self@.statuses.contains_key(keys[idx as int]));
        }
        Ok((self.records[idx].hash, self.records[idx].status.copy()))
    }

    /// Every stored status with its encoding, as persisted.
    pub fn encoded_records(&self) -> (r: Vec<(TxHash, Vec<u8>)>)
        requires
            self.wf(),
        ensures
            forall|i: int| 0 <= i < r@.len() ==> #[trigger] self@.statuses.contains_key(r@[i].0@)
                && r@[i].1@ == encode_status(self@.statuses[r@[i].0@]),
            forall|q: Seq<u8>| #[trigger] self@.statuses.contains_key(q) ==> exists|i: int|
                0 <= i < r@.len() && r@[i].0@ == q,
            forall|i: int, j: int| 0 <= i < j < r@.len() ==> r@[i].0@ != r@[j].0@,
            entries_live_total(r@) == self.tally().live,
            decoded_entries(r@) == Some(self@.statuses),
    {
        let ghost keys = record_keys(self.records@);
        let ghost vals = record_statuses(self.records@);
        let mut out: Vec<(TxHash, Vec<u8>)> = Vec::new();
        let mut i: usize = 0;
        while i < self.records.len()
            invariant
                self.wf(),
                i <= self.records@.len(),
                keys == record_keys(self.records@),
                vals == record_statuses(self.records@),
                out@.len() == i,
                forall|j: int| 0 <= j < i ==> (#[trigger] out@[j]).0@ == keys[j] && out@[j].1@
                    == encode_status(vals[j]),
                entries_live_total(out@) == tally_all(vals.subrange(0, i as int)).live,
                decoded_entries(out@) == Some(
                    Map::new(
                        |q: Seq<u8>| exists|j: int| 0 <= j < i && keys[j] == q,
                        |q: Seq<u8>| self.status_map@[q],
                    ),
                ),
            decreases self.records@.len() - i,
        {
            let rec = &self.records[i];
            assert(status_encodable(rec.status@));
            let bytes = rec.status.to_vec();
            let ghost before = out@;
            out.push((rec.hash, bytes));
            proof {
                lemma_decode_encode_status(vals[i as int]);
                assert(out@.drop_last() =~= before);
                assert(vals.subrange(0, i + 1).drop_last() =~= vals.subrange(0, i as int));
                lemma_keyed_at(keys, vals, self.status_map@, i as int);
                assert(Map::new(
                    |q: Seq<u8>| exists|j: int| 0 <= j < i + 1 && keys[j] == q,
                    |q: Seq<u8>| self.status_map@[q],
                ) =~= Map::new(
                    |q: Seq<u8>| exists|j: int| 0 <= j < i && keys[j] == q,
                    |q: Seq<u8>| self.status_map@[q],
                ).insert(keys[i as int], vals[i as int])) by {
                    assert(keys[i as int] == keys[i as int]);
                }
            }
            i += 1;
        }
        proof {
            assert(vals.subrange(0, i as int) =~= vals);
            assert forall|j: int| 0 <= j < out@.len() implies #[trigger] self@.statuses.contains_key(
                out@[j].0@,
            ) && out@[j].1@ == encode_status(self@.statuses[out@[j].0@]) by {
                lemma_keyed_at(keys, vals, self.status_map@, j);
            }
            assert forall|q: Seq<u8>| #[trigger] self@.statuses.contains_key(q) implies exists|j: int|
                0 <= j < out@.len() && out@[j].0@ == q by {
                let j = choose|j: int| 0 <= j < keys.len() && keys[j] == q;
                assert(out@[j].0@ == q);
            }
            assert forall|a: int, b: int| 0 <= a < b < out@.len() implies out@[a].0@ != out@[b].0@ by {
                assert(out@[a].0@ == keys[a] && out@[b].0@ == keys[b]);
            }
            assert(Map::new(
                |q: Seq<u8>| exists|j: int| 0 <= j < i && keys[j] == q,
                |q: Seq<u8>| self.status_map@[q],
            ) =~= self.status_map@);
        }
        out
    }
}

proof fn lemma_updates_tally_push(ups: Seq<(Seq<u8>, StatusModel)>, i: int)
    requires
        0 <= i < ups.len(),
    ensures
        updates_tally(ups.subrange(0, i + 1)) == tally_add(
            updates_tally(ups.subrange(0, i)),
            tally_one(ups[i].1),
        ),
        apply_updates(Map::empty(), Seq::empty()) == Map::<Seq<u8>, StatusModel>::empty(),
{
    assert(ups.subrange(0, i + 1).drop_last() =~= ups.subrange(0, i));
}

proof fn lemma_updates_tally_nonneg(ups: Seq<(Seq<u8>, StatusModel)>)
    ensures
        tally_le(tally_zero(), updates_tally(ups)),
    decreases ups.len(),
{
    if ups.len() > 0 {
        lemma_updates_tally_nonneg(ups.drop_last());
    }
}

proof fn lemma_updates_tally_prefix(ups: Seq<(Seq<u8>, StatusModel)>, i: int)
    requires
        0 <= i <= ups.len(),
    ensures
        tally_le(updates_tally(ups.subrange(0, i)), updates_tally(ups)),
    decreases ups.len() - i,
{
    if i < ups.len() {
        lemma_updates_tally_push(ups, i);
        lemma_updates_tally_prefix(ups, i + 1);
    } else {
        assert(ups.subrange(0, i) =~= ups);
    }
}

impl StatusStore {
    /// Records a transaction body with its status, then puts each update in
    /// turn (the revised statuses of the transactions it spends from).
    pub fn submit(&mut self, body: TxBody, tx_status: TxStatus, updates: Vec<(TxHash, TxStatus)>)
        requires
            old(self).wf(),
            status_encodable(tx_status@),
            forall|i: int| 0 <= i < updates@.len() ==> status_encodable(#[trigger] updates@[i].1@),
            tally_fits(
                tally_add(
                    tally_add(old(self).tally(), tally_one(tx_status@)),
                    updates_tally(updates_view(updates@)),
                ),
            ),
        ensures
            final(self).wf(),
            final(self)@ == (StoreModel {
                statuses: apply_updates(
                    old(self)@.statuses.insert(body.hash@, tx_status@),
                    updates_view(updates@),
                ),
                bodies: old(self)@.bodies.insert(body.hash@, body.output_capacities@),
                failed_pending: old(self)@.failed_pending,
            }),
    {
        let ghost ups = updates_view(updates@);
        let ghost t0 = old(self).tally();
        let ghost bound = tally_add(tally_add(t0, tally_one(tx_status@)), updates_tally(ups));
        let h = body.hash;
        let ghost bv = body.output_capacities@;
        proof {
            lemma_updates_tally_nonneg(ups);
            self.lemma_put_bounds(h@, tx_status@);
        }
        self.put_body(body);
        self.put_status(h, tx_status);
        let ghost base = self@.statuses;
        let mut i: usize = 0;
        while i < updates.len()
            invariant
                self.wf(),
                i <= updates@.len(),
                ups == updates_view(updates@),
                forall|j: int| 0 <= j < updates@.len() ==> status_encodable(#[trigger] updates@[j].1@),
                tally_fits(bound),
                bound == tally_add(tally_add(t0, tally_one(tx_status@)), updates_tally(ups)),
                tally_le(self.tally(), tally_add(tally_add(t0, tally_one(tx_status@)), updates_tally(ups.subrange(0, i as int)))),
                self@.statuses == apply_updates(base, ups.subrange(0, i as int)),
                self@.bodies == old(self)@.bodies.insert(h@, bv),
                self@.failed_pending == old(self)@.failed_pending,
            decreases updates@.len() - i,
        {
            let k = updates[i].0;
            let t = updates[i].1.copy();
            proof {
                lemma_updates_tally_push(ups, i as int);
                lemma_updates_tally_prefix(ups, i as int + 1);
                self.lemma_put_bounds(k@, t@);
                assert(ups[i as int] == (k@, t@));
                assert(tally_le(
                    tally_add(self.tally(), tally_one(t@)),
                    tally_add(tally_add(t0, tally_one(tx_status@)), updates_tally(ups.subrange(0, i + 1))),
                ));

                assert(ups.subrange(0, i + 1).drop_last() =~= ups.subrange(0, i as int));
            }
            self.put_status(k, t);
            i += 1;
        }
        assert(ups.subrange(0, i as int) =~= ups);
    }

    /// Records a transaction that the ledger refused: `Failed`, no updates.
    pub fn submit_invalid(&mut self, body: TxBody)
        requires
            old(self).wf(),
            tally_fits(tally_add(old(self).tally(), tally_one(StatusModel::Failed))),
        ensures
            final(self).wf(),
            final(self)@ == (StoreModel {
                statuses: old(self)@.statuses.insert(body.hash@, StatusModel::Failed),
                bodies: old(self)@.bodies.insert(body.hash@, body.output_capacities@),
                failed_pending: old(self)@.failed_pending,
            }),
    {
        let h = body.hash;
        self.put_body(body);
        proof {
            self.lemma_put_bounds(h@, StatusModel::Failed);
        }
        self.put_status(h, TxStatus::Failed);
    }

    /// Forgets a transaction that turned out invalid. When it was last known
    /// as `Pending`, remembers it as failed while pending, so that a later
    /// confirmation of it is accepted.
    pub fn reconcile_invalid(&mut self, h: &TxHash, known: &TxStatus)
        requires
            old(self).wf(),
        ensures
            final(self).wf(),
            final(self)@ == (StoreModel {
                statuses: old(self)@.statuses.remove(h@),
                bodies: old(self)@.bodies.remove(h@),
                failed_pending: if known@ is Pending {
                    old(self)@.failed_pending.insert(h@)
                } else {
                    old(self)@.failed_pending
                },
            }),
            final(self).tally() == if old(self)@.statuses.contains_key(h@) {
                tally_sub(old(self).tally(), tally_one(old(self)@.statuses[h@]))
            } else {
                old(self).tally()
            },
    {
        match known {
            TxStatus::Pending(_) => {
                self.put_marker(*h);
            },
            _ => {},
        }
        self.delete_body(h);
        self.delete_status(h);
    }

    /// Confirms a block: its first transaction is the reward, the others must
    /// each be pending here, or known to have failed while pending.
    pub fn confirm_block(&mut self, txs: &Vec<(TxHash, usize)>) -> (r: Result<(), StoreError>)
        requires
            old(self).wf(),
            old(self).tally().committed + txs@.len() <= usize::MAX,
            txs@.len() > 0 ==> old(self).tally().live + txs@[0].1 <= usize::MAX,
            txs@.len() > 0 ==> txs@[0].1 <= u32::MAX,
        ensures
            final(self).wf(),
            r is Ok <==> confirm_block_model(old(self)@, txs@) is Ok,
            r is Ok ==> confirm_block_model(old(self)@, txs@) == Ok::<StoreModel, StoreError>(final(self)@),
            r matches Err(e) ==> confirm_block_model(old(self)@, txs@) == Err::<StoreModel, StoreError>(e),
            r is Ok && txs@.len() > 0 ==> final(self).tally().live == if txs@[0].1 > 0 {
                tally_after_put(
                    old(self).tally(),
                    old(self)@.statuses,
                    txs@[0].0@,
                    StatusModel::Committed(all_live(txs@[0].1 as nat)),
                ).live
            } else {
                old(self).tally().live
            },
    {
        if txs.len() == 0 {
            return Ok(());
        }
        let ghost t0 = self.tally();
        let (h0, n0) = txs[0];
        if n0 > 0 {
            let st = TxStatus::new_committed(n0);
            assert(st@ == StatusModel::Committed(all_live(n0 as nat)));
            proof {
                self.lemma_put_bounds(h0@, st@);
                self.stats.lemma_fits();
                crate::status::lemma_live_count_all_live(n0 as nat);
            }
            self.put_status(h0, st);
        }
        assert(self@ == confirm_reward(old(self)@, h0@, n0));
        let ghost live_after_reward = self.tally().live;
        let mut i: usize = 1;
        while i < txs.len()
            invariant
                self.wf(),
                self.tally().live == live_after_reward,
                1 <= i <= txs@.len(),
                self.tally().committed <= t0.committed + i,
                t0.committed + txs@.len() <= usize::MAX,
                confirm_block_model(old(self)@, txs@) == confirm_rest(self@, txs@, i as int),
            decreases txs@.len() - i,
        {
            let h = txs[i].0;
            let ghost m = self@;
            self.delete_body(&h);
            match self.get_status(&h) {
                Some(TxStatus::Failed) => {
                    return Err(StoreError::ConfirmedFailed(h));
                },
                Some(TxStatus::Committed(_)) => {
                    return Err(StoreError::ConfirmedTwice(h));
                },
                Some(TxStatus::Pending(inner)) => {
                    proof {
                        self.lemma_put_bounds(h@, StatusModel::Committed(inner@));
                        self.stats.lemma_fits();
                    }
                    self.put_status(h, TxStatus::Committed(inner));
                    assert(self@ == confirm_tx(m, h@).unwrap());
                },
                None => {
                    if self.find_marker(&h).is_some() {
                        self.delete_marker(&h);
                        assert(self@ == confirm_tx(m, h@).unwrap());
                    } else {
                        return Err(StoreError::ConfirmedUnknown(h));
                    }
                },
            }
            i += 1;
        }
        Ok(())
    }
}

/// The bodies after putting each in turn.
pub open spec fn bodies_map(bs: Seq<TxBody>) -> Map<Seq<u8>, Seq<u64>>
    decreases bs.len(),
{
    if bs.len() == 0 {
        Map::empty()
    } else {
        bodies_map(bs.drop_last()).insert(bs.last().hash@, bs.last().output_capacities@)
    }
}

pub open spec fn markers_set(ms: Seq<TxHash>) -> Set<Seq<u8>>
    decreases ms.len(),
{
    if ms.len() == 0 {
        Set::empty()
    } else {
        markers_set(ms.drop_last()).insert(ms.last()@)
    }
}

impl StatusStore {
    /// Rebuilds a store from persisted status records (each put in turn),
    /// bodies and failed-while-pending markers, recounting the counters.
    pub fn load(entries: &Vec<(TxHash, Vec<u8>)>, bodies: Vec<TxBody>, markers: &Vec<TxHash>) -> (r: Result<
        StatusStore,
        StoreError,
    >)
        ensures
            decoded_entries(entries@) is None ==> r is Err,
            r matches Err(e) ==> (e is Corrupt ==> decoded_entries(entries@) is None),
            r matches Err(e) ==> e is Corrupt || e is CounterOverflow,
            r matches Ok(s) ==> s.wf() && Some(s@.statuses) == decoded_entries(entries@) && s@.bodies == bodies_map(bodies@)
                && s@.failed_pending == markers_set(markers@),
    {
        let mut s = StatusStore::new();
        let mut i: usize = 0;
        while i < entries.len()
            invariant
                s.wf(),
                i <= entries@.len(),
                decoded_entries(entries@.subrange(0, i as int)) == Some(s@.statuses),
                s@.bodies == Map::<Seq<u8>, Seq<u64>>::empty(),
                s@.failed_pending == Set::<Seq<u8>>::empty(),
            decreases entries@.len() - i,
        {
            assert(entries@.subrange(0, i + 1).drop_last() =~= entries@.subrange(0, i as int));
            let t = match TxStatus::from_slice(entries[i].1.as_slice()) {
                Ok(t) => t,
                Err(e) => {
                    proof {
                        lemma_decoded_entries_none_extends(entries@, i as int + 1);
                    }
                    return Err(StoreError::Corrupt(e));
                },
            };
            proof {
                lemma_decoded_encodable(entries@[i as int].1@);
                s.lemma_put_bounds(entries@[i as int].0@, t@);
                s.stats.lemma_fits();
            }
            let n = match &t {
                TxStatus::Pending(o) | TxStatus::Committed(o) => count_live(o.statuses.as_slice()),
                TxStatus::Failed => 0,
            };
            let st = s.stats();
            if st.tx_pending_cnt() == usize::MAX || st.tx_committed_cnt() == usize::MAX || st.tx_failed_cnt() == usize::MAX
                || st.cell_live_cnt() > usize::MAX - n {
                return Err(StoreError::CounterOverflow);
            }
            s.put_status(entries[i].0, t);
            i += 1;
        }
        assert(entries@.subrange(0, i as int) =~= entries@);
        let mut bodies = bodies;
        let ghost bs = bodies@;
        let n_bodies = bodies.len();
        let mut k: usize = 0;
        while k < n_bodies
            invariant
                s.wf(),
                k <= n_bodies,
                n_bodies == bs.len(),
                bodies@ == bs.subrange(k as int, n_bodies as int),
                Some(s@.statuses) == decoded_entries(entries@),
                s@.bodies == bodies_map(bs.subrange(0, k as int)),
                s@.failed_pending == Set::<Seq<u8>>::empty(),
            decreases n_bodies - k,
        {
            assert(bs.subrange(0, k + 1).drop_last() =~= bs.subrange(0, k as int));
            assert(bs.subrange(k + 1, n_bodies as int) =~= bodies@.remove(0));
            let b = bodies.remove(0);
            s.put_body(b);
            k += 1;
        }
        assert(bs.subrange(0, k as int) =~= bs);
        let mut j: usize = 0;
        assert(markers_set(markers@.subrange(0, 0)) =~= Set::<Seq<u8>>::empty());
        while j < markers.len()
            invariant
                s.wf(),
                j <= markers@.len(),
                Some(s@.statuses) == decoded_entries(entries@),
                s@.bodies == bodies_map(bs),
                s@.failed_pending == markers_set(markers@.subrange(0, j as int)),
            decreases markers@.len() - j,
        {
            s.put_marker(markers[j]);
            assert(markers@.subrange(0, j + 1).drop_last() =~= markers@.subrange(0, j as int));
            j += 1;
        }
        assert(markers@.subrange(0, j as int) =~= markers@);
        Ok(s)
    }
}

proof fn lemma_decoded_entries_none_extends(es: Seq<(TxHash, Vec<u8>)>, k: int)
    requires
        0 <= k <= es.len(),
        decoded_entries(es.subrange(0, k)) is None,
    ensures
        decoded_entries(es) is None,
    decreases es.len() - k,
{
    if k < es.len() {
        assert(es.subrange(0, k + 1).drop_last() =~= es.subrange(0, k));
        lemma_decoded_entries_none_extends(es, k + 1);
    } else {
        assert(es.subrange(0, k) =~= es);
    }
}

proof fn lemma_decoded_encodable(bytes: Seq<u8>)
    ensures
        decode_status(bytes) matches Some(t) ==> status_encodable(t),
{
}

/// Adds the live cells of the status of `k` in `m`.
pub open spec fn live_adder(m: Map<Seq<u8>, StatusModel>) -> spec_fn(int, Seq<u8>) -> int {
    |acc: int, k: Seq<u8>| acc + status_live_count(m[k]) as int
}

/// The live cells over all statuses of `m`.
pub open spec fn live_total(m: Map<Seq<u8>, StatusModel>) -> int {
    m.dom().fold(0int, live_adder(m))
}

/// The first `i` keys, as a set.
pub open spec fn prefix_set(keys: Seq<Seq<u8>>, i: int) -> Set<Seq<u8>> {
    Set::new(|k: Seq<u8>| exists|j: int| 0 <= j < i && keys[j] == k)
}

proof fn lemma_live_adder_commutative(m: Map<Seq<u8>, StatusModel>)
    ensures
        vstd::set::fold::is_fun_commutative(live_adder(m)),
{
    let f = live_adder(m);
    assert forall|a1: Seq<u8>, a2: Seq<u8>, b: int| #[trigger] f(f(b, a2), a1) == f(f(b, a1), a2) by {}
}

proof fn lemma_prefix_fold(keys: Seq<Seq<u8>>, vals: Seq<StatusModel>, m: Map<Seq<u8>, StatusModel>, i: int)
    requires
        keyed_ok(keys, vals, m),
        0 <= i <= keys.len(),
    ensures
        prefix_set(keys, i).finite(),
        prefix_set(keys, i).fold(0int, live_adder(m)) == tally_all(vals.subrange(0, i)).live,
    decreases i,
{
    let f = live_adder(m);
    if i == 0 {
        assert(prefix_set(keys, 0) =~= Set::<Seq<u8>>::empty());
        vstd::set::fold::lemma_fold_empty(0int, f);
        assert(vals.subrange(0, 0) =~= Seq::<StatusModel>::empty());
    } else {
        lemma_prefix_fold(keys, vals, m, i - 1);
        let s = prefix_set(keys, i - 1);
        let k = keys[i - 1];
        assert(prefix_set(keys, i) =~= s.insert(k)) by {
            assert forall|q: Seq<u8>| prefix_set(keys, i).contains(q) implies s.insert(k).contains(q) by {
                let j = choose|j: int| 0 <= j < i && keys[j] == q;
                if j < i - 1 {
                    assert(s.contains(q));
                }
            }
            assert forall|q: Seq<u8>| s.insert(k).contains(q) implies prefix_set(keys, i).contains(q) by {
                if q != k {
                    let j = choose|j: int| 0 <= j < i - 1 && keys[j] == q;
                    assert(0 <= j < i && keys[j] == q);
                } else {
                    assert(keys[i - 1] == q);
                }
            }
        }
        assert(!s.contains(k)) by {
            if s.contains(k) {
                let j = choose|j: int| 0 <= j < i - 1 && keys[j] == k;
                assert(keys[j] != keys[i - 1]);
            }
        }
        lemma_live_adder_commutative(m);
        vstd::set::fold::lemma_fold_insert(s, 0int, f, k);
        lemma_keyed_at(keys, vals, m, i - 1);
        assert(vals.subrange(0, i).drop_last() =~= vals.subrange(0, i - 1));
        assert(vals.subrange(0, i).last() == vals[i - 1]);
    }
}

impl StatusStore {
    /// The live-cell count always equals a recount of the live cells of every
    /// stored status.
    pub proof fn lemma_live_count_is_recount(&self)
        requires
            self.wf(),
        ensures
            self.tally().live == live_total(self@.statuses),
    {
        let keys = record_keys(self.records@);
        let vals = record_statuses(self.records@);
        let m = self.status_map@;
        lemma_prefix_fold(keys, vals, m, keys.len() as int);
        assert(vals.subrange(0, keys.len() as int) =~= vals);
        assert(prefix_set(keys, keys.len() as int) =~= m.dom()) by {
            assert forall|q: Seq<u8>| #[trigger] m.dom().contains(q) implies prefix_set(keys, keys.len() as int).contains(q) by {
                let j = choose|j: int| 0 <= j < keys.len() && keys[j] == q;
            }
            assert forall|q: Seq<u8>| prefix_set(keys, keys.len() as int).contains(q) implies #[trigger] m.dom().contains(q) by {
                let j = choose|j: int| 0 <= j < keys.len() && keys[j] == q;
                lemma_keyed_at(keys, vals, m, j);
            }
        }
    }
}

/// `h` is committed, or neither stored nor marked: confirming it now fails.
pub open spec fn settled(m: StoreModel, h: Seq<u8>) -> bool {
    ||| m.statuses.contains_key(h) && m.statuses[h] is Committed
    ||| !m.statuses.contains_key(h) && !m.failed_pending.contains(h)
}

proof fn lemma_confirm_tx_settles(m: StoreModel, h: Seq<u8>)
    requires
        confirm_tx(m, h) is Some,
    ensures
        settled(confirm_tx(m, h)->Some_0, h),
{
}

proof fn lemma_confirm_tx_keeps_settled(m: StoreModel, x: Seq<u8>, h: Seq<u8>)
    requires
        settled(m, h),
        confirm_tx(m, x) is Some,
    ensures
        settled(confirm_tx(m, x)->Some_0, h),
{
}

proof fn lemma_reward_keeps_settled(m: StoreModel, r: Seq<u8>, n: usize, h: Seq<u8>)
    requires
        settled(m, h),
    ensures
        settled(confirm_reward(m, r, n), h),
{
}

proof fn lemma_rest_keeps_settled(m: StoreModel, txs: Seq<(TxHash, usize)>, k: int, h: Seq<u8>)
    requires
        settled(m, h),
        confirm_rest(m, txs, k) is Ok,
    ensures
        settled(confirm_rest(m, txs, k)->Ok_0, h),
    decreases txs.len() - k,
{
    if 0 <= k < txs.len() {
        lemma_confirm_tx_keeps_settled(m, txs[k].0@, h);
        lemma_rest_keeps_settled(confirm_tx(m, txs[k].0@)->Some_0, txs, k + 1, h);
    }
}

proof fn lemma_rest_settles(m: StoreModel, txs: Seq<(TxHash, usize)>, k: int, i: int)
    requires
        0 <= k <= i < txs.len(),
        confirm_rest(m, txs, k) is Ok,
    ensures
        settled(confirm_rest(m, txs, k)->Ok_0, txs[i].0@),
    decreases txs.len() - k,
{
    let m2 = confirm_tx(m, txs[k].0@)->Some_0;
    if k == i {
        lemma_confirm_tx_settles(m, txs[k].0@);
        lemma_rest_keeps_settled(m2, txs, k + 1, txs[i].0@);
    } else {
        lemma_rest_settles(m2, txs, k + 1, i);
    }
}

proof fn lemma_settled_rest_fails(m: StoreModel, txs: Seq<(TxHash, usize)>, k: int, j: int)
    requires
        0 <= k <= j < txs.len(),
        settled(m, txs[j].0@),
    ensures
        confirm_rest(m, txs, k) is Err,
    decreases txs.len() - k,
{
    if k < j {
        if confirm_tx(m, txs[k].0@) is Some {
            lemma_confirm_tx_keeps_settled(m, txs[k].0@, txs[j].0@);
            lemma_settled_rest_fails(confirm_tx(m, txs[k].0@)->Some_0, txs, k + 1, j);
        }
    }
}

/// A non-reward transaction confirmed by one block fails to confirm again in
/// any later block, wherever it stands there and whatever else that block
/// holds.
pub proof fn lemma_confirm_twice_fails(m: StoreModel, b1: Seq<(TxHash, usize)>, i: int, b2: Seq<(TxHash, usize)>, j: int)
    requires
        1 <= i < b1.len(),
        1 <= j < b2.len(),
        b1[i].0@ == b2[j].0@,
        confirm_block_model(m, b1) is Ok,
    ensures
        confirm_block_model(confirm_block_model(m, b1)->Ok_0, b2) is Err,
{
    let h = b1[i].0@;
    let m0 = confirm_reward(m, b1[0].0@, b1[0].1);
    lemma_rest_settles(m0, b1, 1, i);
    let m1 = confirm_block_model(m, b1)->Ok_0;
    lemma_reward_keeps_settled(m1, b2[0].0@, b2[0].1, h);
    lemma_settled_rest_fails(confirm_reward(m1, b2[0].0@, b2[0].1), b2, 1, j);
}

} // verus!
