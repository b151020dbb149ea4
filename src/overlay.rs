//! The round overlay: transactions generated in this round, not yet recorded
//! in the store, looked up through before the store.
use vstd::prelude::*;

use indexmap::IndexMap;

use crate::hash::{compare_hash, hash_eq, hash_le, hash_lt, lemma_hash_lt_irreflexive, lemma_hash_lt_transitive, TxHash};
use crate::policy::RandomSource;
use crate::status::{StatusModel, TxOutputsStatus, TxStatus};
use crate::store::{StatusStore, StoreError};
use crate::tx::TxSummary;

verus! {

#[verifier::external_type_specification]
#[verifier::external_body]
#[verifier::reject_recursive_types(K)]
#[verifier::reject_recursive_types(V)]
#[verifier::reject_recursive_types(S)]
pub struct ExIndexMap<K, V, S>(IndexMap<K, V, S>);

/// The entries of an index map, in insertion order.
pub uninterp spec fn index_entries(m: IndexMap<TxHash, usize>) -> Seq<(TxHash, usize)>;

/// Relies on `IndexMap::new`: an empty map.
#[verifier::external_body]
fn index_new() -> (r: IndexMap<TxHash, usize>)
    ensures
        index_entries(r) == Seq::<(TxHash, usize)>::empty(),
{
    IndexMap::new()
}

/// Relies on `IndexMap::insert`: a new key goes last; an existing key keeps
/// its place and gets the new value, and the old value is returned.
#[verifier::external_body]
fn index_insert(m: &mut IndexMap<TxHash, usize>, k: TxHash, v: usize) -> (r: Option<usize>)
    ensures
        (forall|i: int| 0 <= i < index_entries(*old(m)).len() ==> index_entries(*old(m))[i].0@ != k@)
            ==> index_entries(*final(m)) == index_entries(*old(m)).push((k, v)) && r is None,
        forall|i: int|
            0 <= i < index_entries(*old(m)).len() && index_entries(*old(m))[i].0@ == k@
                ==> index_entries(*final(m)) == index_entries(*old(m)).update(i, (index_entries(*old(m))[i].0, v))
                && r == Some(index_entries(*old(m))[i].1),
{
    m.insert(k, v)
}

/// Relies on `IndexMap::get`: the value of the key, if present.
#[verifier::external_body]
fn index_get(m: &IndexMap<TxHash, usize>, k: &TxHash) -> (r: Option<usize>)
    ensures
        r matches Some(v) ==> exists|i: int|
            0 <= i < index_entries(*m).len() && index_entries(*m)[i].0@ == k@ && index_entries(*m)[i].1 == v,
        r is None ==> forall|i: int| 0 <= i < index_entries(*m).len() ==> index_entries(*m)[i].0@ != k@,
{
    m.get(k).copied()
}

/// What a generated transaction changes once it is recorded.
pub enum TxOverlayChanges {
    /// Expected to be accepted: its outputs, and the revised statuses of the
    /// transactions it spends from.
    Pending { new: TxOutputsStatus, updates: Vec<(TxHash, TxStatus)> },
    /// Expected to be committed at once.
    Committed { new: TxOutputsStatus, updates: Vec<(TxHash, TxStatus)> },
    /// Expected to be refused: the transactions it drew from that are already
    /// invalid.
    Failed { updates: Vec<(TxHash, TxStatus)> },
}

/// A generated transaction with its expected changes.
pub struct TxOverlay {
    pub view: ckb_types::core::TransactionView,
    pub summary: TxSummary,
    pub changes: TxOverlayChanges,
}

/// Why the overlay refused an operation.
#[derive(Debug, Clone, Copy, PartialEq, Eq)]
pub enum OverlayError {
    /// The transaction is already in the overlay.
    Duplicate(TxHash),
    /// Neither the overlay nor the store knows the transaction.
    Unknown(TxHash),
}

pub open spec fn updates_model(ups: Seq<(TxHash, TxStatus)>) -> Seq<(Seq<u8>, StatusModel)> {
    Seq::new(ups.len(), |i: int| (ups[i].0@, ups[i].1@))
}

/// The first update of `h`, if any.
pub open spec fn find_update(ups: Seq<(Seq<u8>, StatusModel)>, h: Seq<u8>) -> Option<StatusModel>
    decreases ups.len(),
{
    if ups.len() == 0 {
        None
    } else if ups[0].0 == h {
        Some(ups[0].1)
    } else {
        find_update(ups.drop_first(), h)
    }
}

pub open spec fn entry_hash(e: TxOverlay) -> Seq<u8> {
    e.summary.hash@
}

pub open spec fn entry_failed(e: TxOverlay) -> bool {
    e.changes is Failed
}

/// The status the transaction itself will have.
pub open spec fn entry_status(e: TxOverlay) -> StatusModel {
    match e.changes {
        TxOverlayChanges::Pending { new, .. } => StatusModel::Pending(new@),
        TxOverlayChanges::Committed { new, .. } => StatusModel::Committed(new@),
        TxOverlayChanges::Failed { .. } => StatusModel::Failed,
    }
}

pub open spec fn entry_updates(e: TxOverlay) -> Seq<(Seq<u8>, StatusModel)> {
    match e.changes {
        TxOverlayChanges::Pending { updates, .. } => updates_model(updates@),
        TxOverlayChanges::Committed { updates, .. } => updates_model(updates@),
        TxOverlayChanges::Failed { updates } => updates_model(updates@),
    }
}

/// The revision of `h` by the entry, if it is one that will be accepted.
pub open spec fn entry_revision(e: TxOverlay, h: Seq<u8>) -> Option<StatusModel> {
    if entry_failed(e) {
        None
    } else {
        find_update(entry_updates(e), h)
    }
}

/// The status of `h` as seen through the entries `es`, most recent first:
/// the latest revision wins, then the entry of `h` itself, then the store.
pub open spec fn overlay_status(es: Seq<TxOverlay>, store: Map<Seq<u8>, StatusModel>, h: Seq<u8>) -> Option<
    StatusModel,
>
    decreases es.len(),
{
    if es.len() == 0 {
        if store.contains_key(h) {
            Some(store[h])
        } else {
            None
        }
    } else if entry_revision(es.last(), h) is Some {
        entry_revision(es.last(), h)
    } else if entry_hash(es.last()) == h {
        Some(entry_status(es.last()))
    } else {
        overlay_status(es.drop_last(), store, h)
    }
}

/// `base` revised by the latest revision of `h` among `es`.
pub open spec fn revised(es: Seq<TxOverlay>, base: StatusModel, h: Seq<u8>) -> StatusModel
    decreases es.len(),
{
    if es.len() == 0 {
        base
    } else if entry_revision(es.last(), h) is Some {
        entry_revision(es.last(), h).unwrap()
    } else {
        revised(es.drop_last(), base, h)
    }
}

/// Some entry of `es` that is expected to fail marks `h` for removal.
pub open spec fn failed_reference(es: Seq<TxOverlay>, h: Seq<u8>) -> bool {
    exists|i: int|
        0 <= i < es.len() && entry_failed(#[trigger] es[i]) && find_update(entry_updates(es[i]), h) is Some
}

/// `t` is what a random pick of `h` may report: the status of an entry of `h`
/// or of the stored record of `h`, revised by the later entries, none of
/// which is expected to fail and marks `h` for removal.
pub open spec fn visible_status(es: Seq<TxOverlay>, store: Map<Seq<u8>, StatusModel>, h: Seq<u8>, t: StatusModel) -> bool {
    ||| exists|i: int|
        0 <= i < es.len() && entry_hash(#[trigger] es[i]) == h && !failed_reference(es.subrange(i + 1, es.len() as int), h)
            && t == revised(es.subrange(i + 1, es.len() as int), entry_status(es[i]), h)
    ||| store.contains_key(h) && !failed_reference(es, h) && t == revised(es, store[h], h)
}

/// The output capacities of `h`: from its entry, else from the store.
pub open spec fn local_caps(es: Seq<TxOverlay>, bodies: Map<Seq<u8>, Seq<u64>>, h: Seq<u8>) -> Option<Seq<u64>> {
    if exists|i: int| 0 <= i < es.len() && entry_hash(es[i]) == h {
        Some(es[choose|i: int| 0 <= i < es.len() && entry_hash(es[i]) == h].summary.output_capacities@)
    } else if bodies.contains_key(h) {
        Some(bodies[h])
    } else {
        None
    }
}

/// Cells that the entries take out of circulation: inputs and outputs of each
/// entry not expected to fail.
pub open spec fn consumed_cells(es: Seq<TxOverlay>) -> int
    decreases es.len(),
{
    if es.len() == 0 {
        0
    } else {
        consumed_cells(es.drop_last()) + if entry_failed(es.last()) {
            0
        } else {
            es.last().summary.inputs@.len() + es.last().summary.output_capacities@.len()
        }
    }
}

fn copy_updates(ups: &Vec<(TxHash, TxStatus)>) -> (r: Vec<(TxHash, TxStatus)>)
    ensures
        updates_model(r@) == updates_model(ups@),
{
    let mut r: Vec<(TxHash, TxStatus)> = Vec::new();
    let mut i: usize = 0;
    while i < ups.len()
        invariant
            i <= ups@.len(),
            r@.len() == i,
            forall|j: int| 0 <= j < i ==> (#[trigger] r@[j]).0@ == ups@[j].0@ && r@[j].1@ == ups@[j].1@,
        decreases ups@.len() - i,
    {
        let t = ups[i].1.copy();
        r.push((ups[i].0, t));
        i += 1;
    }
    assert(updates_model(r@) =~= updates_model(ups@));
    r
}

/// The first update of `h` in `ups`.
pub fn get_update(ups: &Vec<(TxHash, TxStatus)>, h: &TxHash) -> (r: Option<TxStatus>)
    ensures
        r matches Some(t) ==> find_update(updates_model(ups@), h@) == Some(t@),
        r is None <==> find_update(updates_model(ups@), h@) is None,
{
    let mut i: usize = 0;
    assert(updates_model(ups@).subrange(0, ups@.len() as int) =~= updates_model(ups@));
    while i < ups.len()
        invariant
            i <= ups@.len(),
            find_update(updates_model(ups@), h@) == find_update(updates_model(ups@).subrange(i as int, ups@.len() as int), h@),
        decreases ups@.len() - i,
    {
        let ghost rest = updates_model(ups@).subrange(i as int, ups@.len() as int);
        assert(rest.drop_first() =~= updates_model(ups@).subrange(i + 1, ups@.len() as int));
        if hash_eq(&ups[i].0, h) {
            return Some(ups[i].1.copy());
        }
        i += 1;
    }
    None
}

impl TxOverlayChanges {
    pub fn is_failed(&self) -> (r: bool)
        ensures
            r == (self is Failed),
    {
        match self {
            TxOverlayChanges::Failed { .. } => true,
            _ => false,
        }
    }
}

impl TxOverlay {
    pub fn new(view: ckb_types::core::TransactionView, summary: TxSummary, changes: TxOverlayChanges) -> (r: Self)
        ensures
            r.view == view,
            r.summary == summary,
            r.changes == changes,
    {
        TxOverlay { view, summary, changes }
    }

    pub fn is_failed(&self) -> (r: bool)
        ensures
            r == entry_failed(*self),
    {
        self.changes.is_failed()
    }

    pub fn view(&self) -> (r: &ckb_types::core::TransactionView)
        ensures
            *r == self.view,
    {
        &self.view
    }

    /// The status the transaction itself will have.
    pub fn status(&self) -> (r: TxStatus)
        ensures
            r@ == entry_status(*self),
    {
        match &self.changes {
            TxOverlayChanges::Pending { new, .. } => TxStatus::Pending(new.copy()),
            TxOverlayChanges::Committed { new, .. } => TxStatus::Committed(new.copy()),
            TxOverlayChanges::Failed { .. } => TxStatus::Failed,
        }
    }

    /// Its own status and updates when expected to be accepted; the updates
    /// alone when expected to fail.
    pub fn changes(&self) -> (r: Result<(TxStatus, Vec<(TxHash, TxStatus)>), Vec<(TxHash, TxStatus)>>)
        ensures
            r is Err <==> entry_failed(*self),
            r matches Ok((t, u)) ==> t@ == entry_status(*self) && updates_model(u@) == entry_updates(*self),
            r matches Err(u) ==> updates_model(u@) == entry_updates(*self),
    {
        match &self.changes {
            TxOverlayChanges::Pending { new, updates } => Ok((TxStatus::Pending(new.copy()), copy_updates(updates))),
            TxOverlayChanges::Committed { new, updates } => Ok((TxStatus::Committed(new.copy()), copy_updates(updates))),
            TxOverlayChanges::Failed { updates } => Err(copy_updates(updates)),
        }
    }

    /// The revision of `h` by this entry, if it is expected to be accepted.
    fn revision(&self, h: &TxHash) -> (r: Option<TxStatus>)
        ensures
            r matches Some(t) ==> entry_revision(*self, h@) == Some(t@),
            r is None <==> entry_revision(*self, h@) is None,
    {
        match &self.changes {
            TxOverlayChanges::Pending { updates, .. } => get_update(updates, h),
            TxOverlayChanges::Committed { updates, .. } => get_update(updates, h),
            TxOverlayChanges::Failed { .. } => None,
        }
    }

    /// This entry is expected to fail and marks `h` for removal.
    fn marks_failed(&self, h: &TxHash) -> (r: bool)
        ensures
            r == (entry_failed(*self) && find_update(entry_updates(*self), h@) is Some),
    {
        match &self.changes {
            TxOverlayChanges::Failed { updates } => get_update(updates, h).is_some(),
            _ => false,
        }
    }
}

/// The transactions generated in one round, over the store.
pub struct Overlay<'a> {
    storage: &'a StatusStore,
    entries: Vec<TxOverlay>,
    index: IndexMap<TxHash, usize>,
}

impl<'a> Overlay<'a> {
    pub closed spec fn wf(&self) -> bool {
        &&& self.storage.wf()
        &&& index_entries(self.index).len() == self.entries@.len()
        &&& forall|i: int|
            0 <= i < self.entries@.len() ==> (#[trigger] index_entries(self.index)[i]).0@ == entry_hash(
                self.entries@[i],
            ) && index_entries(self.index)[i].1 == i
        &&& forall|i: int, j: int|
            0 <= i < j < self.entries@.len() ==> entry_hash(self.entries@[i]) != entry_hash(
                self.entries@[j],
            )
    }

    /// The entries, in the order they were added.
    pub closed spec fn entries(&self) -> Seq<TxOverlay> {
        self.entries@
    }

    /// The store under the overlay.
    pub closed spec fn store(&self) -> &'a StatusStore {
        self.storage
    }

    /// An empty overlay over `storage`.
    pub fn new(storage: &'a StatusStore) -> (r: Self)
        requires
            storage.wf(),
        ensures
            r.wf(),
            r.entries() == Seq::<TxOverlay>::empty(),
            r.store() == storage,
    {
        Overlay { storage, entries: Vec::new(), index: index_new() }
    }

    /// The entries, in the order they were added; the overlay ends here.
    pub fn into_entries(self) -> (r: Vec<TxOverlay>)
        ensures
            r@ == self.entries(),
    {
        self.entries
    }

    /// Appends a generated transaction; refused when its id is already here.
    pub fn add_tx(&mut self, tx: TxOverlay) -> (r: Result<(), OverlayError>)
        requires
            old(self).wf(),
        ensures
            final(self).wf(),
            final(self).store() == old(self).store(),
            r is Err <==> exists|i: int|
                0 <= i < old(self).entries().len() && entry_hash(old(self).entries()[i]) == tx.summary.hash@,
            r is Ok ==> final(self).entries() == old(self).entries().push(tx),
            r is Err ==> final(self).entries() == old(self).entries(),
    {
        let h = tx.summary.hash;
        if let Some(i) = index_get(&self.index, &h) {
            proof {
                let j = choose|j: int|
                    0 <= j < index_entries(self.index).len() && index_entries(self.index)[j].0@ == h@
                        && index_entries(self.index)[j].1 == i;
                assert(entry_hash(self.entries@[j]) == h@);
                assert(entry_hash(old(self).entries()[j]) == tx.summary.hash@);
            }
            return Err(OverlayError::Duplicate(h));
        }
        let n = self.entries.len();
        proof {
            assert forall|j: int| 0 <= j < n implies entry_hash(self.entries@[j]) != h@ by {
                assert(index_entries(self.index)[j].0@ == entry_hash(self.entries@[j]));
            }
        }
        let ghost before = index_entries(self.index);
        self.entries.push(tx);
        let _ = index_insert(&mut self.index, h, n);
        proof {
            assert(index_entries(self.index) == before.push((h, n)));
            assert forall|i: int|
                0 <= i < self.entries@.len() implies (#[trigger] index_entries(self.index)[i]).0@
                == entry_hash(self.entries@[i]) && index_entries(self.index)[i].1 == i by {
                if i < n {
                    assert(index_entries(self.index)[i] == before[i]);
                }
            }
        }
        Ok(())
    }

    /// True when the overlay holds a transaction with this id.
    pub fn has_tx(&self, h: &TxHash) -> (r: bool)
        requires
            self.wf(),
        ensures
            r == exists|i: int| 0 <= i < self.entries().len() && entry_hash(self.entries()[i]) == h@,
    {
        match index_get(&self.index, h) {
            Some(i) => {
                proof {
                    let j = choose|j: int|
                        0 <= j < index_entries(self.index).len() && index_entries(self.index)[j].0@ == h@
                            && index_entries(self.index)[j].1 == i;
                    assert(index_entries(self.index)[j].0@ == entry_hash(self.entries@[j]));
                    assert(entry_hash(self.entries()[j]) == h@);
                }
                true
            },
            None => {
                proof {
                    assert forall|j: int| 0 <= j < self.entries@.len() implies entry_hash(self.entries@[j]) != h@ by {
                        assert(index_entries(self.index)[j].0@ == entry_hash(self.entries@[j]));
                    }
                }
                false
            },
        }
    }

    /// Position of the entry with this id.
    fn position(&self, h: &TxHash) -> (r: Option<usize>)
        requires
            self.wf(),
        ensures
            r matches Some(i) ==> i < self.entries@.len() && entry_hash(self.entries@[i as int]) == h@,
            r is None ==> forall|j: int| 0 <= j < self.entries@.len() ==> entry_hash(self.entries@[j]) != h@,
    {
        match index_get(&self.index, h) {
            Some(i) => {
                proof {
                    let j = choose|j: int|
                        0 <= j < index_entries(self.index).len() && index_entries(self.index)[j].0@ == h@
                            && index_entries(self.index)[j].1 == i;
                    assert(index_entries(self.index)[j].1 == j);
                }
                Some(i)
            },
            None => {
                proof {
                    assert forall|j: int| 0 <= j < self.entries@.len() implies entry_hash(self.entries@[j]) != h@ by {
                        assert(index_entries(self.index)[j].0@ == entry_hash(self.entries@[j]));
                    }
                }
                None
            },
        }
    }

    /// Live cells of the store, less the inputs and outputs of every entry not
    /// expected to fail; zero when those are more.
    pub fn live_cells_count(&self) -> (r: usize)
        requires
            self.wf(),
        ensures
            r == if self.store().tally().live >= consumed_cells(self.entries()) {
                self.store().tally().live - consumed_cells(self.entries())
            } else {
                0
            },
    {
        let total = self.storage.live_cell_count();
        let mut cnt: usize = total;
        let mut i: usize = 0;
        while i < self.entries.len()
            invariant
                i <= self.entries@.len(),
                total == self.storage.tally().live,
                consumed_cells(self.entries@.subrange(0, i as int)) >= 0,
                cnt == if total >= consumed_cells(self.entries@.subrange(0, i as int)) {
                    total - consumed_cells(self.entries@.subrange(0, i as int))
                } else {
                    0
                },
            decreases self.entries@.len() - i,
        {
            assert(self.entries@.subrange(0, i + 1).drop_last() =~= self.entries@.subrange(0, i as int));
            let e = &self.entries[i];
            if !e.is_failed() {
                cnt = cnt.saturating_sub(e.summary.inputs.len());
                cnt = cnt.saturating_sub(e.summary.output_capacities.len());
            }
            i += 1;
        }
        assert(self.entries@.subrange(0, i as int) =~= self.entries@);
        cnt
    }

    /// The output capacities of `h`: from the overlay, else from the store.
    pub fn get_tx(&self, h: &TxHash) -> (r: Option<Vec<u64>>)
        requires
            self.wf(),
        ensures
            r matches Some(c) ==> local_caps(self.entries(), self.store()@.bodies, h@) == Some(c@),
            r is None <==> local_caps(self.entries(), self.store()@.bodies, h@) is None,
    {
        match self.position(h) {
            Some(i) => {
                proof {
                    assert(entry_hash(self.entries()[i as int]) == h@);
                    let j = choose|j: int| 0 <= j < self.entries().len() && entry_hash(self.entries()[j]) == h@;
                    if j < i {
                        assert(entry_hash(self.entries@[j]) != entry_hash(self.entries@[i as int]));
                    } else if i < j {
                        assert(entry_hash(self.entries@[i as int]) != entry_hash(self.entries@[j]));
                    }
                }
                let caps = &self.entries[i].summary.output_capacities;
                let mut out: Vec<u64> = Vec::new();
                let mut j: usize = 0;
                while j < caps.len()
                    invariant
                        j <= caps@.len(),
                        out@ == caps@.subrange(0, j as int),
                    decreases caps@.len() - j,
                {
                    out.push(caps[j]);
                    j += 1;
                }
                assert(out@ =~= caps@);
                Some(out)
            },
            None => self.storage.get_transaction(h),
        }
    }

    /// The status of `h`: the latest revision among the entries, else the
    /// entry of `h` itself, else the store.
    pub fn get_tx_status(&self, h: &TxHash) -> (r: Result<TxStatus, OverlayError>)
        requires
            self.wf(),
        ensures
            r matches Ok(t) ==> overlay_status(self.entries(), self.store()@.statuses, h@) == Some(t@),
            r is Err <==> overlay_status(self.entries(), self.store()@.statuses, h@) is None,
            r matches Err(e) ==> e == OverlayError::Unknown(*h),
    {
        let mut i: usize = self.entries.len();
        assert(self.entries@.subrange(0, i as int) =~= self.entries@);
        while i > 0
            invariant
                i <= self.entries@.len(),
                overlay_status(self.entries@, self.storage@.statuses, h@) == overlay_status(
                    self.entries@.subrange(0, i as int),
                    self.storage@.statuses,
                    h@,
                ),
            decreases i,
        {
            let ghost es = self.entries@.subrange(0, i as int);
            assert(es.drop_last() =~= self.entries@.subrange(0, i - 1));
            let e = &self.entries[i - 1];
            if let Some(t) = e.revision(h) {
                return Ok(t);
            }
            if hash_eq(&e.summary.hash, h) {
                return Ok(e.status());
            }
            i -= 1;
        }
        match self.storage.get_status(h) {
            Some(t) => Ok(t),
            None => Err(OverlayError::Unknown(*h)),
        }
    }
}

/// Entry `i` has the smallest id of all entries, and it sorts before `h0`.
pub open spec fn min_entry_below(es: Seq<TxOverlay>, h0: Seq<u8>, i: int) -> bool {
    &&& 0 <= i < es.len()
    &&& hash_lt(entry_hash(es[i]), h0)
    &&& forall|j: int| 0 <= j < es.len() ==> hash_le(entry_hash(es[i]), #[trigger] entry_hash(es[j]))
}

/// The scan over the entries ended on `since` (an entry, or the stored pick
/// `h0`), with pick `h`, its status `base`, and the revisions starting at
/// `skipped`.
pub open spec fn pick_found(
    es: Seq<TxOverlay>,
    h0: Seq<u8>,
    t0: StatusModel,
    since: Option<usize>,
    h: Seq<u8>,
    base: StatusModel,
    skipped: int,
) -> bool {
    match since {
        Some(k) => skipped == k + 1 && min_entry_below(es, h0, k as int) && h == entry_hash(es[k as int]) && base
            == entry_status(es[k as int]),
        None => skipped == 0 && h == h0 && base == t0 && !(exists|j: int|
            0 <= j < es.len() && hash_lt(#[trigger] entry_hash(es[j]), h0)),
    }
}

proof fn lemma_new_smallest(es: Seq<TxOverlay>, h: Seq<u8>, h0: Seq<u8>, i: int)
    requires
        0 <= i < es.len(),
        hash_lt(entry_hash(es[i]), h),
        hash_le(h, h0),
        forall|j: int| 0 <= j < i ==> hash_le(h, #[trigger] entry_hash(es[j])),
    ensures
        hash_lt(entry_hash(es[i]), h0),
        forall|j: int| 0 <= j < i + 1 ==> hash_le(entry_hash(es[i]), #[trigger] entry_hash(es[j])),
{
    let e = entry_hash(es[i]);
    if h != h0 {
        lemma_hash_lt_transitive(e, h, h0);
    }
    assert forall|j: int| 0 <= j < i + 1 implies hash_le(e, #[trigger] entry_hash(es[j])) by {
        if j < i && h != entry_hash(es[j]) {
            lemma_hash_lt_transitive(e, h, entry_hash(es[j]));
        }
    }
}

/// Some entry of `es` is expected to fail and carries updates.
pub open spec fn some_failed_with_updates(es: Seq<TxOverlay>) -> bool {
    exists|i: int| 0 <= i < es.len() && entry_failed(#[trigger] es[i]) && entry_updates(es[i]).len() > 0
}

proof fn lemma_failed_reference_has_updates(es: Seq<TxOverlay>, h: Seq<u8>)
    requires
        failed_reference(es, h),
    ensures
        some_failed_with_updates(es),
{
    let i = choose|i: int| 0 <= i < es.len() && entry_failed(#[trigger] es[i]) && find_update(entry_updates(es[i]), h) is Some;
    assert(entry_updates(es[i]).len() > 0);
}

impl<'a> Overlay<'a> {
    /// Resolves one random attempt, given the store's status `(h0, t0)` at or
    /// after the sampled point. The pick is the entry with the smallest id when
    /// that id sorts before `h0`, else `h0`; its status is revised by the later
    /// entries. `None` when a later entry expected to fail marks the pick.
    #[verifier::rlimit(40)]
    pub fn resolve_pick(&self, h0: TxHash, t0: TxStatus) -> (r: Option<(TxHash, TxStatus)>)
        requires
            self.wf(),
        ensures
            ({
                let es = self.entries();
                &&& (exists|j: int| 0 <= j < es.len() && hash_lt(#[trigger] entry_hash(es[j]), h0@)) ==> exists|i: int| {
                    let tail = es.subrange(i + 1, es.len() as int);
                    &&& #[trigger] min_entry_below(es, h0@, i)
                    &&& (r is None <==> failed_reference(tail, entry_hash(es[i])))
                    &&& (r matches Some((h, t)) ==> h@ == entry_hash(es[i]) && t@ == revised(tail, entry_status(es[i]), h@))
                }
                &&& !(exists|j: int| 0 <= j < es.len() && hash_lt(#[trigger] entry_hash(es[j]), h0@)) ==> {
                    &&& (r is None <==> failed_reference(es, h0@))
                    &&& (r matches Some((h, t)) ==> h == h0 && t@ == revised(es, t0@, h0@))
                }
            }),
    {
        let n = self.entries.len();
        let mut h = h0;
        let mut st = t0;
        let mut since: Option<usize> = None;
        let mut i: usize = 0;
        while i < n
            invariant
                self.wf(),
                n == self.entries@.len(),
                i <= n,
                hash_le(h@, h0@),
                forall|j: int| 0 <= j < i ==> hash_le(h@, #[trigger] entry_hash(self.entries@[j])),
                since is None ==> h == h0 && st@ == t0@,
                since matches Some(k) ==> k < i && entry_hash(self.entries@[k as int]) == h@ && st@
                    == entry_status(self.entries@[k as int]) && hash_lt(h@, h0@),
            decreases n - i,
        {
            let c = compare_hash(&self.entries[i].summary.hash, &h);
            if c < 0 {
                proof {
                    lemma_new_smallest(self.entries@, h@, h0@, i as int);
                }
                since = Some(i);
                h = self.entries[i].summary.hash;
                st = self.entries[i].status();
            }
            i += 1;
        }
        proof {
            if since is None {
                assert forall|j: int| 0 <= j < n implies !hash_lt(#[trigger] entry_hash(self.entries@[j]), h0@) by {
                    if hash_lt(entry_hash(self.entries@[j]), h0@) {
                        lemma_hash_lt_irreflexive(entry_hash(self.entries@[j]), h0@);
                    }
                }
            }
        }
        let skipped: usize = match since {
            Some(k) => k + 1,
            None => 0,
        };
        let ghost base = st@;
        assert(pick_found(self.entries@, h0@, t0@, since, h@, base, skipped as int));
        let ghost tail = self.entries@.subrange(skipped as int, n as int);
        proof {
            if since is None {
                assert(tail =~= self.entries@);
            }
        }
        let mut marked = false;
        let mut j: usize = skipped;
        while j < n
            invariant
                self.wf(),
                n == self.entries@.len(),
                skipped <= j <= n,
                tail == self.entries@.subrange(skipped as int, n as int),
                pick_found(self.entries@, h0@, t0@, since, h@, base, skipped as int),
                !marked ==> forall|m: int|
                    skipped <= m < j ==> !(entry_failed(self.entries@[m]) && find_update(entry_updates(self.entries@[m]), h@) is Some),
                marked ==> failed_reference(tail, h@),
            decreases n - j,
        {
            if !marked && self.entries[j].marks_failed(&h) {
                assert(tail[j - skipped] == self.entries@[j as int]);
                marked = true;
            }
            j += 1;
        }
        if marked {
            return None;
        }
        proof {
            assert forall|m: int| 0 <= m < tail.len() implies !(entry_failed(#[trigger] tail[m]) && find_update(
                entry_updates(tail[m]),
                h@,
            ) is Some) by {
                assert(tail[m] == self.entries@[skipped + m]);
            }
        }
        let mut k: usize = n;
        while k > skipped
            invariant
                self.wf(),
                n == self.entries@.len(),
                skipped <= k <= n,
                tail == self.entries@.subrange(skipped as int, n as int),
                pick_found(self.entries@, h0@, t0@, since, h@, base, skipped as int),
                since is None ==> tail == self.entries@,
                !failed_reference(tail, h@),
                st@ == base,
                revised(tail, base, h@) == revised(self.entries@.subrange(skipped as int, k as int), base, h@),
            decreases k,
        {
            let ghost es = self.entries@.subrange(skipped as int, k as int);
            assert(es.drop_last() =~= self.entries@.subrange(skipped as int, k - 1));
            assert(es.last() == self.entries@[k - 1]);
            if let Some(t) = self.entries[k - 1].revision(&h) {
                proof {
                    assert(revised(tail, base, h@) == t@);
                    if let Some(kk) = since {
                        assert(min_entry_below(self.entries(), h0@, kk as int));
                    }
                }
                return Some((h, t));
            }
            k -= 1;
        }
        proof {
            assert(self.entries@.subrange(skipped as int, skipped as int).len() == 0);
            if let Some(kk) = since {
                assert(min_entry_below(self.entries(), h0@, kk as int));
            }
        }
        Some((h, st))
    }

    /// Picks an existing transaction at random: a random point in id order,
    /// the stored status at or after it, resolved against the entries by
    /// `resolve_pick`. An attempt whose pick a later entry expected to fail
    /// marks for removal is dropped; after thirty attempts, `None`. Fails only
    /// when the store is empty.
    pub fn random_tx<R: RandomSource>(&self, rg: &mut R) -> (r: Result<Option<(TxHash, TxStatus)>, StoreError>)
        requires
            self.wf(),
        ensures
            r is Err <==> forall|q: Seq<u8>| !self.store()@.statuses.contains_key(q),
            r matches Err(e) ==> e == StoreError::Empty,
            r matches Ok(Some((h, t))) ==> visible_status(self.entries(), self.store()@.statuses, h@, t@),
            r matches Ok(None) ==> some_failed_with_updates(self.entries()),
    {
        let mut attempt: u32 = 0;
        while attempt < 30
            invariant
                self.wf(),
                attempt > 0 ==> exists|q: Seq<u8>| self.storage@.statuses.contains_key(q),
                attempt > 0 ==> some_failed_with_updates(self.entries@),
            decreases 30 - attempt,
        {
            let start = rg.random_hash();
            let (h0, t0) = self.storage.next_status_from(&start)?;
            let ghost es = self.entries@;
            assert(self.storage@.statuses.contains_key(h0@));
            match self.resolve_pick(h0, t0) {
                Some((h, t)) => {
                    proof {
                        assert(self.store()@.statuses.contains_key(h0@));
                        if exists|j: int| 0 <= j < es.len() && hash_lt(#[trigger] entry_hash(es[j]), h0@) {
                            let i = choose|i: int| #[trigger] min_entry_below(es, h0@, i) && (Some((h, t)) matches Some((h2, t2)) ==> h2@
                                == entry_hash(es[i]) && t2@ == revised(es.subrange(i + 1, es.len() as int), entry_status(es[i]), h2@))
                                && (false <==> failed_reference(es.subrange(i + 1, es.len() as int), entry_hash(es[i])));
                            assert(entry_hash(es[i]) == h@);
                        }
                    }
                    return Ok(Some((h, t)));
                },
                None => {
                    proof {
                        if exists|j: int| 0 <= j < es.len() && hash_lt(#[trigger] entry_hash(es[j]), h0@) {
                            let i = choose|i: int| #[trigger] min_entry_below(es, h0@, i) && (true <==> failed_reference(
                                es.subrange(i + 1, es.len() as int),
                                entry_hash(es[i]),
                            ));
                            let tail = es.subrange(i + 1, es.len() as int);
                            lemma_failed_reference_has_updates(tail, entry_hash(es[i]));
                            let m = choose|m: int| 0 <= m < tail.len() && entry_failed(#[trigger] tail[m]) && entry_updates(tail[m]).len() > 0;
                            assert(tail[m] == es[i + 1 + m]);
                        } else {
                            lemma_failed_reference_has_updates(es, h0@);
                        }
                    }
                },
            }
            attempt += 1;
        }
        proof {
            let q = choose|q: Seq<u8>| self.storage@.statuses.contains_key(q);
            assert(self.store()@.statuses.contains_key(q));
        }
        Ok(None)
    }
}

/// Of two chained entries, where the later one revises the earlier one's
/// status (it spends from it), a lookup of the earlier one finds the revision,
/// not the status the earlier one was generated with.
pub proof fn lemma_latest_revision_wins(a: TxOverlay, b: TxOverlay, store: Map<Seq<u8>, StatusModel>, t: StatusModel)
    requires
        !entry_failed(b),
        find_update(entry_updates(b), entry_hash(a)) == Some(t),
    ensures
        overlay_status(seq![a, b], store, entry_hash(a)) == Some(t),
{
    assert(seq![a, b].last() == b);
}

} // verus!
