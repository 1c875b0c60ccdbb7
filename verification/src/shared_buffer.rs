//! The batching state of the shared-buffer uploader: write batches waiting to
//! be uploaded, grouped by epoch and by table, and what a sync takes of them.
use vstd::prelude::*;
use std::collections::BTreeMap;
use vstd::std_specs::btree::{increasing_seq, spec_keys_iter};
use vstd::std_specs::iter::IteratorSpec;
use vstd::std_specs::cmp::OrdSpec;

verus! {

/// The id of a table in the storage engine.
pub type StorageTableId = u32;

/// Batches waiting to be uploaded, grouped by epoch and then by table; each
/// table's batches in the order they arrived.
pub struct BatchesToUpload<B> {
    batches: BTreeMap<u64, BTreeMap<StorageTableId, Vec<B>>>,
}

/// The batches of one epoch, by table.
pub open spec fn table_view<B>(m: BTreeMap<StorageTableId, Vec<B>>) -> Map<StorageTableId, Seq<B>> {
    m@.map_values(|v: Vec<B>| v@)
}

/// `ks` lists the members of `s` in ascending order, each once.
pub open spec fn ascending_enumeration<K>(ks: Seq<K>, s: Set<K>, lt: spec_fn(K, K) -> bool) -> bool {
    &&& ks.to_set() == s
    &&& forall|i: int, j: int| 0 <= i < j < ks.len() ==> lt(#[trigger] ks[i], #[trigger] ks[j])
}

/// Taking the tables `ids` in turn out of an epoch's batches: the batches
/// taken, one table after another (a table listed twice, or absent, gives
/// nothing), and what is left.
pub open spec fn take_tables<B>(
    tables: Map<StorageTableId, Seq<B>>,
    ids: Seq<StorageTableId>,
) -> (Seq<B>, Map<StorageTableId, Seq<B>>)
    decreases ids.len(),
{
    if ids.len() == 0 {
        (Seq::empty(), tables)
    } else {
        let (taken, rest) = take_tables(tables, ids.drop_last());
        let id = ids.last();
        if rest.contains_key(id) {
            (taken + rest[id], rest.remove(id))
        } else {
            (taken, rest)
        }
    }
}

/// The tables of `ids` that taking them in turn out of an epoch's batches
/// finds nothing for: those with no batches, and those listed again after
/// their batches were taken.
pub open spec fn tables_without_batches_spec<B>(
    tables: Map<StorageTableId, Seq<B>>,
    ids: Seq<StorageTableId>,
) -> Seq<StorageTableId>
    decreases ids.len(),
{
    if ids.len() == 0 {
        Seq::empty()
    } else {
        let prev = tables_without_batches_spec(tables, ids.drop_last());
        if take_tables(tables, ids.drop_last()).1.contains_key(ids.last()) {
            prev
        } else {
            prev.push(ids.last())
        }
    }
}

/// What is left after taking tables is the map without them.
pub proof fn lemma_take_tables_rest<B>(tables: Map<StorageTableId, Seq<B>>, ids: Seq<StorageTableId>)
    ensures
        take_tables(tables, ids).1 == tables.remove_keys(ids.to_set()),
    decreases ids.len(),
{
    if ids.len() > 0 {
        lemma_take_tables_rest(tables, ids.drop_last());
        assert(ids.to_set() =~= ids.drop_last().to_set().insert(ids.last())) by {
            assert forall|x: StorageTableId| ids.to_set().contains(x) implies ids.drop_last().to_set().insert(
                ids.last(),
            ).contains(x) by {
                let i = choose|i: int| 0 <= i < ids.len() && ids[i] == x;
                if i < ids.len() - 1 {
                    assert(ids.drop_last()[i] == x);
                }
            }
            assert forall|x: StorageTableId| ids.drop_last().to_set().insert(ids.last()).contains(x) implies ids.to_set().contains(
                x,
            ) by {
                if x != ids.last() {
                    let i = choose|i: int| 0 <= i < ids.drop_last().len() && ids.drop_last()[i] == x;
                    assert(ids[i] == x);
                } else {
                    assert(ids[ids.len() - 1] == x);
                }
            }
        }
        assert(take_tables(tables, ids).1 =~= tables.remove_keys(ids.to_set()));
    } else {
        assert(tables.remove_keys(ids.to_set()) =~= tables);
    }
}

/// The keys of a map, ascending.
fn keys_ascending<V>(m: &BTreeMap<StorageTableId, V>) -> (r: Vec<StorageTableId>)
    ensures
        ascending_enumeration(r@, m@.dom(), |a: StorageTableId, b: StorageTableId| a < b),
{
    let mut v: Vec<StorageTableId> = Vec::new();
    let ghost ks = spec_keys_iter(m).remaining();
    for k in it: m.keys()
        invariant
            it.seq() == ks,
            v@.len() == it.index(),
            forall|i: int| 0 <= i < v@.len() ==> v@[i] == *ks[i],
    {
        v.push(*k);
    }
    proof {
        let rem = ks.unref();
        assert(v@.len() == ks.len());
        assert(v@ =~= rem);
        assert(rem.to_set() == m@.dom());
        assert(increasing_seq(ks));
        assert(vstd::laws_cmp::obeys_cmp::<&StorageTableId>());
        vstd::std_specs::btree::axiom_increasing_seq_meaning(ks);
        assert forall|i: int, j: int| 0 <= i < j < ks.len() implies *ks[i] < *ks[j] by {
            assert(OrdSpec::cmp_spec(&ks[i], &ks[j]) is Less);
        }
        assert(forall|i: int, j: int| 0 <= i < j < rem.len() ==> rem[i] < rem[j]);
    }
    v
}

/// The keys of a map, ascending.
fn epochs_ascending<V>(m: &BTreeMap<u64, V>) -> (r: Vec<u64>)
    ensures
        ascending_enumeration(r@, m@.dom(), |a: u64, b: u64| a < b),
{
    let mut v: Vec<u64> = Vec::new();
    let ghost ks = spec_keys_iter(m).remaining();
    for k in it: m.keys()
        invariant
            it.seq() == ks,
            v@.len() == it.index(),
            forall|i: int| 0 <= i < v@.len() ==> v@[i] == *ks[i],
    {
        v.push(*k);
    }
    proof {
        let rem = ks.unref();
        assert(v@ =~= rem);
        assert(increasing_seq(ks));
        assert(vstd::laws_cmp::obeys_cmp::<&u64>());
        vstd::std_specs::btree::axiom_increasing_seq_meaning(ks);
        assert forall|i: int, j: int| 0 <= i < j < ks.len() implies *ks[i] < *ks[j] by {
            assert(OrdSpec::cmp_spec(&ks[i], &ks[j]) is Less);
        }
        assert(forall|i: int, j: int| 0 <= i < j < rem.len() ==> rem[i] < rem[j]);
    }
    v
}

/// The waiting batches after `batch` joined the queue of `table_id` at `epoch`.
pub open spec fn view_after_add<B>(
    v: Map<u64, Map<StorageTableId, Seq<B>>>,
    epoch: u64,
    table_id: StorageTableId,
    batch: B,
) -> Map<u64, Map<StorageTableId, Seq<B>>> {
    let tables = if v.contains_key(epoch) {
        v[epoch]
    } else {
        Map::empty()
    };
    let queued = if tables.contains_key(table_id) {
        tables[table_id]
    } else {
        Seq::empty()
    };
    v.insert(epoch, tables.insert(table_id, queued.push(batch)))
}

/// The batches waiting for `table_id` at `epoch`.
pub open spec fn queued<B>(
    v: Map<u64, Map<StorageTableId, Seq<B>>>,
    epoch: u64,
    table_id: StorageTableId,
) -> Seq<B> {
    if v.contains_key(epoch) && v[epoch].contains_key(table_id) {
        v[epoch][table_id]
    } else {
        Seq::empty()
    }
}

/// A sync of a table right after a write to it gives back the batches that
/// waited for that table, followed by the one just written.
pub proof fn lemma_add_then_sync_table<B>(
    v: Map<u64, Map<StorageTableId, Seq<B>>>,
    epoch: u64,
    table_id: StorageTableId,
    batch: B,
)
    ensures
        take_tables(view_after_add(v, epoch, table_id, batch)[epoch], seq![table_id]).0
            == queued(v, epoch, table_id).push(batch),
{
    let after = view_after_add(v, epoch, table_id, batch)[epoch];
    let ids = seq![table_id];
    assert(ids.drop_last() =~= Seq::<StorageTableId>::empty());
    assert(take_tables(after, ids.drop_last()) == (Seq::<B>::empty(), after));
    assert(after.contains_key(table_id));
    assert(after[table_id] == queued(v, epoch, table_id).push(batch));
    assert(Seq::<B>::empty() + after[table_id] =~= after[table_id]);
}

/// A reset of an epoch undoes every write to it, and touches no other epoch.
pub proof fn lemma_reset_undoes_add<B>(
    v: Map<u64, Map<StorageTableId, Seq<B>>>,
    epoch: u64,
    table_id: StorageTableId,
    batch: B,
    other: u64,
)
    requires
        other != epoch,
    ensures
        view_after_add(v, epoch, table_id, batch).remove(epoch) == v.remove(epoch),
        view_after_add(v, epoch, table_id, batch).contains_key(other) == v.contains_key(other),
        v.contains_key(other) ==> view_after_add(v, epoch, table_id, batch)[other] == v[other],
{
    assert(view_after_add(v, epoch, table_id, batch).remove(epoch) =~= v.remove(epoch));
}

impl<B> BatchesToUpload<B> {
    /// The batches waiting, by epoch and table.
    pub closed spec fn view(&self) -> Map<u64, Map<StorageTableId, Seq<B>>> {
        self.batches@.map_values(|m: BTreeMap<StorageTableId, Vec<B>>| table_view(m))
    }

    /// Nothing waits.
    pub fn new() -> (s: Self)
        ensures
            s.view() == Map::<u64, Map<StorageTableId, Seq<B>>>::empty(),
    {
        let s = BatchesToUpload { batches: BTreeMap::new() };
        assert(s.view() =~= Map::<u64, Map<StorageTableId, Seq<B>>>::empty());
        s
    }

    /// Queues `batch`, written at `epoch` to table `table_id`, after the
    /// batches already waiting for that table and epoch.
    pub fn add_batch(&mut self, epoch: u64, table_id: StorageTableId, batch: B)
        ensures
            final(self).view() == view_after_add(old(self).view(), epoch, table_id, batch),
    {
        let ghost before = self.view();
        let mut tables = match self.batches.remove(&epoch) {
            Some(t) => t,
            None => BTreeMap::new(),
        };
        let ghost tables_before = table_view(tables);
        assert(tables_before =~= if before.contains_key(epoch) {
            before[epoch]
        } else {
            Map::empty()
        });
        let mut queued = match tables.remove(&table_id) {
            Some(q) => q,
            None => Vec::new(),
        };
        queued.push(batch);
        tables.insert(table_id, queued);
        assert(table_view(tables) =~= tables_before.insert(table_id, queued@));
        self.batches.insert(epoch, tables);
        assert(self.view() =~= before.insert(epoch, table_view(tables)));
    }

    /// Drops every batch of `epoch`.
    pub fn reset(&mut self, epoch: u64)
        ensures
            final(self).view() == old(self).view().remove(epoch),
    {
        let ghost before = self.view();
        self.batches.remove(&epoch);
        assert(self.view() =~= before.remove(epoch));
    }

    /// The epochs that have batches waiting, ascending.
    pub fn epochs(&self) -> (r: Vec<u64>)
        ensures
            ascending_enumeration(r@, self.view().dom(), |a: u64, b: u64| a < b),
    {
        let r = epochs_ascending(&self.batches);
        assert(self.view().dom() =~= self.batches@.dom());
        r
    }

    /// The epochs that a sync request covers, in the order they are synced:
    /// the one asked for, or, when none is, every epoch with batches waiting,
    /// ascending.
    pub fn sync_targets(&self, epoch: Option<u64>) -> (r: Vec<u64>)
        ensures
            match epoch {
                Some(e) => r@ == seq![e],
                None => ascending_enumeration(r@, self.view().dom(), |a: u64, b: u64| a < b),
            },
    {
        match epoch {
            Some(e) => {
                let mut v: Vec<u64> = Vec::new();
                v.push(e);
                assert(v@ =~= seq![e]);
                v
            },
            None => self.epochs(),
        }
    }

    /// Takes out what a sync of `epoch` uploads: `None` when no batch of
    /// `epoch` waits.  With `table_ids`, the batches of those tables, table
    /// after table in the order given (an absent or repeated table gives
    /// nothing); the epoch stays while other tables still have batches.
    /// Without, the batches of every table of the epoch, by ascending table
    /// id, and the epoch is gone.  Other epochs are left as they were.
    pub fn take_for_sync(&mut self, epoch: u64, table_ids: Option<Vec<StorageTableId>>) -> (r: Option<
        Vec<B>,
    >)
        ensures
            !old(self).view().contains_key(epoch) ==> r is None && final(self).view() == old(self).view(),
            old(self).view().contains_key(epoch) ==> {
                let tables = old(self).view()[epoch];
                &&& r is Some
                &&& match table_ids {
                    Some(ids) => {
                        let (taken, rest) = take_tables(tables, ids@);
                        &&& r->0@ == taken
                        &&& final(self).view() == if rest.is_empty() {
                            old(self).view().remove(epoch)
                        } else {
                            old(self).view().insert(epoch, rest)
                        }
                    },
                    None => {
                        &&& exists|ks: Seq<StorageTableId>|
                            ascending_enumeration(ks, tables.dom(), |a: StorageTableId, b: StorageTableId| a < b)
                                && r->0@ == take_tables(tables, ks).0
                        &&& final(self).view() == old(self).view().remove(epoch)
                    },
                }
            },
    {
        let ghost before = self.view();
        let mut tables = match self.batches.remove(&epoch) {
            Some(t) => t,
            None => {
                assert(self.view() =~= before);
                return None;
            },
        };
        let ghost tables0 = table_view(tables);
        assert(tables0 == before[epoch]);
        assert(tables0.dom() =~= tables@.dom());
        let all_tables = table_ids.is_none();
        let ids = match table_ids {
            Some(ids) => ids,
            None => keys_ascending(&tables),
        };
        assert(table_ids matches Some(given) ==> given@ == ids@);
        assert(all_tables ==> ascending_enumeration(ids@, tables0.dom(), |a: StorageTableId, b: StorageTableId| a < b));
        let mut taken: Vec<B> = Vec::new();
        let mut i: usize = 0;
        while i < ids.len()
            invariant
                i <= ids@.len(),
                (taken@, table_view(tables)) == take_tables(tables0, ids@.take(i as int)),
            decreases ids.len() - i,
        {
            let ghost t_before = table_view(tables);
            let id = ids[i];
            match tables.remove(&id) {
                Some(mut q) => {
                    taken.append(&mut q);
                },
                None => {},
            }
            assert(ids@.take(i + 1).drop_last() =~= ids@.take(i as int));
            assert(table_view(tables) =~= if t_before.contains_key(id) {
                t_before.remove(id)
            } else {
                t_before
            });
            i = i + 1;
        }
        assert(ids@.take(i as int) =~= ids@);
        proof {
            lemma_take_tables_rest(tables0, ids@);
        }
        if all_tables {
            assert(table_view(tables) =~= Map::empty());
        }
        if tables.is_empty() {
            assert(table_view(tables) =~= Map::empty());
            assert(self.view() =~= before.remove(epoch));
        } else {
            self.batches.insert(epoch, tables);
            assert(self.view() =~= before.insert(epoch, table_view(tables)));
        }
        Some(taken)
    }
}

impl<B> BatchesToUpload<B> {
    /// The tables of `ids` that a sync of `epoch` taking them in turn finds
    /// no batches for, in the order met; none when no batch of `epoch` waits.
    pub fn tables_without_batches(&self, epoch: u64, ids: &Vec<StorageTableId>) -> (r: Vec<StorageTableId>)
        ensures
            self.view().contains_key(epoch) ==> r@ == tables_without_batches_spec(self.view()[epoch], ids@),
            !self.view().contains_key(epoch) ==> r@ == Seq::<StorageTableId>::empty(),
    {
        let tables = match self.batches.get(&epoch) {
            Some(t) => t,
            None => {
                return Vec::new();
            },
        };
        let ghost tv = table_view(*tables);
        assert(tv == self.view()[epoch]);
        let mut r: Vec<StorageTableId> = Vec::new();
        let mut i: usize = 0;
        while i < ids.len()
            invariant
                i <= ids@.len(),
                tv == table_view(*tables),
                r@ == tables_without_batches_spec(tv, ids@.take(i as int)),
            decreases ids.len() - i,
        {
            let id = ids[i];
            let mut seen = false;
            let mut j: usize = 0;
            while j < i
                invariant
                    j <= i,
                    i < ids@.len(),
                    id == ids@[i as int],
                    seen == ids@.take(j as int).contains(id),
                decreases i - j,
            {
                proof {
                    let before = ids@.take(j as int);
                    let after = ids@.take(j + 1);
                    assert(after =~= before.push(ids@[j as int]));
                    if before.contains(id) {
                        let k = choose|k: int| 0 <= k < before.len() && before[k] == id;
                        assert(after[k] == id);
                    }
                    if ids@[j as int] == id {
                        assert(after[j as int] == id);
                    }
                    if after.contains(id) && ids@[j as int] != id {
                        let k = choose|k: int| 0 <= k < after.len() && after[k] == id;
                        assert(before[k] == id);
                    }
                }
                if ids[j] == id {
                    seen = true;
                }
                j = j + 1;
            }
            let present = tables.contains_key(&id);
            proof {
                lemma_take_tables_rest(tv, ids@.take(i as int));
                assert(ids@.take(i + 1).drop_last() =~= ids@.take(i as int));
                assert(present == tv.contains_key(id));
            }
            if seen || !present {
                r.push(id);
            }
            i = i + 1;
        }
        assert(ids@.take(i as int) =~= ids@);
        r
    }
}

/// What a sync request does next.
#[derive(Debug, PartialEq, Eq)]
pub enum SyncStep {
    /// Upload the batches of this epoch.
    Upload(u64),
    /// Stop, and report the result of the last upload (success when there
    /// was none).
    Finish,
}

/// The next step of a sync request over `targets` (what `sync_targets`
/// gave), after the first `done` of them were uploaded, the last of those
/// failing when `last_failed`: stop at the first failed upload or when every
/// target is done, else upload the next target.
pub fn next_sync_step(targets: &Vec<u64>, done: usize, last_failed: bool) -> (s: SyncStep)
    requires
        done <= targets@.len(),
    ensures
        last_failed || done == targets@.len() ==> s == SyncStep::Finish,
        !(last_failed || done == targets@.len()) ==> s == SyncStep::Upload(targets@[done as int]),
{
    if last_failed || done == targets.len() {
        SyncStep::Finish
    } else {
        SyncStep::Upload(targets[done])
    }
}

} // verus!
