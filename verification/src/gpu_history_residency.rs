//! Which edits of the history have their pixels on the device.

use crate::gpu_document_history::{
    entries_bytes, entry_models, sum_bytes, EntryModel, GpuDocumentHistory, GpuHistoryDirection,
    GpuHistoryEntry, GpuHistoryEntryKind, GpuHistoryId, GpuHistoryPayload, HistoryModel,
    PayloadModel,
};
use crate::gpu_document_undo::GpuDocumentMemento;
use vstd::prelude::*;

verus! {

/// Whether the entry has pixels on the device.
pub open spec fn has_pixels(entry: EntryModel) -> bool {
    entry.kind() == GpuHistoryEntryKind::Raster && !entry.archived
}

/// The entries, with the pixels of the one named `id` given up.
pub open spec fn given_up(entries: Seq<EntryModel>, id: GpuHistoryId) -> Seq<EntryModel> {
    Seq::new(
        entries.len(),
        |i: int|
            if entries[i].id == id && has_pixels(entries[i]) {
                EntryModel { archived: true, ..entries[i] }
            } else {
                entries[i]
            },
    )
}

/// Whether the entry named `id` is among these and has pixels on the device.
pub open spec fn holds_pixels(entries: Seq<EntryModel>, id: GpuHistoryId) -> bool {
    exists|i: int| 0 <= i < entries.len() && (#[trigger] entries[i]).id == id && has_pixels(
        entries[i],
    )
}

/// The names of the entries with pixels on the device, oldest first.
pub open spec fn ids_with_pixels(entries: Seq<EntryModel>) -> Seq<GpuHistoryId>
    decreases entries.len(),
{
    if entries.len() == 0 {
        Seq::empty()
    } else if has_pixels(entries.last()) {
        ids_with_pixels(entries.drop_last()).push(entries.last().id)
    } else {
        ids_with_pixels(entries.drop_last())
    }
}

/// The entries but the `keep` that come up next.
pub open spec fn all_but_nearest(entries: Seq<EntryModel>, keep: int) -> Seq<EntryModel> {
    if keep < entries.len() {
        entries.subrange(0, entries.len() - keep)
    } else {
        Seq::empty()
    }
}

impl HistoryModel {
    /// The history once an entry has given up its pixels.
    pub open spec fn archived(self, id: GpuHistoryId) -> HistoryModel {
        HistoryModel { undo: given_up(self.undo, id), redo: given_up(self.redo, id), ..self }
    }

    /// The names of the entries that could give up their pixels, where the `keep` nearest on each
    /// side stay ready.
    pub open spec fn archivable(self, keep: int) -> Seq<GpuHistoryId> {
        ids_with_pixels(all_but_nearest(self.undo, keep)) + ids_with_pixels(
            all_but_nearest(self.redo, keep),
        )
    }

    /// How many bytes have to come back before the next step in that direction.
    pub open spec fn incoming(self, direction: GpuHistoryDirection) -> int {
        match self.top(direction) {
            Some(entry) => if entry.archived {
                entry.full_bytes()
            } else {
                0
            },
            None => 0,
        }
    }

    /// The history once the pixels for the next step in that direction have come back.
    pub open spec fn restored(self, direction: GpuHistoryDirection) -> HistoryModel {
        match self.top(direction) {
            None => self,
            Some(entry) => {
                let ready = EntryModel { archived: false, ..entry };
                match direction {
                    GpuHistoryDirection::Undo => HistoryModel {
                        undo: self.undo.drop_last().push(ready),
                        ..self
                    },
                    GpuHistoryDirection::Redo => HistoryModel {
                        redo: self.redo.drop_last().push(ready),
                        ..self
                    },
                }
            },
        }
    }
}

proof fn lemma_giving_up_frees(entries: Seq<GpuHistoryEntry>, id: GpuHistoryId)
    ensures
        0 <= entries_bytes(given_up(entry_models(entries), id)) <= entries_bytes(
            entry_models(entries),
        ),
    decreases entries.len(),
{
    if entries.len() > 0 {
        let models = entry_models(entries);
        let rest = entries.drop_last();
        lemma_giving_up_frees(rest, id);
        assert(entry_models(rest) =~= models.drop_last());
        assert(given_up(models, id).drop_last() =~= given_up(models.drop_last(), id));
        let last = entries.last();
        assert(models.last() == last@);
    }
}

fn give_up(entries: &mut Vec<GpuHistoryEntry>, id: GpuHistoryId) -> (changed: bool)
    requires
        forall|i: int| 0 <= i < old(entries)@.len() ==> (#[trigger] old(entries)@[i]).wf(),
    ensures
        entry_models(final(entries)@) == given_up(entry_models(old(entries)@), id),
        forall|i: int| 0 <= i < final(entries)@.len() ==> (#[trigger] final(entries)@[i]).wf(),
        changed == holds_pixels(entry_models(old(entries)@), id),
{
    let ghost before = entry_models(entries@);
    let mut changed = false;
    let mut i: usize = 0;
    while i < entries.len()
        invariant
            before == entry_models(old(entries)@),
            entries@.len() == before.len(),
            i <= before.len(),
            forall|k: int| 0 <= k < entries@.len() ==> (#[trigger] entries@[k]).wf(),
            forall|k: int|
                #![trigger entries@[k]]
                0 <= k < before.len() ==> entries@[k]@ == if k < i {
                    given_up(before, id)[k]
                } else {
                    before[k]
                },
            changed == exists|k: int|
                0 <= k < i && (#[trigger] before[k]).id == id && has_pixels(before[k]),
        decreases before.len() - i,
    {
        assert(entries@[i as int]@ == before[i as int]);
        if entries[i].id().get() == id.get() && entries[i].kind() == GpuHistoryEntryKind::Raster
            && !entries[i].archived {
            assert(before[i as int].id == id && has_pixels(before[i as int]));
            let ghost held = entries@;
            entries[i].archived = true;
            changed = true;
            assert(entries@ =~= held.update(i as int, entries@[i as int]));
        }
        i += 1;
    }
    assert(entry_models(entries@) =~= given_up(before, id));
    changed
}

fn list_with_pixels(entries: &Vec<GpuHistoryEntry>, keep: usize, ids: &mut Vec<GpuHistoryId>)
    ensures
        final(ids)@ == old(ids)@ + ids_with_pixels(
            all_but_nearest(entry_models(entries@), keep as int),
        ),
{
    let ghost models = entry_models(entries@);
    let ghost listed = all_but_nearest(models, keep as int);
    let count: usize = if keep < entries.len() {
        entries.len() - keep
    } else {
        0
    };
    let mut i: usize = 0;
    assert(listed.len() == count);
    assert(listed.subrange(0, 0) =~= Seq::<EntryModel>::empty());
    assert(ids@ + Seq::<GpuHistoryId>::empty() =~= ids@);
    while i < count
        invariant
            models == entry_models(entries@),
            listed == all_but_nearest(models, keep as int),
            listed.len() == count,
            count <= entries@.len(),
            i <= count,
            ids@ == old(ids)@ + ids_with_pixels(listed.subrange(0, i as int)),
        decreases count - i,
    {
        let entry = &entries[i];
        proof {
            let longer = listed.subrange(0, i as int + 1);
            assert(longer.drop_last() =~= listed.subrange(0, i as int));
            assert(longer.last() == entry@);
        }
        let ghost earlier = ids@;
        if entry.kind() == GpuHistoryEntryKind::Raster && !entry.archived {
            ids.push(entry.id());
            assert(ids@ =~= old(ids)@ + ids_with_pixels(listed.subrange(0, i as int)).push(
                entry@.id,
            ));
        }
        i += 1;
    }
    assert(listed.subrange(0, count as int) =~= listed);
}

impl GpuDocumentHistory {
    /// What the newest edit replaced, where it changed pixels.
    pub fn newest_memento(&self) -> (memento: Option<&GpuDocumentMemento>)
        requires
            self.wf(),
        ensures
            match memento {
                Some(memento) => {
                    &&& memento.wf()
                    &&& self@.undo.len() > 0
                    &&& self@.undo.last().payload == PayloadModel::Raster(memento@)
                },
                None => self@.undo.len() == 0 || self@.undo.last().kind()
                    == GpuHistoryEntryKind::Metadata,
            },
    {
        let count: usize = self.undo.len();
        if count == 0 {
            return None;
        }
        let entry = &self.undo[count - 1];
        assert(entry@ == self@.undo.last());
        match &entry.payload {
            GpuHistoryPayload::Raster(memento) => Some(memento),
            GpuHistoryPayload::Metadata(_) => None,
        }
    }

    /// Lets an entry give up the pixels that it has on the device. Says whether it had any.
    pub fn archive(&mut self, id: GpuHistoryId) -> (changed: bool)
        requires
            old(self).wf(),
        ensures
            final(self).wf(),
            final(self)@ == old(self)@.archived(id),
            changed == (holds_pixels(old(self)@.undo, id) || holds_pixels(old(self)@.redo, id)),
    {
        let ghost before = self@;
        proof {
            lemma_giving_up_frees(self.undo@, id);
            lemma_giving_up_frees(self.redo@, id);
        }
        let pending_bytes: u64 = match &self.pending {
            Some((entry, _)) => entry.byte_len(),
            None => 0,
        };
        let in_undo = give_up(&mut self.undo, id);
        let in_redo = give_up(&mut self.redo, id);
        self.resident_bytes = sum_bytes(&self.undo) + sum_bytes(&self.redo) + pending_bytes;
        proof {
            assert(self@.undo == given_up(before.undo, id));
            assert(self@.redo == given_up(before.redo, id));
            assert forall|i: int| 0 <= i < self@.undo.len() implies (
            #[trigger] self@.undo[i]).full_bytes() <= self@.max_bytes by {
                assert(before.undo[i].full_bytes() <= self@.max_bytes);
            }
            assert forall|i: int| 0 <= i < self@.redo.len() implies (
            #[trigger] self@.redo[i]).full_bytes() <= self@.max_bytes by {
                assert(before.redo[i].full_bytes() <= self@.max_bytes);
            }
        }
        in_undo || in_redo
    }

    /// The entries that could give up their pixels, where the `keep_recent` nearest on each side
    /// stay ready.
    pub fn archive_candidates(&self, keep_recent: usize) -> (ids: Vec<GpuHistoryId>)
        ensures
            ids@ == self@.archivable(keep_recent as int),
    {
        let mut ids: Vec<GpuHistoryId> = Vec::new();
        list_with_pixels(&self.undo, keep_recent, &mut ids);
        let ghost first = ids@;
        assert(first =~= ids_with_pixels(all_but_nearest(self@.undo, keep_recent as int)));
        list_with_pixels(&self.redo, keep_recent, &mut ids);
        ids
    }

    /// How many bytes have to come back before the next step in that direction.
    pub fn next_hydration_bytes(&self, direction: GpuHistoryDirection) -> (bytes: u64)
        ensures
            bytes == self@.incoming(direction),
    {
        let stack = self.stack(direction);
        let count: usize = stack.len();
        if count == 0 {
            return 0;
        }
        let entry = &stack[count - 1];
        if entry.archived {
            entry.full_byte_len()
        } else {
            0
        }
    }

    /// Notes that the pixels for the next step in that direction have come back.
    pub fn hydrate_next(&mut self, direction: GpuHistoryDirection)
        requires
            old(self).wf(),
            old(self)@.resident() + old(self)@.incoming(direction) <= old(self)@.max_bytes,
        ensures
            final(self).wf(),
            final(self)@ == old(self)@.restored(direction),
    {
        let ghost before = self@;
        let incoming: u64 = self.next_hydration_bytes(direction);
        let ghost undo = self.undo@;
        let ghost redo = self.redo@;
        match direction {
            GpuHistoryDirection::Undo => {
                match self.undo.pop() {
                    Some(entry) => {
                        let mut entry = entry;
                        assert(entry@ == before.undo.last());
                        entry.archived = false;
                        let ghost ready = entry@;
                        self.undo.push(entry);
                        proof {
                            assert(self@.undo =~= before.undo.drop_last().push(ready));
                            assert(self@.undo.drop_last() =~= before.undo.drop_last());
                            assert forall|k: int| 0 <= k < self.undo@.len() implies (
                            #[trigger] self.undo@[k]).wf() by {
                                assert(undo[k].wf());
                            }
                        }
                    },
                    None => {
                        assert(self@.undo =~= before.undo);
                    },
                }
            },
            GpuHistoryDirection::Redo => {
                match self.redo.pop() {
                    Some(entry) => {
                        let mut entry = entry;
                        assert(entry@ == before.redo.last());
                        entry.archived = false;
                        let ghost ready = entry@;
                        self.redo.push(entry);
                        proof {
                            assert(self@.redo =~= before.redo.drop_last().push(ready));
                            assert(self@.redo.drop_last() =~= before.redo.drop_last());
                            assert forall|k: int| 0 <= k < self.redo@.len() implies (
                            #[trigger] self.redo@[k]).wf() by {
                                assert(redo[k].wf());
                            }
                        }
                    },
                    None => {
                        assert(self@.redo =~= before.redo);
                    },
                }
            },
        }
        self.resident_bytes = self.resident_bytes + incoming;
    }
}

/// An entry that gave up its pixels and got them back before its step leaves the history as it was.
pub proof fn law_restored_entry_is_as_before(
    history: HistoryModel,
    direction: GpuHistoryDirection,
)
    requires
        history.valid(),
        history.top(direction) matches Some(entry) && has_pixels(entry),
        forall|i: int, j: int|
            #![trigger history.undo[i], history.undo[j]]
            0 <= i < j < history.undo.len() ==> history.undo[i].id != history.undo[j].id,
        forall|i: int, j: int|
            #![trigger history.redo[i], history.redo[j]]
            0 <= i < j < history.redo.len() ==> history.redo[i].id != history.redo[j].id,
        forall|i: int, j: int|
            #![trigger history.undo[i], history.redo[j]]
            0 <= i < history.undo.len() && 0 <= j < history.redo.len() ==> history.undo[i].id
                != history.redo[j].id,
    ensures
        history.archived((history.top(direction)->0).id).restored(direction) == history,
        history.archived((history.top(direction)->0).id).incoming(direction) == (history.top(
            direction,
        )->0).full_bytes(),
{
    let entry = history.top(direction)->0;
    let without = history.archived(entry.id);
    match direction {
        GpuHistoryDirection::Undo => {
            let last = history.undo.len() - 1;
            assert(history.undo[last] == entry);
            assert(without.undo.drop_last().push(entry) =~= history.undo) by {
                assert forall|i: int| 0 <= i < last implies without.undo[i] == history.undo[i] by {
                    assert(history.undo[i].id != history.undo[last].id);
                }
            }
            assert(without.redo =~= history.redo) by {
                assert forall|i: int| 0 <= i < history.redo.len() implies without.redo[i]
                    == history.redo[i] by {
                    assert(history.undo[last].id != history.redo[i].id);
                }
            }
        },
        GpuHistoryDirection::Redo => {
            let last = history.redo.len() - 1;
            assert(history.redo[last] == entry);
            assert(without.redo.drop_last().push(entry) =~= history.redo) by {
                assert forall|i: int| 0 <= i < last implies without.redo[i] == history.redo[i] by {
                    assert(history.redo[i].id != history.redo[last].id);
                }
            }
            assert(without.undo =~= history.undo) by {
                assert forall|i: int| 0 <= i < history.undo.len() implies without.undo[i]
                    == history.undo[i] by {
                    assert(history.undo[i].id != history.redo[last].id);
                }
            }
        },
    }
}

} // verus!
