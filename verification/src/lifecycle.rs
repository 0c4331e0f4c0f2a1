use tokio::task::AbortHandle;
use vstd::prelude::*;

use crate::clock::Instant;
use crate::order::SessionId;

verus! {

/// Declares tokio's `AbortHandle`, which is carried through unread.
#[verifier::external_type_specification]
#[verifier::external_body]
pub struct ExAbortHandle(tokio::task::AbortHandle);

/// What is kept of a session while it lives.
pub struct SessionLifecycleEntry {
    /// When the session was registered.
    pub created_at: Instant,
    /// Cancels the session's max-lifetime timer, where one runs.
    pub abort_handle: Option<AbortHandle>,
}

struct Record {
    id: SessionId,
    entry: SessionLifecycleEntry,
}

/// The lifecycle entries of the tracked sessions, at most one for each session.
pub struct LifecycleTable {
    records: Vec<Record>,
}

spec fn entries(records: Seq<Record>) -> Map<Seq<char>, SessionLifecycleEntry>
    decreases records.len(),
{
    if records.len() == 0 {
        Map::empty()
    } else {
        entries(records.drop_last()).insert(records.last().id@, records.last().entry)
    }
}

spec fn distinct(records: Seq<Record>) -> bool {
    forall|i: int, j: int|
        0 <= i < j < records.len() ==> #[trigger] records[i].id@ != #[trigger] records[j].id@
}

impl View for LifecycleTable {
    type V = Map<Seq<char>, SessionLifecycleEntry>;

    closed spec fn view(&self) -> Map<Seq<char>, SessionLifecycleEntry> {
        entries(self.records@)
    }
}

/// A table holds what its records hold: one entry for each of them.
proof fn lemma_entries(records: Seq<Record>)
    requires
        distinct(records),
    ensures
        forall|k: Seq<char>| #[trigger]
            entries(records).contains_key(k) <==> exists|i: int|
                0 <= i < records.len() && records[i].id@ == k,
        forall|i: int|
            #![trigger records[i]]
            0 <= i < records.len() ==> entries(records)[records[i].id@] == records[i].entry,
        entries(records).dom().finite(),
        entries(records).dom().len() == records.len(),
    decreases records.len(),
{
    if records.len() > 0 {
        let front = records.drop_last();
        let last = records.last();
        assert(distinct(front)) by {
            assert forall|i: int, j: int| 0 <= i < j < front.len() implies #[trigger] front[i].id@
                != #[trigger] front[j].id@ by {
                assert(front[i] == records[i] && front[j] == records[j]);
            }
        }
        lemma_entries(front);
        assert(records[records.len() - 1] == last);
        assert forall|k: Seq<char>| #[trigger]
            entries(records).contains_key(k) <==> exists|i: int|
                0 <= i < records.len() && records[i].id@ == k by {
            if entries(records).contains_key(k) {
                if k == last.id@ {
                    assert(records[records.len() - 1].id@ == k);
                } else {
                    assert(entries(front).contains_key(k));
                    let i = choose|i: int| 0 <= i < front.len() && front[i].id@ == k;
                    assert(records[i].id@ == k);
                }
            }
            if exists|i: int| 0 <= i < records.len() && records[i].id@ == k {
                let i = choose|i: int| 0 <= i < records.len() && records[i].id@ == k;
                if i < records.len() - 1 {
                    assert(front[i].id@ == k);
                    assert(entries(front).contains_key(k));
                }
            }
        }
        assert forall|i: int|
            #![trigger records[i]]
            0 <= i < records.len() implies entries(records)[records[i].id@]
            == records[i].entry by {
            if i < records.len() - 1 {
                assert(front[i] == records[i]);
                assert(records[i].id@ != records[records.len() - 1].id@);
            }
        }
        assert(!entries(front).contains_key(last.id@)) by {
            if entries(front).contains_key(last.id@) {
                let i = choose|i: int| 0 <= i < front.len() && front[i].id@ == last.id@;
                assert(records[i].id@ != records[records.len() - 1].id@);
            }
        }
        assert(entries(records).dom() == entries(front).dom().insert(last.id@));
    }
}

impl LifecycleTable {
    /// No session has two entries.
    pub closed spec fn wf(&self) -> bool {
        distinct(self.records@)
    }

    /// A table without entries.
    pub fn new() -> (table: LifecycleTable)
        ensures
            table.wf(),
            table@ == Map::<Seq<char>, SessionLifecycleEntry>::empty(),
    {
        LifecycleTable { records: Vec::new() }
    }

    /// The number of sessions in the table.
    pub fn len(&self) -> (n: usize)
        requires
            self.wf(),
        ensures
            self@.dom().finite(),
            n == self@.dom().len(),
    {
        proof {
            lemma_entries(self.records@);
        }
        self.records.len()
    }

    /// Takes the entry of the session `id` out of the table, if there is one.
    pub fn remove(&mut self, id: &SessionId) -> (entry: Option<SessionLifecycleEntry>)
        requires
            old(self).wf(),
        ensures
            final(self).wf(),
            final(self)@ == old(self)@.remove(id@),
            entry == (if old(self)@.contains_key(id@) {
                Some(old(self)@[id@])
            } else {
                None
            }),
    {
        let ghost before = self.records@;
        let mut i: usize = 0;
        while i < self.records.len()
            invariant
                self.records@ == before,
                before == old(self).records@,
                distinct(before),
                i <= before.len(),
                forall|j: int| 0 <= j < i ==> (#[trigger] before[j]).id@ != id@,
            decreases before.len() - i,
        {
            if self.records[i].id == *id {
                let record = self.records.remove(i);
                proof {
                    let after = self.records@;
                    lemma_entries(before);
                    assert forall|j: int, k: int| 0 <= j < k < after.len() implies #[trigger] after[j].id@
                        != #[trigger] after[k].id@ by {
                        let j0 = if j < i { j } else { j + 1 };
                        let k0 = if k < i { k } else { k + 1 };
                        assert(after[j] == before[j0] && after[k] == before[k0]);
                    }
                    lemma_entries(after);
                    assert(before[i as int].id@ == id@);
                    assert forall|k: Seq<char>| entries(after).contains_key(k) <==> #[trigger] entries(
                        before,
                    ).remove(id@).contains_key(k) by {
                        if entries(after).contains_key(k) {
                            let j = choose|j: int| 0 <= j < after.len() && after[j].id@ == k;
                            let j0 = if j < i { j } else { j + 1 };
                            assert(before[j0] == after[j]);
                            assert(before[j0].id@ != before[i as int].id@);
                        }
                        if entries(before).contains_key(k) && k != id@ {
                            let j = choose|j: int| 0 <= j < before.len() && before[j].id@ == k;
                            let j0 = if j < i { j } else { j - 1 };
                            assert(after[j0] == before[j]);
                        }
                    }
                    assert forall|k: Seq<char>| #[trigger]
                        entries(after).contains_key(k) implies entries(after)[k] == entries(
                        before,
                    )[k] by {
                        let j = choose|j: int| 0 <= j < after.len() && after[j].id@ == k;
                        let j0 = if j < i { j } else { j + 1 };
                        assert(before[j0] == after[j]);
                    }
                    assert(entries(after) == entries(before).remove(id@));
                }
                return Some(record.entry);
            }
            i += 1;
        }
        proof {
            lemma_entries(before);
        }
        assert(entries(before).remove(id@) == entries(before));
        None
    }

    /// Enters `entry` for the session `id`, in place of any that it has.
    pub fn insert(&mut self, id: SessionId, entry: SessionLifecycleEntry)
        requires
            old(self).wf(),
        ensures
            final(self).wf(),
            final(self)@ == old(self)@.insert(id@, entry),
    {
        let _ = self.remove(&id);
        let ghost before = self.records@;
        proof {
            lemma_entries(before);
            assert forall|j: int| 0 <= j < before.len() implies (#[trigger] before[j]).id@ != id@ by {
                assert(!entries(before).contains_key(id@));
            }
        }
        self.records.push(Record { id, entry });
        proof {
            let after = self.records@;
            assert forall|j: int, k: int| 0 <= j < k < after.len() implies #[trigger] after[j].id@
                != #[trigger] after[k].id@ by {
                assert(after[j] == before[j]);
                if k < before.len() {
                    assert(after[k] == before[k]);
                }
            }
            assert(after.drop_last() == before);
            assert(old(self)@.remove(id@).insert(id@, entry) == old(self)@.insert(id@, entry));
        }
    }
}

} // verus!
