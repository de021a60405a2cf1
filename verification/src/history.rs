//! The history ledger: an append-only derived collection of completion and
//! generation events, kept ordered by `occurred_at` with ties in insertion
//! order.

use vstd::prelude::*;

use crate::model::{EventKind, HistoryEntry, SubjectKind};

verus! {

/// Entries ordered by their timestamps, oldest first.
pub open spec fn hist_sorted(entries: Seq<HistoryEntry>) -> bool {
    forall|i: int, j: int|
        0 <= i < j < entries.len() ==> entries[i].occurred_at <= entries[j].occurred_at
}

/// The position a new entry with timestamp `at` takes: the first index whose
/// entry occurred strictly later.  Inserting there places the new entry after
/// every entry with the same timestamp, so ties keep insertion order.
pub open spec fn hist_insert_pos(entries: Seq<HistoryEntry>, at: u64) -> int
    decreases entries.len(),
{
    if entries.len() == 0 {
        0
    } else if entries[0].occurred_at > at {
        0
    } else {
        1 + hist_insert_pos(entries.drop_first(), at)
    }
}

/// The ledger after one append.
pub open spec fn hist_appended(entries: Seq<HistoryEntry>, e: HistoryEntry) -> Seq<HistoryEntry> {
    entries.insert(hist_insert_pos(entries, e.occurred_at), e)
}

pub proof fn lemma_hist_insert_pos_props(entries: Seq<HistoryEntry>, at: u64)
    ensures
        0 <= hist_insert_pos(entries, at) <= entries.len(),
        forall|k: int| 0 <= k < hist_insert_pos(entries, at) ==> entries[k].occurred_at <= at,
        forall|k: int|
            hist_insert_pos(entries, at) <= k < entries.len() && hist_sorted(entries)
                ==> entries[k].occurred_at > at,
    decreases entries.len(),
{
    if entries.len() > 0 && entries[0].occurred_at <= at {
        lemma_hist_insert_pos_props(entries.drop_first(), at);
        let p = hist_insert_pos(entries, at);
        assert forall|k: int| 0 <= k < p implies entries[k].occurred_at <= at by {
            if k > 0 {
                assert(entries.drop_first()[k - 1] == entries[k]);
            }
        }
        assert forall|k: int|
            p <= k < entries.len() && hist_sorted(entries) implies entries[k].occurred_at
            > at by {
            assert(hist_sorted(entries.drop_first()));
            assert(entries.drop_first()[k - 1] == entries[k]);
        }
    }
}

/// The ledger together with the counter its entry identifiers come from.
pub struct HistoryLedger {
    pub next_id: u64,
    pub entries: Vec<HistoryEntry>,
}

#[verifier::ext_equal]
pub ghost struct HistoryLedgerView {
    pub next_id: u64,
    pub entries: Seq<HistoryEntry>,
}

impl View for HistoryLedger {
    type V = HistoryLedgerView;

    open spec fn view(&self) -> HistoryLedgerView {
        HistoryLedgerView { next_id: self.next_id, entries: self.entries@ }
    }
}

/// Well-formedness of the ledger: entries are ordered by timestamp and their
/// identifiers are distinct and below the counter.
pub open spec fn hist_wf(h: HistoryLedgerView) -> bool {
    &&& hist_sorted(h.entries)
    &&& forall|i: int, j: int| 0 <= i < j < h.entries.len() ==> h.entries[i].id != h.entries[j].id
    &&& forall|i: int| 0 <= i < h.entries.len() ==> h.entries[i].id < h.next_id
}

impl HistoryLedger {
    /// The empty ledger.
    pub fn new() -> (r: HistoryLedger)
        ensures
            r@ == (HistoryLedgerView { next_id: 0, entries: Seq::<HistoryEntry>::empty() }),
            hist_wf(r@),
    {
        HistoryLedger { next_id: 0, entries: Vec::new() }
    }

    /// Records one event.  The entry gets the next identifier and takes its
    /// place in timestamp order, after every entry with the same timestamp.
    /// Only the record stores and the refresh engine call this: the ledger
    /// has no update or delete surface.
    pub(crate) fn append(&mut self, subject_kind: SubjectKind, subject_id: u64, event: EventKind, occurred_at: u64) -> (e:
        HistoryEntry)
        requires
            hist_wf(old(self)@),
            old(self)@.next_id < u64::MAX,
        ensures
            hist_wf(final(self)@),
            e == (HistoryEntry {
                id: old(self)@.next_id,
                subject_kind,
                subject_id,
                event,
                occurred_at,
            }),
            final(self)@.entries == hist_appended(old(self)@.entries, e),
            final(self)@.next_id == old(self)@.next_id + 1,
    {
        let e = HistoryEntry { id: self.next_id, subject_kind, subject_id, event, occurred_at };
        let mut pos: usize = 0;
        while pos < self.entries.len() && self.entries[pos].occurred_at <= occurred_at
            invariant
                0 <= pos <= self.entries.len(),
                self@ == old(self)@,
                hist_wf(old(self)@),
                forall|k: int| 0 <= k < pos ==> self@.entries[k].occurred_at <= occurred_at,
            decreases self.entries.len() - pos,
        {
            pos = pos + 1;
        }
        proof {
            lemma_hist_insert_pos_props(self@.entries, occurred_at);
            let p = hist_insert_pos(self@.entries, occurred_at);
            if p < pos {
                assert(self@.entries[p].occurred_at <= occurred_at);
            }
            if pos < p {
                assert(self@.entries[pos as int].occurred_at <= occurred_at);
            }
            assert(p == pos as int);
        }
        self.entries.insert(pos, e);
        self.next_id = self.next_id + 1;
        proof {
            let entries0 = old(self)@.entries;
            let p = pos as int;
            entries0.insert_ensures(p, e);
            lemma_hist_insert_pos_props(entries0, occurred_at);
            assert forall|i: int, j: int|
                0 <= i < j < self@.entries.len() implies self@.entries[i].occurred_at
                <= self@.entries[j].occurred_at by {
                if i < p && j < p {
                    assert(self@.entries[i] == entries0[i]);
                    assert(self@.entries[j] == entries0[j]);
                } else if i < p && j == p {
                    assert(self@.entries[i] == entries0[i]);
                } else if i < p && j > p {
                    assert(self@.entries[i] == entries0[i]);
                    assert(self@.entries[j] == entries0[j - 1]);
                } else if i == p && j > p {
                    assert(self@.entries[j] == entries0[j - 1]);
                } else {
                    assert(self@.entries[i] == entries0[i - 1]);
                    assert(self@.entries[j] == entries0[j - 1]);
                }
            }
            assert forall|i: int, j: int|
                0 <= i < j < self@.entries.len() implies self@.entries[i].id
                != self@.entries[j].id by {
                if i < p && j < p {
                    assert(self@.entries[i] == entries0[i]);
                    assert(self@.entries[j] == entries0[j]);
                } else if i < p && j == p {
                    assert(self@.entries[i] == entries0[i]);
                } else if i < p && j > p {
                    assert(self@.entries[i] == entries0[i]);
                    assert(self@.entries[j] == entries0[j - 1]);
                } else if i == p && j > p {
                    assert(self@.entries[j] == entries0[j - 1]);
                } else {
                    assert(self@.entries[i] == entries0[i - 1]);
                    assert(self@.entries[j] == entries0[j - 1]);
                }
            }
            assert forall|i: int| 0 <= i < self@.entries.len() implies self@.entries[i].id
                < self@.next_id by {
                if i < p {
                    assert(self@.entries[i] == entries0[i]);
                } else if i > p {
                    assert(self@.entries[i] == entries0[i - 1]);
                }
            }
        }
        e
    }

    /// A snapshot of the ledger, ordered by `occurred_at` ascending with ties
    /// in insertion order; no side effect.
    pub fn list(&self) -> (r: Vec<HistoryEntry>)
        ensures
            r@ == self@.entries,
    {
        let mut out: Vec<HistoryEntry> = Vec::new();
        let mut i: usize = 0;
        while i < self.entries.len()
            invariant
                i <= self.entries.len(),
                out@ == self@.entries.take(i as int),
            decreases self.entries.len() - i,
        {
            out.push(self.entries[i]);
            proof {
                assert(out@ =~= self@.entries.take(i as int + 1));
            }
            i = i + 1;
        }
        proof {
            assert(self@.entries.take(self.entries@.len() as int) =~= self@.entries);
        }
        out
    }
}

} // verus!
