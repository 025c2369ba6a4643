//! The persistent synchronisation queue: a first-in, first-out list of planned actions,
//! each under a fresh ULID. Reading and writing `.noda/sync/queue.json` is the caller's.
use vstd::prelude::*;
use crate::delta::{SyncAction, SyncActionView};
use crate::notes::new_note_id;
use crate::ulid::ulid_text;

verus! {

/// One queued action under its own identifier.
#[derive(Debug)]
pub struct SyncQueueEntry {
    pub id: String,
    pub action: SyncAction,
}

/// The queued actions, oldest first.
#[derive(Debug)]
pub struct SyncQueue {
    entries: Vec<SyncQueueEntry>,
}

/// The actions of a list of entries, in order.
pub open spec fn entry_actions(v: Seq<SyncQueueEntry>) -> Seq<SyncActionView> {
    v.map_values(|e: SyncQueueEntry| e.action@)
}

impl SyncQueue {
    /// The queued actions, oldest first.
    pub closed spec fn actions(&self) -> Seq<SyncActionView> {
        entry_actions(self.entries@)
    }

    /// The queued entries, oldest first.
    pub closed spec fn entry_seq(&self) -> Seq<SyncQueueEntry> {
        self.entries@
    }

    /// An empty queue.
    pub fn new() -> (r: SyncQueue)
        ensures
            r.entry_seq().len() == 0,
            r.actions() == Seq::<SyncActionView>::empty(),
    {
        let r = SyncQueue { entries: Vec::new() };
        assert(entry_actions(r.entries@) =~= Seq::<SyncActionView>::empty());
        r
    }

    /// A queue holding `entries` (as read back from disk), oldest first.
    pub fn from_entries(entries: Vec<SyncQueueEntry>) -> (r: SyncQueue)
        ensures
            r.entry_seq() == entries@,
            r.actions() == entry_actions(entries@),
    {
        SyncQueue { entries }
    }

    /// Appends `action` under a fresh ULID.
    pub fn enqueue(&mut self, action: SyncAction)
        ensures
            final(self).entry_seq().len() == old(self).entry_seq().len() + 1,
            final(self).entry_seq().drop_last() == old(self).entry_seq(),
            final(self).entry_seq().last().action == action,
            exists|v: u128| final(self).entry_seq().last().id@ == ulid_text(v),
            final(self).actions() == old(self).actions().push(action@),
    {
        let id = new_note_id();
        self.entries.push(SyncQueueEntry { id, action });
        assert(self.entries@.drop_last() =~= old(self).entries@);
        assert(entry_actions(self.entries@) =~= entry_actions(old(self).entries@).push(action@));
    }

    /// Removes and returns the oldest entry; `None` when the queue is empty.
    pub fn dequeue(&mut self) -> (r: Option<SyncQueueEntry>)
        ensures
            old(self).entry_seq().len() == 0 ==> r is None && final(self).entry_seq() == old(self).entry_seq(),
            old(self).entry_seq().len() > 0 ==> r == Some(old(self).entry_seq()[0])
                && final(self).entry_seq() == old(self).entry_seq().drop_first(),
            old(self).actions().len() > 0 ==> final(self).actions() == old(self).actions().drop_first(),
            old(self).actions().len() == 0 ==> final(self).actions() == old(self).actions(),
    {
        if self.entries.len() == 0 {
            return None;
        }
        let e = self.entries.remove(0);
        assert(self.entries@ =~= old(self).entries@.drop_first());
        assert(entry_actions(self.entries@) =~= entry_actions(old(self).entries@).drop_first());
        Some(e)
    }

    /// The number of queued entries.
    pub fn len(&self) -> (r: usize)
        ensures
            r == self.entry_seq().len(),
    {
        self.entries.len()
    }

    /// `true` when nothing is queued.
    pub fn is_empty(&self) -> (r: bool)
        ensures
            r == (self.entry_seq().len() == 0),
    {
        self.entries.len() == 0
    }

    /// The queued entries, oldest first.
    pub fn entries(&self) -> (r: &[SyncQueueEntry])
        ensures
            r@ == self.entry_seq(),
    {
        self.entries.as_slice()
    }
}

/// First in, first out: enqueuing `a` onto a queue holding the actions `q` and then
/// dequeuing hands out the oldest action of `q` (or `a` itself when `q` was empty) and
/// leaves the rest of `q` followed by `a`, the same as dequeuing first and enqueuing
/// after.
pub proof fn law_queue_is_fifo(q: Seq<SyncActionView>, a: SyncActionView)
    ensures
        q.len() > 0 ==> q.push(a)[0] == q[0] && q.push(a).drop_first() == q.drop_first().push(a),
        q.len() == 0 ==> q.push(a)[0] == a && q.push(a).drop_first() == Seq::<SyncActionView>::empty(),
{
    if q.len() > 0 {
        assert(q.push(a).drop_first() =~= q.drop_first().push(a));
    } else {
        assert(q.push(a).drop_first() =~= Seq::<SyncActionView>::empty());
    }
}

} // verus!
