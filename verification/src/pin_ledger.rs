//! The ledger of versions that readers have pinned.
//!
//! Readers report each pin and each unpin of a version. Once per tick the
//! ledger takes in what was reported and names the version before which
//! every version may be given up. The ledger does no waiting and no
//! sending: it is told the time and the reports, and answers with what is
//! to be sent.

use vstd::prelude::*;

verus! {

/// A report of a reader: it took hold of a version, or let go of one.
#[derive(Clone, Copy, Debug, PartialEq, Eq, Structural)]
pub enum PinVersionAction {
    Pin(u64),
    Unpin(u64),
}

/// One pinned version: how many holders it has and when it was pinned
/// first, in milliseconds.
#[derive(Clone, Copy, Debug, PartialEq, Eq, Structural)]
pub struct PinEntry {
    pub version_id: u64,
    pub count: usize,
    pub pinned_at: u64,
}

/// The pinned versions, ascending by id, and whether there is something to
/// tell the metadata authority.
#[derive(Debug, PartialEq, Eq)]
pub struct PinLedger {
    pub versions_in_use: Vec<PinEntry>,
    pub need_unpin: bool,
}

/// Mathematical value of a [`PinLedger`].
#[verifier::ext_equal]
pub struct LedgerView {
    pub versions_in_use: Seq<PinEntry>,
    pub need_unpin: bool,
}

impl View for PinLedger {
    type V = LedgerView;

    open spec fn view(&self) -> LedgerView {
        LedgerView { versions_in_use: self.versions_in_use@, need_unpin: self.need_unpin }
    }
}

/// The entries are in ascending order of their ids, and each counts at
/// least one holder.
pub open spec fn entries_ordered(s: Seq<PinEntry>) -> bool {
    &&& forall|i: int, j: int| 0 <= i < j < s.len() ==> s[i].version_id < s[j].version_id
    &&& forall|i: int| 0 <= i < s.len() ==> (#[trigger] s[i]).count >= 1
}

/// The first position from `from` on whose version id is not below `id`.
pub open spec fn position_of(s: Seq<PinEntry>, id: u64, from: int) -> int
    decreases s.len() - from,
{
    if from < 0 || from >= s.len() {
        s.len() as int
    } else if s[from].version_id >= id {
        from
    } else {
        position_of(s, id, from + 1)
    }
}

/// The entry of `id` is at the position where `id` belongs.
pub open spec fn is_pinned(s: Seq<PinEntry>, id: u64) -> bool {
    position_of(s, id, 0) < s.len() && s[position_of(s, id, 0)].version_id == id
}

/// The pinned versions after one more pin of `id`: its entry counts one
/// holder more and keeps the time of its first pin; a version without an
/// entry gets one with the time `now`, at its place in the order.
pub open spec fn spec_pin(s: Seq<PinEntry>, id: u64, now: u64) -> Seq<PinEntry> {
    let p = position_of(s, id, 0);
    if is_pinned(s, id) {
        s.update(
            p,
            PinEntry {
                version_id: id,
                count: if s[p].count < usize::MAX {
                    (s[p].count + 1) as usize
                } else {
                    usize::MAX
                },
                pinned_at: s[p].pinned_at,
            },
        )
    } else {
        s.insert(p, PinEntry { version_id: id, count: 1, pinned_at: now })
    }
}

/// The pinned versions after one unpin of `id`: its entry counts one holder
/// less and leaves with the last one. An unpin of a version without an
/// entry changes nothing.
pub open spec fn spec_unpin(s: Seq<PinEntry>, id: u64) -> Seq<PinEntry> {
    let p = position_of(s, id, 0);
    if !is_pinned(s, id) {
        s
    } else if s[p].count <= 1 {
        s.remove(p)
    } else {
        s.update(p, PinEntry { count: (s[p].count - 1) as usize, ..s[p] })
    }
}

/// The pinned versions after the pins among the first `n` reports.
pub open spec fn pins_applied(s: Seq<PinEntry>, actions: Seq<PinVersionAction>, now: u64, n: int) -> Seq<
    PinEntry,
>
    decreases n,
{
    if n <= 0 {
        s
    } else {
        match actions[n - 1] {
            PinVersionAction::Pin(id) => spec_pin(pins_applied(s, actions, now, n - 1), id, now),
            PinVersionAction::Unpin(_) => pins_applied(s, actions, now, n - 1),
        }
    }
}

/// The pinned versions after the unpins among the first `n` reports.
pub open spec fn unpins_applied(s: Seq<PinEntry>, actions: Seq<PinVersionAction>, n: int) -> Seq<
    PinEntry,
>
    decreases n,
{
    if n <= 0 {
        s
    } else {
        match actions[n - 1] {
            PinVersionAction::Pin(_) => unpins_applied(s, actions, n - 1),
            PinVersionAction::Unpin(id) => spec_unpin(unpins_applied(s, actions, n - 1), id),
        }
    }
}

/// One of the reports is an unpin.
pub open spec fn has_unpin(actions: Seq<PinVersionAction>) -> bool {
    exists|i: int| 0 <= i < actions.len() && (#[trigger] actions[i]) is Unpin
}

/// The entry has been held for at least `max_pinning_ms`.
pub open spec fn is_expired(e: PinEntry, now: u64, max_pinning_ms: u64) -> bool {
    if now >= e.pinned_at {
        now - e.pinned_at >= max_pinning_ms
    } else {
        max_pinning_ms == 0
    }
}

/// The pinned versions after the oldest ones that have expired were given
/// up. The last version is never given up.
pub open spec fn without_expired(s: Seq<PinEntry>, now: u64, max_pinning_ms: u64) -> Seq<PinEntry>
    decreases s.len(),
{
    if s.len() > 1 && is_expired(s[0], now, max_pinning_ms) {
        without_expired(s.drop_first(), now, max_pinning_ms)
    } else {
        s
    }
}

/// The ledger after one tick, and the version to name to the metadata
/// authority, if there is something to tell.
///
/// Expired versions are given up first. Then the pins are counted. Where
/// nothing has been given up, nothing was unpinned and nothing is left to
/// tell from earlier ticks, the tick ends there. Otherwise the unpins are
/// counted, and the oldest version still in use is the one to name.
pub open spec fn spec_tick(
    ledger: LedgerView,
    now: u64,
    max_pinning_ms: u64,
    actions: Seq<PinVersionAction>,
) -> (LedgerView, Option<u64>) {
    let kept = without_expired(ledger.versions_in_use, now, max_pinning_ms);
    let pinned = pins_applied(kept, actions, now, actions.len() as int);
    let need = ledger.need_unpin || kept.len() < ledger.versions_in_use.len() || has_unpin(actions);
    if !need {
        (LedgerView { versions_in_use: pinned, need_unpin: false }, None)
    } else {
        let done = unpins_applied(pinned, actions, actions.len() as int);
        (
            LedgerView { versions_in_use: done, need_unpin: true },
            if done.len() > 0 {
                Some(done[0].version_id)
            } else {
                None
            },
        )
    }
}

/// The position where `id` belongs.
fn find_position(entries: &Vec<PinEntry>, id: u64) -> (r: usize)
    ensures
        r == position_of(entries@, id, 0),
        r <= entries.len(),
{
    let mut i: usize = 0;
    while i < entries.len() && entries[i].version_id < id
        invariant
            i <= entries.len(),
            position_of(entries@, id, 0) == position_of(entries@, id, i as int),
        decreases entries.len() - i,
    {
        i += 1;
    }
    i
}

impl PinLedger {
    /// A ledger without pinned versions.
    pub fn new() -> (r: Self)
        ensures
            r@.versions_in_use.len() == 0,
            !r@.need_unpin,
            entries_ordered(r@.versions_in_use),
    {
        PinLedger { versions_in_use: Vec::new(), need_unpin: false }
    }

    /// Counts one more holder of a version.
    pub fn pin(&mut self, version_id: u64, now: u64)
        ensures
            final(self)@.versions_in_use == spec_pin(old(self)@.versions_in_use, version_id, now),
            final(self).need_unpin == old(self).need_unpin,
            entries_ordered(old(self)@.versions_in_use) ==> entries_ordered(
                final(self)@.versions_in_use,
            ),
    {
        proof {
            if entries_ordered(self.versions_in_use@) {
                crate::laws::pins::lemma_pin_keeps_order(self.versions_in_use@, version_id, now);
            }
        }
        let p = find_position(&self.versions_in_use, version_id);
        if p < self.versions_in_use.len() && self.versions_in_use[p].version_id == version_id {
            let entry = self.versions_in_use[p];
            let count: usize = if entry.count < usize::MAX {
                entry.count + 1
            } else {
                usize::MAX
            };
            self.versions_in_use[p] = PinEntry { version_id, count, pinned_at: entry.pinned_at };
        } else {
            self.versions_in_use.insert(p, PinEntry { version_id, count: 1, pinned_at: now });
        }
    }

    /// Counts one holder of a version less.
    pub fn unpin(&mut self, version_id: u64)
        ensures
            final(self)@.versions_in_use == spec_unpin(old(self)@.versions_in_use, version_id),
            final(self).need_unpin == old(self).need_unpin,
            entries_ordered(old(self)@.versions_in_use) ==> entries_ordered(
                final(self)@.versions_in_use,
            ),
    {
        proof {
            if entries_ordered(self.versions_in_use@) {
                crate::laws::pins::lemma_unpin_counts(self.versions_in_use@, version_id, version_id);
            }
        }
        let p = find_position(&self.versions_in_use, version_id);
        if p < self.versions_in_use.len() && self.versions_in_use[p].version_id == version_id {
            let entry = self.versions_in_use[p];
            if entry.count <= 1 {
                self.versions_in_use.remove(p);
            } else {
                self.versions_in_use[p] = PinEntry { count: entry.count - 1, ..entry };
            }
        }
    }

    /// Gives up the oldest versions that have been held for too long.
    /// Returns whether a version was given up.
    pub fn expire(&mut self, now: u64, max_pinning_ms: u64) -> (r: bool)
        ensures
            final(self)@.versions_in_use == without_expired(
                old(self)@.versions_in_use,
                now,
                max_pinning_ms,
            ),
            final(self).need_unpin == old(self).need_unpin,
            r == (final(self)@.versions_in_use.len() < old(self)@.versions_in_use.len()),
            entries_ordered(old(self)@.versions_in_use) ==> entries_ordered(
                final(self)@.versions_in_use,
            ),
    {
        proof {
            if entries_ordered(self.versions_in_use@) {
                crate::laws::pins::lemma_without_expired_ordered(
                    self.versions_in_use@,
                    now,
                    max_pinning_ms,
                );
            }
        }
        let ghost orig = self.versions_in_use@;
        let len_before = self.versions_in_use.len();
        let mut go = true;
        while go && self.versions_in_use.len() > 1
            invariant
                self.need_unpin == old(self).need_unpin,
                len_before == orig.len(),
                orig == old(self)@.versions_in_use,
                self.versions_in_use.len() <= orig.len(),
                without_expired(orig, now, max_pinning_ms) == without_expired(
                    self.versions_in_use@,
                    now,
                    max_pinning_ms,
                ),
                !go ==> self.versions_in_use.len() > 1 && !is_expired(
                    self.versions_in_use@[0],
                    now,
                    max_pinning_ms,
                ),
            decreases self.versions_in_use.len() + if go { 1int } else { 0int },
        {
            let first = self.versions_in_use[0];
            let expired = if now >= first.pinned_at {
                now - first.pinned_at >= max_pinning_ms
            } else {
                max_pinning_ms == 0
            };
            if expired {
                let ghost before = self.versions_in_use@;
                self.versions_in_use.remove(0);
                assert(self.versions_in_use@ =~= before.drop_first());
            } else {
                go = false;
            }
        }
        self.versions_in_use.len() < len_before
    }

    /// Takes in the reports of one tick. Returns the version before which
    /// every version may be given up, if there is something to tell the
    /// metadata authority.
    pub fn tick(&mut self, now: u64, max_pinning_ms: u64, actions: &Vec<PinVersionAction>) -> (r:
        Option<u64>)
        ensures
            (final(self)@, r) == spec_tick(old(self)@, now, max_pinning_ms, actions@),
            entries_ordered(old(self)@.versions_in_use) ==> entries_ordered(
                final(self)@.versions_in_use,
            ),
    {
        let ghost start = self@;
        proof {
            if entries_ordered(self.versions_in_use@) {
                crate::laws::pins::lemma_tick_keeps_order(self@, now, max_pinning_ms, actions@);
            }
        }
        if self.expire(now, max_pinning_ms) {
            self.need_unpin = true;
        }
        let ghost kept = self.versions_in_use@;
        let mut unpins = false;
        let mut i: usize = 0;
        while i < actions.len()
            invariant
                i <= actions.len(),
                self.versions_in_use@ == pins_applied(kept, actions@, now, i as int),
                self.need_unpin == (start.need_unpin || kept.len() < start.versions_in_use.len()),
                unpins == exists|k: int| 0 <= k < i && (#[trigger] actions@[k]) is Unpin,
            decreases actions.len() - i,
        {
            match actions[i] {
                PinVersionAction::Pin(version_id) => {
                    self.pin(version_id, now);
                },
                PinVersionAction::Unpin(_) => {
                    unpins = true;
                },
            }
            i += 1;
        }
        if unpins {
            self.need_unpin = true;
        }
        if !self.need_unpin {
            return None;
        }
        let ghost pinned = self.versions_in_use@;
        let mut j: usize = 0;
        while j < actions.len()
            invariant
                j <= actions.len(),
                self.need_unpin,
                self.versions_in_use@ == unpins_applied(pinned, actions@, j as int),
            decreases actions.len() - j,
        {
            match actions[j] {
                PinVersionAction::Pin(_) => {},
                PinVersionAction::Unpin(version_id) => {
                    self.unpin(version_id);
                },
            }
            j += 1;
        }
        if self.versions_in_use.len() > 0 {
            Some(self.versions_in_use[0].version_id)
        } else {
            None
        }
    }

    /// Notes that the metadata authority has been told.
    pub fn unpin_succeeded(&mut self)
        ensures
            final(self)@ == (LedgerView { need_unpin: false, ..old(self)@ }),
    {
        self.need_unpin = false;
    }
}

} // verus!
