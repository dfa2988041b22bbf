//! Laws on the ledger of pinned versions.

use vstd::prelude::*;
use crate::pin_ledger::{
    entries_ordered, is_pinned, pins_applied, position_of, spec_pin, spec_tick, spec_unpin,
    unpins_applied, without_expired, LedgerView, PinEntry, PinVersionAction,
};

verus! {

/// The number of holders that the ledger counts for a version.
pub open spec fn count_of(s: Seq<PinEntry>, id: u64) -> int {
    if is_pinned(s, id) {
        s[position_of(s, id, 0)].count as int
    } else {
        0
    }
}

/// Number of pins of `id` among the first `n` reports.
pub open spec fn pins_of(actions: Seq<PinVersionAction>, id: u64, n: int) -> int
    decreases n,
{
    if n <= 0 {
        0
    } else {
        pins_of(actions, id, n - 1) + if actions[n - 1] == PinVersionAction::Pin(id) {
            1int
        } else {
            0int
        }
    }
}

/// Number of unpins of `id` among the first `n` reports.
pub open spec fn unpins_of(actions: Seq<PinVersionAction>, id: u64, n: int) -> int
    decreases n,
{
    if n <= 0 {
        0
    } else {
        unpins_of(actions, id, n - 1) + if actions[n - 1] == PinVersionAction::Unpin(id) {
            1int
        } else {
            0int
        }
    }
}

/// Where `id` belongs: behind every entry with a lower id and before every
/// other one.
pub proof fn lemma_position(s: Seq<PinEntry>, id: u64, from: int)
    requires
        0 <= from <= s.len(),
    ensures
        from <= position_of(s, id, from) <= s.len(),
        forall|k: int| from <= k < position_of(s, id, from) ==> s[k].version_id < id,
        position_of(s, id, from) < s.len() ==> s[position_of(s, id, from)].version_id >= id,
    decreases s.len() - from,
{
    if from < s.len() && s[from].version_id < id {
        lemma_position(s, id, from + 1);
    }
}

/// In an ordered ledger an entry is found where its id belongs.
pub proof fn lemma_position_finds(s: Seq<PinEntry>, i: int)
    requires
        entries_ordered(s),
        0 <= i < s.len(),
    ensures
        position_of(s, s[i].version_id, 0) == i,
        is_pinned(s, s[i].version_id),
        count_of(s, s[i].version_id) == s[i].count,
{
    lemma_position(s, s[i].version_id, 0);
    let p = position_of(s, s[i].version_id, 0);
    if p < i {
        assert(s[p].version_id < s[i].version_id);
    } else if p > i {
        assert(s[i].version_id < s[i].version_id);
    }
}

/// A version without an entry has no holder in the ledger, and no entry
/// carries its id.
pub proof fn lemma_not_pinned(s: Seq<PinEntry>, id: u64)
    requires
        entries_ordered(s),
        !is_pinned(s, id),
    ensures
        forall|i: int| 0 <= i < s.len() ==> (#[trigger] s[i]).version_id != id,
{
    assert forall|i: int| 0 <= i < s.len() implies (#[trigger] s[i]).version_id != id by {
        if s[i].version_id == id {
            lemma_position_finds(s, i);
        }
    }
}

/// A pin keeps the ledger ordered.
pub proof fn lemma_pin_keeps_order(s: Seq<PinEntry>, id: u64, now: u64)
    requires
        entries_ordered(s),
    ensures
        entries_ordered(spec_pin(s, id, now)),
{
    let p = position_of(s, id, 0);
    let t = spec_pin(s, id, now);
    lemma_position(s, id, 0);
    assert forall|i: int, j: int| 0 <= i < j < t.len() implies t[i].version_id < t[j].version_id by {
        if !is_pinned(s, id) {
            let a = if i < p { i } else { i - 1 };
            let b = if j < p { j } else { j - 1 };
            if i == p {
                assert(s[b].version_id >= s[p].version_id);
            } else if j == p {
            } else {
                assert(s[a].version_id < s[b].version_id);
            }
        } else {
            assert(s[i].version_id < s[j].version_id);
        }
    }
    assert forall|i: int| 0 <= i < t.len() implies (#[trigger] t[i]).count >= 1 by {
        if !is_pinned(s, id) {
            if i < p {
                assert(t[i] == s[i]);
            } else if i > p {
                assert(t[i] == s[i - 1]);
            }
        } else if i != p {
            assert(t[i] == s[i]);
        } else {
            assert(s[p].count >= 1);
        }
    }
}

/// The pins of a tick keep the ledger ordered.
pub proof fn lemma_pins_applied_ordered(
    s: Seq<PinEntry>,
    actions: Seq<PinVersionAction>,
    now: u64,
    n: int,
)
    requires
        entries_ordered(s),
    ensures
        entries_ordered(pins_applied(s, actions, now, n)),
    decreases n,
{
    if n > 0 {
        lemma_pins_applied_ordered(s, actions, now, n - 1);
        match actions[n - 1] {
            PinVersionAction::Pin(id) => {
                lemma_pin_keeps_order(pins_applied(s, actions, now, n - 1), id, now);
            },
            PinVersionAction::Unpin(_) => {},
        }
    }
}

/// The unpins of a tick keep the ledger ordered.
pub proof fn lemma_unpins_applied_ordered(s: Seq<PinEntry>, actions: Seq<PinVersionAction>, n: int)
    requires
        entries_ordered(s),
    ensures
        entries_ordered(unpins_applied(s, actions, n)),
    decreases n,
{
    if n > 0 {
        lemma_unpins_applied_ordered(s, actions, n - 1);
        match actions[n - 1] {
            PinVersionAction::Pin(_) => {},
            PinVersionAction::Unpin(id) => {
                lemma_unpin_counts(unpins_applied(s, actions, n - 1), id, id);
            },
        }
    }
}

/// A tick keeps the ledger ordered.
pub proof fn lemma_tick_keeps_order(
    ledger: LedgerView,
    now: u64,
    max_pinning_ms: u64,
    actions: Seq<PinVersionAction>,
)
    requires
        entries_ordered(ledger.versions_in_use),
    ensures
        entries_ordered(spec_tick(ledger, now, max_pinning_ms, actions).0.versions_in_use),
{
    let kept = without_expired(ledger.versions_in_use, now, max_pinning_ms);
    lemma_without_expired_ordered(ledger.versions_in_use, now, max_pinning_ms);
    let n = actions.len() as int;
    lemma_pins_applied_ordered(kept, actions, now, n);
    lemma_unpins_applied_ordered(pins_applied(kept, actions, now, n), actions, n);
}

/// A pin keeps the ledger ordered and adds one holder to the version, and
/// to no other.
pub proof fn lemma_pin_counts(s: Seq<PinEntry>, id: u64, now: u64, x: u64)
    requires
        entries_ordered(s),
        count_of(s, id) < usize::MAX,
    ensures
        entries_ordered(spec_pin(s, id, now)),
        count_of(spec_pin(s, id, now), x) == count_of(s, x) + if x == id {
            1int
        } else {
            0int
        },
{
    let p = position_of(s, id, 0);
    let t = spec_pin(s, id, now);
    lemma_position(s, id, 0);
    lemma_position(s, x, 0);
    lemma_position(t, x, 0);
    lemma_position(t, id, 0);
    assert(entries_ordered(t)) by {
        assert forall|i: int, j: int| 0 <= i < j < t.len() implies t[i].version_id
            < t[j].version_id by {
            if !is_pinned(s, id) {
                let a = if i < p { i } else { i - 1 };
                let b = if j < p { j } else { j - 1 };
                if i == p {
                    assert(s[b].version_id >= s[p].version_id);
                } else if j == p {
                } else {
                    assert(s[a].version_id < s[b].version_id);
                }
            }
        }
    }
    if is_pinned(s, x) {
        let q = position_of(s, x, 0);
        if is_pinned(s, id) {
            assert(t[q].version_id == x);
            lemma_position_finds(t, q);
        } else {
            let q2 = if q < p { q } else { q + 1 };
            assert(t[q2] == s[q]);
            lemma_position_finds(t, q2);
        }
    } else if x == id {
        assert(t[p].version_id == id);
        lemma_position_finds(t, p);
    } else {
        lemma_not_pinned(s, x);
        if is_pinned(t, x) {
            let q = position_of(t, x, 0);
            if is_pinned(s, id) {
                assert(s[q].version_id == x);
            } else if q < p {
                assert(s[q].version_id == x);
            } else {
                assert(s[q - 1].version_id == x);
            }
        }
    }
}

/// An unpin keeps the ledger ordered and takes one holder from the
/// version, if it has one, and from no other.
pub proof fn lemma_unpin_counts(s: Seq<PinEntry>, id: u64, x: u64)
    requires
        entries_ordered(s),
    ensures
        entries_ordered(spec_unpin(s, id)),
        count_of(spec_unpin(s, id), x) == if x == id && count_of(s, x) > 0 {
            count_of(s, x) - 1
        } else {
            count_of(s, x)
        },
{
    let p = position_of(s, id, 0);
    let t = spec_unpin(s, id);
    lemma_position(s, id, 0);
    lemma_position(s, x, 0);
    lemma_position(t, x, 0);
    lemma_position(t, id, 0);
    if is_pinned(s, id) {
        assert(entries_ordered(t)) by {
            assert forall|i: int, j: int| 0 <= i < j < t.len() implies t[i].version_id
                < t[j].version_id by {
                if s[p].count <= 1 {
                    let a = if i < p { i } else { i + 1 };
                    let b = if j < p { j } else { j + 1 };
                    assert(s[a].version_id < s[b].version_id);
                }
            }
            assert forall|i: int| 0 <= i < t.len() implies (#[trigger] t[i]).count >= 1 by {
                if s[p].count <= 1 {
                    let a = if i < p { i } else { i + 1 };
                    assert(t[i] == s[a]);
                }
            }
        }
        if s[p].count <= 1 {
            if x == id {
                if is_pinned(t, x) {
                    let q = position_of(t, x, 0);
                    let a = if q < p { q } else { q + 1 };
                    assert(s[a].version_id == id);
                    lemma_position_finds(s, a);
                }
            } else if is_pinned(s, x) {
                let q = position_of(s, x, 0);
                let q2 = if q < p { q } else { q - 1 };
                assert(t[q2] == s[q]);
                lemma_position_finds(t, q2);
            } else {
                lemma_not_pinned(s, x);
                if is_pinned(t, x) {
                    let q = position_of(t, x, 0);
                    let a = if q < p { q } else { q + 1 };
                    assert(s[a].version_id == x);
                }
            }
        } else {
            if is_pinned(s, x) {
                let q = position_of(s, x, 0);
                assert(t[q].version_id == x);
                lemma_position_finds(t, q);
            } else {
                lemma_not_pinned(s, x);
                if is_pinned(t, x) {
                    let q = position_of(t, x, 0);
                    assert(s[q].version_id == x);
                }
            }
        }
    }
}

/// The counts of pins are not negative and grow with the reports.
pub proof fn lemma_pins_of_grows(actions: Seq<PinVersionAction>, id: u64, n: int)
    requires
        0 <= n <= actions.len(),
    ensures
        0 <= pins_of(actions, id, n) <= pins_of(actions, id, actions.len() as int),
        0 <= unpins_of(actions, id, n) <= unpins_of(actions, id, actions.len() as int),
    decreases actions.len() - n,
{
    lemma_counts_nonnegative(actions, id, n);
    if n < actions.len() {
        lemma_pins_of_grows(actions, id, n + 1);
    }
}

proof fn lemma_counts_nonnegative(actions: Seq<PinVersionAction>, id: u64, n: int)
    ensures
        0 <= pins_of(actions, id, n),
        0 <= unpins_of(actions, id, n),
    decreases n,
{
    if n > 0 {
        lemma_counts_nonnegative(actions, id, n - 1);
    }
}

/// No version is pinned so often that its count leaves `usize`.
pub open spec fn pins_fit(s: Seq<PinEntry>, actions: Seq<PinVersionAction>) -> bool {
    forall|id: u64| count_of(s, id) + #[trigger] pins_of(actions, id, actions.len() as int) <= usize::MAX
}

/// The pins of a tick add up, version by version.
pub proof fn lemma_pins_applied_counts(
    s: Seq<PinEntry>,
    actions: Seq<PinVersionAction>,
    now: u64,
    n: int,
    x: u64,
)
    requires
        entries_ordered(s),
        pins_fit(s, actions),
        0 <= n <= actions.len(),
    ensures
        entries_ordered(pins_applied(s, actions, now, n)),
        count_of(pins_applied(s, actions, now, n), x) == count_of(s, x) + pins_of(actions, x, n),
    decreases n,
{
    if n > 0 {
        lemma_pins_applied_counts(s, actions, now, n - 1, x);
        match actions[n - 1] {
            PinVersionAction::Pin(id) => {
                lemma_pins_applied_counts(s, actions, now, n - 1, id);
                lemma_pins_of_grows(actions, id, n);
                assert(count_of(s, id) + pins_of(actions, id, actions.len() as int) <= usize::MAX);
                lemma_pin_counts(pins_applied(s, actions, now, n - 1), id, now, x);
            },
            PinVersionAction::Unpin(_) => {},
        }
    }
}

/// The unpins of a tick add up, version by version; a count never falls
/// below zero.
pub proof fn lemma_unpins_applied_counts(
    s: Seq<PinEntry>,
    actions: Seq<PinVersionAction>,
    n: int,
    x: u64,
)
    requires
        entries_ordered(s),
        0 <= n <= actions.len(),
    ensures
        entries_ordered(unpins_applied(s, actions, n)),
        count_of(unpins_applied(s, actions, n), x) == if count_of(s, x) >= unpins_of(actions, x, n) {
            count_of(s, x) - unpins_of(actions, x, n)
        } else {
            0
        },
    decreases n,
{
    if n > 0 {
        lemma_unpins_applied_counts(s, actions, n - 1, x);
        lemma_counts_nonnegative(actions, x, n - 1);
        match actions[n - 1] {
            PinVersionAction::Pin(_) => {},
            PinVersionAction::Unpin(id) => {
                lemma_unpin_counts(unpins_applied(s, actions, n - 1), id, x);
            },
        }
    }
}

/// Giving up expired versions keeps the ledger ordered.
pub proof fn lemma_without_expired_ordered(s: Seq<PinEntry>, now: u64, max_pinning_ms: u64)
    requires
        entries_ordered(s),
    ensures
        entries_ordered(without_expired(s, now, max_pinning_ms)),
    decreases s.len(),
{
    if s.len() > 1 && crate::pin_ledger::is_expired(s[0], now, max_pinning_ms) {
        let t = s.drop_first();
        assert(entries_ordered(t)) by {
            assert forall|i: int, j: int| 0 <= i < j < t.len() implies t[i].version_id
                < t[j].version_id by {
                assert(s[i + 1].version_id < s[j + 1].version_id);
            }
            assert forall|i: int| 0 <= i < t.len() implies (#[trigger] t[i]).count >= 1 by {
                assert(t[i] == s[i + 1]);
            }
        }
        lemma_without_expired_ordered(t, now, max_pinning_ms);
    }
}

/// Where no report is an unpin, no version is unpinned.
proof fn lemma_no_unpins(actions: Seq<PinVersionAction>, id: u64, n: int)
    requires
        !crate::pin_ledger::has_unpin(actions),
        0 <= n <= actions.len(),
    ensures
        unpins_of(actions, id, n) == 0,
    decreases n,
{
    if n > 0 {
        lemma_no_unpins(actions, id, n - 1);
        assert(!(actions[n - 1] is Unpin));
    }
}

/// In a tick in which no version expires, the ledger counts holders
/// exactly: a version that had `c` holders, was pinned `p` times and
/// unpinned `u` times, has `c + p - u` holders afterwards. Its entry leaves
/// the ledger exactly when every holder has let go.
pub proof fn law_ledger_counts_holders(
    ledger: LedgerView,
    now: u64,
    max_pinning_ms: u64,
    actions: Seq<PinVersionAction>,
    id: u64,
)
    requires
        entries_ordered(ledger.versions_in_use),
        without_expired(ledger.versions_in_use, now, max_pinning_ms) == ledger.versions_in_use,
        pins_fit(ledger.versions_in_use, actions),
        count_of(ledger.versions_in_use, id) + pins_of(actions, id, actions.len() as int)
            >= unpins_of(actions, id, actions.len() as int),
    ensures
        ({
            let after = spec_tick(ledger, now, max_pinning_ms, actions).0.versions_in_use;
            let holders = count_of(ledger.versions_in_use, id) + pins_of(
                actions,
                id,
                actions.len() as int,
            ) - unpins_of(actions, id, actions.len() as int);
            &&& entries_ordered(after)
            &&& count_of(after, id) == holders
            &&& is_pinned(after, id) <==> holders > 0
        }),
{
    let s = ledger.versions_in_use;
    let n = actions.len() as int;
    let pinned = pins_applied(s, actions, now, n);
    lemma_pins_applied_counts(s, actions, now, n, id);
    lemma_unpins_applied_counts(pinned, actions, n, id);
    let need = ledger.need_unpin || has_unpin_of(actions);
    if !need {
        lemma_no_unpins(actions, id, n);
    }
    let after = spec_tick(ledger, now, max_pinning_ms, actions).0.versions_in_use;
    lemma_position(after, id, 0);
    if is_pinned(after, id) {
        assert(after[position_of(after, id, 0)].count >= 1);
    }
}

/// One of the reports is an unpin.
pub open spec fn has_unpin_of(actions: Seq<PinVersionAction>) -> bool {
    crate::pin_ledger::has_unpin(actions)
}

/// The version that a tick names lies at or below every version that the
/// ledger still counts a holder for: what is given up is older than
/// everything in use.
pub proof fn law_unpin_before_spares_pinned(
    ledger: LedgerView,
    now: u64,
    max_pinning_ms: u64,
    actions: Seq<PinVersionAction>,
    id: u64,
)
    requires
        entries_ordered(ledger.versions_in_use),
        pins_fit(without_expired(ledger.versions_in_use, now, max_pinning_ms), actions),
        spec_tick(ledger, now, max_pinning_ms, actions).1 is Some,
        count_of(spec_tick(ledger, now, max_pinning_ms, actions).0.versions_in_use, id) > 0,
    ensures
        spec_tick(ledger, now, max_pinning_ms, actions).1->0 <= id,
        count_of(
            spec_tick(ledger, now, max_pinning_ms, actions).0.versions_in_use,
            spec_tick(ledger, now, max_pinning_ms, actions).1->0,
        ) > 0,
{
    let kept = without_expired(ledger.versions_in_use, now, max_pinning_ms);
    lemma_without_expired_ordered(ledger.versions_in_use, now, max_pinning_ms);
    let n = actions.len() as int;
    let pinned = pins_applied(kept, actions, now, n);
    lemma_pins_applied_counts(kept, actions, now, n, id);
    lemma_unpins_applied_counts(pinned, actions, n, id);
    let after = spec_tick(ledger, now, max_pinning_ms, actions).0.versions_in_use;
    lemma_position(after, id, 0);
    lemma_position_finds(after, 0);
    let p = position_of(after, id, 0);
    if p > 0 {
        assert(after[0].version_id < after[p].version_id);
    }
}

/// The ledger after a series of ticks, each given by its time, the limit
/// of that time and its reports, from a ledger without pinned versions.
/// Before each tick the mark that something is to be unpinned may have been
/// cleared; `cleared[i]` says whether it was before tick `i`.
pub open spec fn ledger_after(
    ticks: Seq<(u64, u64, Seq<PinVersionAction>)>,
    cleared: Seq<bool>,
) -> LedgerView
    decreases ticks.len(),
{
    if ticks.len() == 0 {
        LedgerView { versions_in_use: Seq::empty(), need_unpin: false }
    } else {
        let t = ticks.last();
        spec_tick(ledger_at_last(ticks, cleared), t.0, t.1, t.2).0
    }
}

/// The ledger that the last tick of a series starts from.
pub open spec fn ledger_at_last(
    ticks: Seq<(u64, u64, Seq<PinVersionAction>)>,
    cleared: Seq<bool>,
) -> LedgerView
    decreases ticks.len(), 0int,
    when ticks.len() > 0
{
    let before = ledger_after(ticks.drop_last(), cleared);
    let i = ticks.len() - 1;
    if i < cleared.len() && cleared[i] {
        LedgerView { need_unpin: false, ..before }
    } else {
        before
    }
}

/// Whatever ticks have come, the ledger lists its versions in ascending
/// order of their ids, each once and with one holder at least. So what the
/// laws on a single tick ask of the ledger holds of every ledger that the
/// worker can come to.
pub proof fn law_ledger_stays_ordered(
    ticks: Seq<(u64, u64, Seq<PinVersionAction>)>,
    cleared: Seq<bool>,
)
    ensures
        entries_ordered(ledger_after(ticks, cleared).versions_in_use),
    decreases ticks.len(),
{
    if ticks.len() > 0 {
        law_ledger_stays_ordered(ticks.drop_last(), cleared);
        let t = ticks.last();
        lemma_tick_keeps_order(ledger_at_last(ticks, cleared), t.0, t.1, t.2);
    }
}

/// Number of pins of `id` that the ticks of a series report.
pub open spec fn pins_over(ticks: Seq<(u64, u64, Seq<PinVersionAction>)>, id: u64) -> int
    decreases ticks.len(),
{
    if ticks.len() == 0 {
        0
    } else {
        pins_over(ticks.drop_last(), id) + pins_of(ticks.last().2, id, ticks.last().2.len() as int)
    }
}

/// Number of unpins of `id` that the ticks of a series report.
pub open spec fn unpins_over(ticks: Seq<(u64, u64, Seq<PinVersionAction>)>, id: u64) -> int
    decreases ticks.len(),
{
    if ticks.len() == 0 {
        0
    } else {
        unpins_over(ticks.drop_last(), id) + unpins_of(
            ticks.last().2,
            id,
            ticks.last().2.len() as int,
        )
    }
}

/// In no tick of the series a version expires or is pinned so often that
/// its count leaves `usize`, and in none the version `id` is unpinned more
/// often than holders are left to let go of it.
pub open spec fn ticks_only_count(
    ticks: Seq<(u64, u64, Seq<PinVersionAction>)>,
    cleared: Seq<bool>,
    id: u64,
) -> bool
    decreases ticks.len(),
{
    ticks.len() == 0 || {
        let start = ledger_at_last(ticks, cleared).versions_in_use;
        let t = ticks.last();
        &&& ticks_only_count(ticks.drop_last(), cleared, id)
        &&& without_expired(start, t.0, t.1) == start
        &&& pins_fit(start, t.2)
        &&& count_of(start, id) + pins_of(t.2, id, t.2.len() as int) >= unpins_of(
            t.2,
            id,
            t.2.len() as int,
        )
    }
}

/// Over a history of ticks in which no version expires, the ledger counts
/// holders exactly.
///
/// After the ticks the ledger counts for a version as many holders as the
/// ticks reported pins of it, less the unpins they reported. The version is
/// listed exactly while that number is positive: its entry leaves the
/// ledger if and only if every holder has let go.
pub proof fn law_ledger_counts_over_history(
    ticks: Seq<(u64, u64, Seq<PinVersionAction>)>,
    cleared: Seq<bool>,
    id: u64,
)
    requires
        ticks_only_count(ticks, cleared, id),
    ensures
        count_of(ledger_after(ticks, cleared).versions_in_use, id) == pins_over(ticks, id)
            - unpins_over(ticks, id),
        is_pinned(ledger_after(ticks, cleared).versions_in_use, id) <==> pins_over(ticks, id)
            > unpins_over(ticks, id),
    decreases ticks.len(),
{
    if ticks.len() > 0 {
        law_ledger_counts_over_history(ticks.drop_last(), cleared, id);
        law_ledger_stays_ordered(ticks.drop_last(), cleared);
        let start = ledger_at_last(ticks, cleared);
        let t = ticks.last();
        assert(start.versions_in_use == ledger_after(ticks.drop_last(), cleared).versions_in_use);
        law_ledger_counts_holders(start, t.0, t.1, t.2, id);
    } else {
        lemma_position(Seq::<PinEntry>::empty(), id, 0);
    }
}

/// A version keeps the time of its first pin, however often it is pinned
/// again.
pub proof fn law_pin_keeps_first_time(s: Seq<PinEntry>, id: u64, now: u64)
    requires
        entries_ordered(s),
        is_pinned(s, id),
    ensures
        is_pinned(spec_pin(s, id, now), id),
        spec_pin(s, id, now)[position_of(spec_pin(s, id, now), id, 0)].pinned_at == s[position_of(
            s,
            id,
            0,
        )].pinned_at,
{
    let p = position_of(s, id, 0);
    let t = spec_pin(s, id, now);
    lemma_pin_keeps_order(s, id, now);
    lemma_position(s, id, 0);
    assert(t[p].version_id == id);
    lemma_position_finds(t, p);
}

/// Giving up expired versions leaves an end of the list, and never the
/// empty one of a list that holds a version.
pub proof fn lemma_without_expired_is_end(s: Seq<PinEntry>, now: u64, max_pinning_ms: u64) -> (k: int)
    ensures
        0 <= k <= s.len(),
        without_expired(s, now, max_pinning_ms) == s.skip(k),
        s.len() > 0 ==> k < s.len(),
        s.len() > 1 && crate::pin_ledger::is_expired(s[0], now, max_pinning_ms) ==> k >= 1,
    decreases s.len(),
{
    if s.len() > 1 && crate::pin_ledger::is_expired(s[0], now, max_pinning_ms) {
        let k = lemma_without_expired_is_end(s.drop_first(), now, max_pinning_ms);
        assert(s.drop_first().skip(k) =~= s.skip(k + 1));
        k + 1
    } else {
        assert(s.skip(0) =~= s);
        0
    }
}

/// The oldest version is given up once it has been held for the limit of
/// time since its first pin, whether or not it still has holders and
/// however lately it was pinned again, unless it is the only version left.
pub proof fn law_held_too_long_is_given_up(s: Seq<PinEntry>, now: u64, max_pinning_ms: u64)
    requires
        entries_ordered(s),
        s.len() > 1,
        crate::pin_ledger::is_expired(s[0], now, max_pinning_ms),
    ensures
        !is_pinned(without_expired(s, now, max_pinning_ms), s[0].version_id),
        without_expired(s, now, max_pinning_ms).len() >= 1,
{
    let k = lemma_without_expired_is_end(s, now, max_pinning_ms);
    let t = without_expired(s, now, max_pinning_ms);
    lemma_position(t, s[0].version_id, 0);
    if is_pinned(t, s[0].version_id) {
        let p = position_of(t, s[0].version_id, 0);
        assert(t[p] == s[p + k]);
        assert(s[0].version_id < s[p + k].version_id);
    }
}

} // verus!
