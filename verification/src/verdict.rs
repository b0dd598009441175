//! The layout-compatibility verdict that a drift report collapses into.
use vstd::prelude::*;

use crate::drift::{ChangeKind, ChangeRecord, DriftCounts, DriftReport};

verus! {

/// The layout-compatibility verdict between an old and a new copybook. This is the key forensic
/// call: can a reader built against the **new** copybook still read records written under the
/// **old** one?
#[derive(Debug, Clone, Copy, PartialEq, Eq, Structural)]
pub enum Compatibility {
    /// The two layouts are byte-for-byte identical.
    Identical,
    /// Only additions, all at the tail; no pre-existing field moved, resized, retyped,
    /// relevelled, removed, or reordered. Old records remain readable -- the new fields simply read past the old
    /// record end.
    CompatibleExtension,
    /// At least one pre-existing field was moved, resized, retyped, relevelled, removed, or
    /// reordered (or an addition landed before the tail). On-disk layout is broken for existing readers.
    BreakingChange,
}

/// Some record is `Unchanged`, and every `Added` record comes after every `Unchanged` one: the
/// additions form a tail behind a retained anchor.
pub open spec fn additions_at_tail(s: Seq<ChangeRecord>) -> bool {
    &&& exists|u: int| 0 <= u < s.len() && s[u].change == ChangeKind::Unchanged
    &&& forall|a: int, u: int|
        0 <= a < s.len() && 0 <= u < s.len() && s[a].change == ChangeKind::Added && s[u].change
            == ChangeKind::Unchanged ==> u < a
}

/// The verdict on a report with the given counts and changes.
pub open spec fn verdict_of(counts: DriftCounts, s: Seq<ChangeRecord>) -> Compatibility {
    if counts.removed > 0 || counts.resized > 0 || counts.retyped > 0 || counts.moved > 0
        || counts.relevelled > 0 || counts.reordered > 0 {
        Compatibility::BreakingChange
    } else if counts.added == 0 {
        Compatibility::Identical
    } else if additions_at_tail(s) {
        Compatibility::CompatibleExtension
    } else {
        Compatibility::BreakingChange
    }
}

/// Collapse a [`DriftReport`] into a single [`Compatibility`] verdict.
///
/// - **Identical**: no counted change but `Unchanged`.
/// - **CompatibleExtension**: the only changes are `Added` fields, and every added field sits
///   *after* all retained fields in the report (a true tail append), with at least one retained.
/// - **BreakingChange**: anything else. Fail-closed.
pub fn compatibility(report: &DriftReport) -> (v: Compatibility)
    ensures
        v == verdict_of(report.counts, report.records()),
{
    let c = &report.counts;

    // Any change to a pre-existing field is, by definition, a break.
    if c.removed > 0 || c.resized > 0 || c.retyped > 0 || c.moved > 0 || c.relevelled > 0
        || c.reordered > 0 {
        return Compatibility::BreakingChange;
    }
    if c.added == 0 {
        // No additions and no structural changes -> identical layout.
        return Compatibility::Identical;
    }

    let ghost s = report.records();
    let n = report.changes.len();

    // The last retained (Unchanged) position.
    let mut last_retained: Option<usize> = None;
    let mut i: usize = 0;
    while i < n
        invariant
            n == report.changes@.len(),
            s == report.records(),
            i <= n,
            match last_retained {
                None => forall|u: int| 0 <= u < i ==> s[u].change != ChangeKind::Unchanged,
                Some(l) => l < i && s[l as int].change == ChangeKind::Unchanged && forall|u: int|
                    l < u < i ==> s[u].change != ChangeKind::Unchanged,
            },
        decreases n - i,
    {
        assert(s[i as int] == report.changes@[i as int]@);
        if report.changes[i].change == ChangeKind::Unchanged {
            last_retained = Some(i);
        }
        i = i + 1;
    }

    let additions_all_at_tail = match last_retained {
        // No retained field at all -- a wholly new layout is treated conservatively as
        // breaking, since there is no shared anchor proving old records remain readable.
        None => false,
        Some(last) => {
            let mut ok = true;
            let mut j: usize = 0;
            while j < n
                invariant
                    n == report.changes@.len(),
                    s == report.records(),
                    j <= n,
                    last < n,
                    s[last as int].change == ChangeKind::Unchanged,
                    forall|u: int| last < u < n ==> s[u].change != ChangeKind::Unchanged,
                    ok == forall|a: int|
                        0 <= a < j && s[a].change == ChangeKind::Added ==> last < a,
                decreases n - j,
            {
                assert(s[j as int] == report.changes@[j as int]@);
                if report.changes[j].change == ChangeKind::Added && j <= last {
                    ok = false;
                }
                j = j + 1;
            }
            ok
        },
    };
    assert(additions_all_at_tail == additions_at_tail(s));
    if additions_all_at_tail {
        Compatibility::CompatibleExtension
    } else {
        Compatibility::BreakingChange
    }
}

} // verus!
