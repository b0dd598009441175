//! What holds of `diff` and `compatibility` together: the verdict never overstates
//! compatibility, and the layouts it clears are the ones it should clear.
use vstd::prelude::*;

use crate::drift::{
    all_unchanged, classify_spec, count_name, match_of, count_kind, counts_agree, drift_records, field_rank, is_drift_report, is_nth,
    lemma_count_zero, lemma_nth_index_is, lemma_rank_prefix, names_of, new_field_record,
    new_field_records, position_of, removed_records, ChangeKind, ChangeRecord, DriftReport,
};
use crate::layout::{Copybook, Field};
use vstd::relations::injective_on;
use vstd::set_lib::lemma_map_size;
use crate::verdict::{additions_at_tail, verdict_of, Compatibility};

verus! {

/// Two fields occupy the same place in a layout: same name, level, offset, length and storage
/// class.
pub open spec fn same_layout(a: Field, b: Field) -> bool {
    &&& a.name@ == b.name@
    &&& a.level == b.level
    &&& a.offset == b.offset
    &&& a.len == b.len
    &&& a.kind == b.kind
}

/// `new` starts with the fields of `old`, each in the same place.
pub open spec fn extends_layout(old: Seq<Field>, new: Seq<Field>) -> bool {
    &&& old.len() <= new.len()
    &&& forall|i: int| 0 <= i < old.len() ==> same_layout(old[i], new[i])
}

/// Every change of the records is `Added` or `Unchanged`.
pub open spec fn only_added_or_unchanged(s: Seq<ChangeRecord>) -> bool {
    forall|i: int|
        0 <= i < s.len() ==> {
            let c = (#[trigger] s[i]).change;
            c == ChangeKind::Added || c == ChangeKind::Unchanged
        }
}

// ------------------------------------------------------------------------------------------
// Lemmas
// ------------------------------------------------------------------------------------------

/// The counters of the breaking kinds are all zero exactly when nothing but additions and
/// unchanged fields is recorded.
proof fn lemma_no_breaking_kind(s: Seq<ChangeRecord>)
    ensures
        (count_zero(s, ChangeKind::Removed) && count_zero(s, ChangeKind::Resized) && count_zero(
            s,
            ChangeKind::Retyped,
        ) && count_zero(s, ChangeKind::Moved) && count_zero(s, ChangeKind::Relevelled)
            && count_zero(s, ChangeKind::Reordered)) <==> only_added_or_unchanged(s),
{
    lemma_count_zero(s, ChangeKind::Removed);
    lemma_count_zero(s, ChangeKind::Resized);
    lemma_count_zero(s, ChangeKind::Retyped);
    lemma_count_zero(s, ChangeKind::Moved);
    lemma_count_zero(s, ChangeKind::Relevelled);
    lemma_count_zero(s, ChangeKind::Reordered);
}

spec fn count_zero(s: Seq<ChangeRecord>, k: ChangeKind) -> bool {
    crate::drift::count_kind(s, k) == 0
}

/// A report whose counts tally its changes: the six breaking counters are zero exactly when
/// only additions and unchanged fields are recorded, and all seven are zero but `unchanged`
/// exactly when every change is `Unchanged`.
proof fn lemma_zero_counts(report: DriftReport)
    requires
        counts_agree(report.counts, report.records()),
    ensures
        (report.counts.removed == 0 && report.counts.resized == 0 && report.counts.retyped == 0
            && report.counts.moved == 0 && report.counts.relevelled == 0
            && report.counts.reordered == 0) <==> only_added_or_unchanged(report.records()),
        (report.counts.added == 0 && report.counts.removed == 0 && report.counts.resized == 0
            && report.counts.retyped == 0 && report.counts.moved == 0
            && report.counts.relevelled == 0 && report.counts.reordered == 0) <==> all_unchanged(
            report.records(),
        ),
{
    let s = report.records();
    lemma_no_breaking_kind(s);
    lemma_count_zero(s, ChangeKind::Added);
}

/// The rank of a field among its namesakes is the same in any sequence that agrees with
/// `fields` up to and including that field.
pub(crate) proof fn lemma_rank_agrees(a: Seq<Field>, b: Seq<Field>, i: int)
    requires
        0 <= i < a.len(),
        i < b.len(),
        forall|k: int| 0 <= k <= i ==> a[k].name@ == b[k].name@,
    ensures
        field_rank(a, i) == field_rank(b, i),
{
    assert(names_of(a).take(i + 1) =~= names_of(b).take(i + 1));
    lemma_rank_prefix(names_of(a), names_of(b), i);
}

/// A name that no field bears has no occurrence of any rank.
proof fn lemma_name_absent(fields: Seq<Field>, name: Seq<char>)
    requires
        forall|k: int| 0 <= k < fields.len() ==> fields[k].name@ != name,
    ensures
        forall|r: nat| #[trigger] position_of(fields, name, r) is None,
{
    assert forall|r: nat, k: int| !is_nth(names_of(fields), name, r, k) by {
        if 0 <= k < fields.len() {
            assert(names_of(fields)[k] == fields[k].name@);
        }
    }
}

/// An occurrence of rank `r` exists exactly when the name occurs more than `r` times.
proof fn lemma_nth_bound(names: Seq<Seq<char>>, x: Seq<char>, r: nat, i: int)
    requires
        is_nth(names, x, r, i),
    ensures
        r < count_name(names, x),
{
    crate::drift::lemma_count_name_step(names, x, i);
    crate::drift::lemma_count_name_mono(names, x, i + 1, names.len() as int);
    assert(names.take(names.len() as int) =~= names);
}

pub(crate) proof fn lemma_nth_exists(names: Seq<Seq<char>>, x: Seq<char>, r: nat)
    requires
        r < count_name(names, x),
    ensures
        exists|i: int| is_nth(names, x, r, i),
    decreases names.len(),
{
    let d = names.drop_last();
    let last = names.len() - 1;
    if r < count_name(d, x) {
        lemma_nth_exists(d, x, r);
        let i = choose|i: int| is_nth(d, x, r, i);
        assert(d.take(i + 1) =~= names.take(i + 1));
        lemma_rank_prefix(d, names, i);
        assert(is_nth(names, x, r, i));
    } else {
        assert(names.take(last) =~= d);
        assert(is_nth(names, x, r, last));
    }
}

/// No name occurs on both sides a different number of times.
pub open spec fn no_surplus_namesakes(a: Seq<Field>, b: Seq<Field>) -> bool {
    forall|x: Seq<char>|
        #![trigger count_name(names_of(a), x), count_name(names_of(b), x)]
        count_name(names_of(a), x) == count_name(names_of(b), x) || count_name(names_of(a), x)
            == 0 || count_name(names_of(b), x) == 0
}

/// Without surplus namesakes, every matched new field is matched with its namesake of the same
/// rank.
proof fn lemma_no_surplus(old: Seq<Field>, new: Seq<Field>, i: int)
    requires
        no_surplus_namesakes(old, new) || no_surplus_namesakes(new, old),
        0 <= i < new.len(),
    ensures
        match_of(old, new[i].name@, field_rank(new, i)) == position_of(
            old,
            new[i].name@,
            field_rank(new, i),
        ),
{
    let x = new[i].name@;
    let r = field_rank(new, i);
    if position_of(old, x, r) is None {
        lemma_field_is_nth(new, i);
        lemma_nth_bound(names_of(new), x, r, i);
        if r < count_name(names_of(old), x) {
            lemma_nth_exists(names_of(old), x, r);
        }
        assert(count_name(names_of(old), x) == count_name(names_of(new), x) || count_name(
            names_of(old),
            x,
        ) == 0 || count_name(names_of(new), x) == 0);
        if position_of(old, x, 0) is Some {
            let p = position_of(old, x, 0)->0;
            lemma_nth_bound(names_of(old), x, 0, p);
        }
    }
}

/// The field at `j` is its name's occurrence of its own rank.
proof fn lemma_field_is_nth(fields: Seq<Field>, j: int)
    requires
        0 <= j < fields.len(),
    ensures
        is_nth(names_of(fields), fields[j].name@, field_rank(fields, j), j),
        position_of(fields, fields[j].name@, field_rank(fields, j)) == Some(j),
{
    assert(names_of(fields)[j] == fields[j].name@);
    lemma_nth_index_is(names_of(fields), fields[j].name@, field_rank(fields, j), j);
}

proof fn lemma_removed_all_removed(old: Seq<Field>, new: Seq<Field>)
    ensures
        forall|i: int|
            0 <= i < removed_records(old, new).len() ==> (#[trigger] removed_records(
                old,
                new,
            )[i]).change == ChangeKind::Removed,
    decreases old.len(),
{
    if old.len() > 0 {
        lemma_removed_all_removed(old.drop_last(), new);
    }
}

proof fn lemma_removed_empty(old: Seq<Field>, new: Seq<Field>)
    requires
        forall|j: int|
            0 <= j < old.len() ==> position_of(new, (#[trigger] old[j]).name@, field_rank(old, j))
                is Some,
    ensures
        removed_records(old, new).len() == 0,
    decreases old.len(),
{
    if old.len() > 0 {
        let d = old.drop_last();
        assert(position_of(new, old[old.len() - 1].name@, field_rank(old, old.len() - 1)) is Some);
        assert forall|j: int| 0 <= j < d.len() implies position_of(
            new,
            (#[trigger] d[j]).name@,
            field_rank(d, j),
        ) is Some by {
            assert(d[j] == old[j]);
            lemma_rank_agrees(d, old, j);
        }
        lemma_removed_empty(d, new);
    }
}

proof fn lemma_removed_nonempty(old: Seq<Field>, new: Seq<Field>, j: int)
    requires
        0 <= j < old.len(),
        position_of(new, old[j].name@, field_rank(old, j)) is None,
    ensures
        removed_records(old, new).len() > 0,
    decreases old.len(),
{
    if j < old.len() - 1 {
        let d = old.drop_last();
        assert(d[j] == old[j]);
        lemma_rank_agrees(d, old, j);
        lemma_removed_nonempty(d, new, j);
    }
}

/// When nothing but additions and unchanged fields is recorded, every old field is kept in
/// place and only fields past the old end can be additions.
proof fn lemma_only_added_or_unchanged(old: Seq<Field>, new: Seq<Field>)
    requires
        only_added_or_unchanged(drift_records(old, new)),
    ensures
        removed_records(old, new).len() == 0,
        extends_layout(old, new),
        forall|j: int|
            0 <= j < old.len() ==> (#[trigger] drift_records(old, new)[j]).change
                == ChangeKind::Unchanged,
        forall|k: int|
            0 <= k < new.len() && (#[trigger] drift_records(old, new)[k]).change
                == ChangeKind::Unchanged ==> k < old.len(),
{
    let s = drift_records(old, new);
    let np = new_field_records(old, new);
    if removed_records(old, new).len() > 0 {
        lemma_removed_all_removed(old, new);
        assert(s[np.len() as int] == removed_records(old, new)[0]);
    }
    assert forall|j: int| 0 <= j < old.len() implies position_of(
        new,
        (#[trigger] old[j]).name@,
        field_rank(old, j),
    ) is Some by {
        if position_of(new, old[j].name@, field_rank(old, j)) is None {
            lemma_removed_nonempty(old, new, j);
        }
    }
    // An unchanged new field sits where its old namesake sat.
    assert forall|k: int|
        0 <= k < new.len() && s[k].change == ChangeKind::Unchanged implies k < old.len()
        && same_layout(old[k], new[k]) by {
        assert(s[k] == new_field_record(old, new, k));
        let r = field_rank(new, k);
        let p = match_of(old, new[k].name@, r)->0;
        if position_of(old, new[k].name@, r) is Some {
            assert(is_nth(names_of(old), new[k].name@, r, p));
        } else {
            assert(is_nth(names_of(old), new[k].name@, 0, p));
        }
        assert(names_of(old)[p] == old[p].name@);
    }
    // Every old field is matched with a new field, which must be itself, unchanged.
    assert forall|j: int| 0 <= j < old.len() implies j < new.len() && (#[trigger] s[j]).change
        == ChangeKind::Unchanged by {
        let r = field_rank(old, j);
        let k = position_of(new, old[j].name@, r)->0;
        assert(is_nth(names_of(new), old[j].name@, r, k));
        assert(names_of(new)[k] == new[k].name@);
        lemma_field_is_nth(old, j);
        assert(s[k] == new_field_record(old, new, k));
        assert(match_of(old, new[k].name@, field_rank(new, k)) == Some(j));
        assert(s[k].change == ChangeKind::Unchanged);
        assert(k == j);
    }
}

// ------------------------------------------------------------------------------------------
// Laws
// ------------------------------------------------------------------------------------------

/// A report whose counts tally its changes is identical -- every change `Unchanged` -- exactly
/// when its verdict is `Identical`.
pub proof fn law_identical_iff_no_drift(report: DriftReport)
    requires
        counts_agree(report.counts, report.records()),
    ensures
        (verdict_of(report.counts, report.records()) == Compatibility::Identical)
            <==> all_unchanged(report.records()),
{
    lemma_zero_counts(report);
}

/// Fail-closed: an `Identical` verdict on a diff means the two layouts hold the same fields, in
/// the same order, each with the same name, level, offset, length and storage class.
pub proof fn law_identical_means_same_layout(old: Copybook, new: Copybook, report: DriftReport)
    requires
        is_drift_report(report, old, new),
        verdict_of(report.counts, report.records()) == Compatibility::Identical,
    ensures
        new.fields@.len() == old.fields@.len(),
        extends_layout(old.fields@, new.fields@),
{
    lemma_zero_counts(report);
    lemma_only_added_or_unchanged(old.fields@, new.fields@);
    if new.fields@.len() > old.fields@.len() {
        // a field past the old end would be unchanged, yet unchanged fields sit in the old range
        assert(report.records()[old.fields@.len() as int].change == ChangeKind::Unchanged);
    }
}

/// Fail-closed: a `CompatibleExtension` verdict on a diff means the new layout starts with
/// every old field, in the same order, each with the same name, level, offset, length and
/// storage class, and has more fields after them.
pub proof fn law_extension_means_old_layout_is_prefix(
    old: Copybook,
    new: Copybook,
    report: DriftReport,
)
    requires
        is_drift_report(report, old, new),
        verdict_of(report.counts, report.records()) == Compatibility::CompatibleExtension,
    ensures
        old.fields@.len() < new.fields@.len(),
        extends_layout(old.fields@, new.fields@),
{
    let s = report.records();
    lemma_zero_counts(report);
    lemma_count_zero(s, ChangeKind::Added);
    lemma_only_added_or_unchanged(old.fields@, new.fields@);
    let a = choose|a: int| 0 <= a < s.len() && s[a].change == ChangeKind::Added;
    assert(a < new.fields@.len());
}

/// In a tail append, the kept fields are unchanged and the appended ones added.
proof fn lemma_tail_change(o: Seq<Field>, n: Seq<Field>, i: int)
    requires
        extends_layout(o, n),
        forall|i: int, j: int|
            o.len() <= i < n.len() && 0 <= j < o.len() ==> n[i].name@ != o[j].name@,
        0 <= i < n.len(),
    ensures
        new_field_record(o, n, i).change == if i < o.len() {
            ChangeKind::Unchanged
        } else {
            ChangeKind::Added
        },
{
    if i < o.len() {
        lemma_rank_agrees(o, n, i);
        lemma_field_is_nth(o, i);
    } else {
        lemma_name_absent(o, n[i].name@);
    }
}

/// A new copybook that keeps every old field in place and only appends fields under names the
/// old copybook lacks is a `CompatibleExtension` of an old copybook with at least one field;
/// with nothing appended, the diff is identical and the verdict `Identical`.
pub proof fn law_tail_append_is_compatible(old: Copybook, new: Copybook, report: DriftReport)
    requires
        extends_layout(old.fields@, new.fields@),
        forall|i: int, j: int|
            old.fields@.len() <= i < new.fields@.len() && 0 <= j < old.fields@.len()
                ==> new.fields@[i].name@ != old.fields@[j].name@,
        is_drift_report(report, old, new),
    ensures
        new.fields@.len() == old.fields@.len() ==> all_unchanged(report.records())
            && verdict_of(report.counts, report.records()) == Compatibility::Identical,
        new.fields@.len() > old.fields@.len() && old.fields@.len() > 0 ==> verdict_of(
            report.counts,
            report.records(),
        ) == Compatibility::CompatibleExtension,
{
    let o = old.fields@;
    let n = new.fields@;
    let s = report.records();
    assert forall|j: int| 0 <= j < o.len() implies position_of(
        n,
        (#[trigger] o[j]).name@,
        field_rank(o, j),
    ) is Some by {
        lemma_rank_agrees(o, n, j);
        lemma_field_is_nth(n, j);
    }
    lemma_removed_empty(o, n);
    assert(s =~= new_field_records(o, n));
    assert forall|i: int| 0 <= i < s.len() implies (#[trigger] s[i]).change == if i < o.len() {
        ChangeKind::Unchanged
    } else {
        ChangeKind::Added
    } by {
        assert(s[i] == new_field_record(o, n, i));
        lemma_tail_change(o, n, i);
    }
    lemma_zero_counts(report);
    if n.len() > o.len() && o.len() > 0 {
        lemma_count_zero(s, ChangeKind::Added);
        assert(s[o.len() as int].change == ChangeKind::Added);
        assert(s[0].change == ChangeKind::Unchanged);
        assert(additions_at_tail(s));
    }
}

/// `diff` of a copybook against itself is identical, and its verdict is `Identical`.
pub proof fn law_self_diff_is_identical(c: Copybook, report: DriftReport)
    requires
        is_drift_report(report, c, c),
    ensures
        all_unchanged(report.records()),
        verdict_of(report.counts, report.records()) == Compatibility::Identical,
{
    law_tail_append_is_compatible(c, c, report);
}

/// When the two copybooks share no field name and are not both empty, the verdict is
/// `BreakingChange`: no anchor proves old records readable.
pub proof fn law_no_shared_name_is_breaking(old: Copybook, new: Copybook, report: DriftReport)
    requires
        forall|i: int, j: int|
            0 <= i < old.fields@.len() && 0 <= j < new.fields@.len() ==> old.fields@[i].name@
                != new.fields@[j].name@,
        old.fields@.len() > 0 || new.fields@.len() > 0,
        is_drift_report(report, old, new),
    ensures
        verdict_of(report.counts, report.records()) == Compatibility::BreakingChange,
{
    let o = old.fields@;
    let n = new.fields@;
    let s = report.records();
    lemma_count_zero(s, ChangeKind::Removed);
    lemma_count_zero(s, ChangeKind::Added);
    if o.len() > 0 {
        let r = field_rank(o, 0);
        assert forall|k: int| !is_nth(names_of(n), o[0].name@, r, k) by {
            if 0 <= k < n.len() {
                assert(names_of(n)[k] == n[k].name@);
            }
        }
        lemma_removed_nonempty(o, n, 0);
        lemma_removed_all_removed(o, n);
        assert(s[n.len() as int] == removed_records(o, n)[0]);
    } else {
        assert forall|i: int| 0 <= i < n.len() implies (#[trigger] s[i]).change
            == ChangeKind::Added by {
            assert(s[i] == new_field_record(o, n, i));
        }
        assert(s[0].change == ChangeKind::Added);
        assert(!additions_at_tail(s));
    }
}


// ------------------------------------------------------------------------------------------
// Diffing in the other direction
// ------------------------------------------------------------------------------------------

/// The positions of the records of `s` with change `k`.
spec fn positions_of(s: Seq<ChangeRecord>, k: ChangeKind) -> Set<int> {
    Set::new(|i: int| 0 <= i < s.len() && s[i].change == k)
}

/// The positions of the fields of `old` that have no namesake of their rank in `new`.
spec fn unmatched(old: Seq<Field>, new: Seq<Field>) -> Set<int> {
    Set::new(|j: int| 0 <= j < old.len() && position_of(new, old[j].name@, field_rank(old, j)) is None)
}

/// The position of the old field that the new field at `i` is matched with.
spec fn partner(old: Seq<Field>, new: Seq<Field>) -> spec_fn(int) -> int {
    |i: int| position_of(old, new[i].name@, field_rank(new, i))->0
}

proof fn lemma_count_as_set(s: Seq<ChangeRecord>, k: ChangeKind)
    ensures
        positions_of(s, k).finite(),
        positions_of(s, k).len() == count_kind(s, k),
    decreases s.len(),
{
    if s.len() == 0 {
        assert(positions_of(s, k) =~= Set::empty());
    } else {
        let d = s.drop_last();
        lemma_count_as_set(d, k);
        assert forall|i: int| 0 <= i < d.len() implies d[i] == s[i] by {}
        if s.last().change == k {
            assert(positions_of(s, k) =~= positions_of(d, k).insert(s.len() - 1));
        } else {
            assert(positions_of(s, k) =~= positions_of(d, k));
        }
    }
}

proof fn lemma_count_concat(s: Seq<ChangeRecord>, t: Seq<ChangeRecord>, k: ChangeKind)
    ensures
        count_kind(s + t, k) == count_kind(s, k) + count_kind(t, k),
    decreases t.len(),
{
    if t.len() > 0 {
        assert((s + t).drop_last() =~= s + t.drop_last());
        lemma_count_concat(s, t.drop_last(), k);
    }
}

proof fn lemma_count_all(s: Seq<ChangeRecord>, k: ChangeKind)
    requires
        forall|i: int| 0 <= i < s.len() ==> (#[trigger] s[i]).change == k,
    ensures
        count_kind(s, k) == s.len(),
    decreases s.len(),
{
    if s.len() > 0 {
        let d = s.drop_last();
        assert forall|i: int| 0 <= i < d.len() implies (#[trigger] d[i]).change == k by {
            assert(d[i] == s[i]);
        }
        lemma_count_all(d, k);
    }
}

proof fn lemma_removed_as_set(old: Seq<Field>, new: Seq<Field>)
    ensures
        unmatched(old, new).finite(),
        unmatched(old, new).len() == removed_records(old, new).len(),
    decreases old.len(),
{
    if old.len() == 0 {
        assert(unmatched(old, new) =~= Set::empty());
    } else {
        let d = old.drop_last();
        let last = old.len() - 1;
        lemma_removed_as_set(d, new);
        let u = unmatched(old, new);
        let ud = unmatched(d, new);
        assert forall|j: int| 0 <= j < last implies (#[trigger] u.contains(j)) == ud.contains(j) by {
            assert(d[j] == old[j]);
            lemma_rank_agrees(d, old, j);
        }
        if position_of(new, old[last].name@, field_rank(old, last)) is None {
            assert(u =~= ud.insert(last));
        } else {
            assert(u =~= ud);
        }
    }
}

/// The records of the new fields hold no removal, and the removal records nothing else.
proof fn lemma_split_counts(old: Seq<Field>, new: Seq<Field>, k: ChangeKind)
    ensures
        k != ChangeKind::Removed ==> count_kind(drift_records(old, new), k) == count_kind(
            new_field_records(old, new),
            k,
        ),
        count_kind(drift_records(old, new), ChangeKind::Removed) == removed_records(
            old,
            new,
        ).len(),
{
    let np = new_field_records(old, new);
    let rr = removed_records(old, new);
    lemma_removed_all_removed(old, new);
    lemma_count_concat(np, rr, k);
    lemma_count_concat(np, rr, ChangeKind::Removed);
    lemma_count_zero(rr, k);
    lemma_count_all(rr, ChangeKind::Removed);
    assert forall|i: int| 0 <= i < np.len() implies (#[trigger] np[i]).change
        != ChangeKind::Removed by {}
    lemma_count_zero(np, ChangeKind::Removed);
}

/// The new fields recorded as `k` (neither `Added` nor `Removed`) correspond one to one, by
/// matching, to the old fields recorded as `k` when the diff is taken the other way round.
proof fn lemma_matched_counts_agree(a: Seq<Field>, b: Seq<Field>, k: ChangeKind)
    requires
        no_surplus_namesakes(a, b),
        k != ChangeKind::Added,
        k != ChangeKind::Removed,
    ensures
        count_kind(new_field_records(a, b), k) == count_kind(new_field_records(b, a), k),
{
    let s1 = new_field_records(a, b);
    let s2 = new_field_records(b, a);
    let x = positions_of(s1, k);
    let y = positions_of(s2, k);
    let f = partner(a, b);
    lemma_count_as_set(s1, k);
    lemma_count_as_set(s2, k);
    // Matching a new field of rank r with the old field of that name and rank r is undone by
    // matching the other way round.
    assert forall|i: int| #[trigger] x.contains(i) implies y.contains(f(i)) && {
        let p = f(i);
        position_of(a, b[i].name@, field_rank(b, i)) == Some(p) && a[p].name@ == b[i].name@
            && field_rank(a, p) == field_rank(b, i)
    } by {
        assert(s1[i] == new_field_record(a, b, i));
        lemma_no_surplus(a, b, i);
        let p = f(i);
        assert(is_nth(names_of(a), b[i].name@, field_rank(b, i), p));
        assert(names_of(a)[p] == a[p].name@);
        lemma_field_is_nth(b, i);
        lemma_no_surplus(b, a, p);
        assert(s2[p] == new_field_record(b, a, p));
    }
    assert forall|p: int| #[trigger] y.contains(p) implies exists|i: int|
        x.contains(i) && p == f(i) by {
        assert(s2[p] == new_field_record(b, a, p));
        lemma_no_surplus(b, a, p);
        let i = position_of(b, a[p].name@, field_rank(a, p))->0;
        assert(is_nth(names_of(b), a[p].name@, field_rank(a, p), i));
        assert(names_of(b)[i] == b[i].name@);
        lemma_field_is_nth(a, p);
        lemma_no_surplus(a, b, i);
        assert(s1[i] == new_field_record(a, b, i));
        assert(x.contains(i));
    }
    assert(x.map(f) =~= y);
    assert forall|i1: int, i2: int|
        x.contains(i1) && x.contains(i2) && #[trigger] f(i1) == #[trigger] f(i2) implies i1
        == i2 by {
        let p = f(i1);
        lemma_field_is_nth(b, i1);
        lemma_field_is_nth(b, i2);
        crate::drift::lemma_nth_unique(names_of(b), a[p].name@, field_rank(a, p), i1, i2);
    }
    assert(injective_on(f, x));
    lemma_map_size(x, y, f);
}

/// When no name occurs on both sides a different number of times (in particular when each
/// side's names are distinct), diffing the other way round swaps the added and removed counts
/// and leaves every other count as it is.
pub proof fn law_reverse_diff_swaps_counts(
    a: Copybook,
    b: Copybook,
    forward: DriftReport,
    backward: DriftReport,
)
    requires
        is_drift_report(forward, a, b),
        is_drift_report(backward, b, a),
        no_surplus_namesakes(a.fields@, b.fields@),
    ensures
        forward.counts.added == backward.counts.removed,
        forward.counts.removed == backward.counts.added,
        forward.counts.resized == backward.counts.resized,
        forward.counts.retyped == backward.counts.retyped,
        forward.counts.moved == backward.counts.moved,
        forward.counts.relevelled == backward.counts.relevelled,
        forward.counts.reordered == backward.counts.reordered,
        forward.counts.unchanged == backward.counts.unchanged,
{
    let o = a.fields@;
    let n = b.fields@;
    // additions one way are removals the other way
    lemma_split_counts(o, n, ChangeKind::Added);
    lemma_split_counts(n, o, ChangeKind::Added);
    let s1 = new_field_records(o, n);
    let s2 = new_field_records(n, o);
    lemma_count_as_set(s1, ChangeKind::Added);
    lemma_count_as_set(s2, ChangeKind::Added);
    lemma_removed_as_set(n, o);
    lemma_removed_as_set(o, n);
    assert forall|i: int| 0 <= i < n.len() implies s1[i] == new_field_record(o, n, i) && match_of(
        o,
        n[i].name@,
        field_rank(n, i),
    ) == position_of(o, n[i].name@, field_rank(n, i)) by {
        lemma_no_surplus(o, n, i);
    }
    assert forall|i: int| 0 <= i < o.len() implies s2[i] == new_field_record(n, o, i) && match_of(
        n,
        o[i].name@,
        field_rank(o, i),
    ) == position_of(n, o[i].name@, field_rank(o, i)) by {
        lemma_no_surplus(n, o, i);
    }
    assert(positions_of(s1, ChangeKind::Added) =~= unmatched(n, o));
    assert(positions_of(s2, ChangeKind::Added) =~= unmatched(o, n));
    // matched fields are classified alike both ways
    assert forall|x: Field, p: int, y: Field, i: int|
        #[trigger] classify_spec(x, p, y, i) == #[trigger] classify_spec(y, i, x, p) by {}
    lemma_split_counts(o, n, ChangeKind::Resized);
    lemma_split_counts(n, o, ChangeKind::Resized);
    lemma_matched_counts_agree(o, n, ChangeKind::Resized);
    lemma_split_counts(o, n, ChangeKind::Retyped);
    lemma_split_counts(n, o, ChangeKind::Retyped);
    lemma_matched_counts_agree(o, n, ChangeKind::Retyped);
    lemma_split_counts(o, n, ChangeKind::Moved);
    lemma_split_counts(n, o, ChangeKind::Moved);
    lemma_matched_counts_agree(o, n, ChangeKind::Moved);
    lemma_split_counts(o, n, ChangeKind::Relevelled);
    lemma_split_counts(n, o, ChangeKind::Relevelled);
    lemma_matched_counts_agree(o, n, ChangeKind::Relevelled);
    lemma_split_counts(o, n, ChangeKind::Reordered);
    lemma_split_counts(n, o, ChangeKind::Reordered);
    lemma_matched_counts_agree(o, n, ChangeKind::Reordered);
    lemma_split_counts(o, n, ChangeKind::Unchanged);
    lemma_split_counts(n, o, ChangeKind::Unchanged);
    lemma_matched_counts_agree(o, n, ChangeKind::Unchanged);
}


} // verus!
