//! What each record of a diff says of the fields it describes: where they sit, and how the
//! two fields alone decide the change.
use vstd::prelude::*;

use crate::drift::{
    count_name, field_rank, is_drift_report, is_nth, match_of, names_of, new_field_record,
    position_of, removed_records, ChangeKind, DriftReport,
};
use crate::laws::lemma_nth_exists;
use crate::layout::{Copybook, Field};

verus! {

/// A name that some field bears occurs at least once.
proof fn lemma_name_present(names: Seq<Seq<char>>, x: Seq<char>, j: int)
    requires
        0 <= j < names.len(),
        names[j] == x,
    ensures
        0 < count_name(names, x),
{
    crate::drift::lemma_count_name_step(names, x, j);
    crate::drift::lemma_count_name_mono(names, x, j + 1, names.len() as int);
    assert(names.take(names.len() as int) =~= names);
}

/// How a new field and the old field it is compared with decide its change: a different storage
/// class is `Retyped` whatever else changed; with the same class, a different length is
/// `Resized`; then a different offset `Moved`; then a different position `Reordered`; then a
/// different level `Relevelled`; and only a field equal in all of these is `Unchanged`.
pub open spec fn decided_by(o: Field, p: int, n: Field, i: int, c: ChangeKind) -> bool {
    &&& (c == ChangeKind::Retyped <==> o.kind != n.kind)
    &&& (c == ChangeKind::Resized <==> o.kind == n.kind && o.len != n.len)
    &&& (c == ChangeKind::Moved <==> o.kind == n.kind && o.len == n.len && o.offset != n.offset)
    &&& (c == ChangeKind::Reordered <==> o.kind == n.kind && o.len == n.len && o.offset
        == n.offset && p != i)
    &&& (c == ChangeKind::Relevelled <==> o.kind == n.kind && o.len == n.len && o.offset
        == n.offset && p == i && o.level != n.level)
    &&& (c == ChangeKind::Unchanged <==> o.kind == n.kind && o.len == n.len && o.offset
        == n.offset && p == i && o.level == n.level)
}

/// The record of the new field at `i`, given the old field it is compared with.
proof fn lemma_record_of_new_field(old: Seq<Field>, new: Seq<Field>, i: int)
    requires
        0 <= i < new.len(),
    ensures
        ({
            let c = new_field_record(old, new, i);
            let x = new[i].name@;
            let r = field_rank(new, i);
            &&& c.field == x
            &&& c.new_offset == Some(new[i].offset)
            &&& (c.change == ChangeKind::Added <==> forall|j: int|
                0 <= j < old.len() ==> old[j].name@ != x)
            &&& c.change == ChangeKind::Added ==> c.old_offset is None
            &&& c.change != ChangeKind::Added ==> exists|p: int|
                {
                    &&& 0 <= p < old.len()
                    &&& old[p].name@ == x
                    &&& (count_name(names_of(old).take(p), x) == r || (count_name(names_of(old), x)
                        <= r && count_name(names_of(old).take(p), x) == 0))
                    &&& c.old_offset == Some(old[p].offset)
                    &&& decided_by(old[p], p, new[i], i, c.change)
                }
        }),
{
    let x = new[i].name@;
    let r = field_rank(new, i);
    let no = names_of(old);
    assert(names_of(new)[i] == x);
    match match_of(old, x, r) {
        None => {
            assert forall|j: int| 0 <= j < old.len() implies old[j].name@ != x by {
                if old[j].name@ == x {
                    assert(no[j] == x);
                    lemma_name_present(no, x, j);
                    lemma_nth_exists(no, x, 0);
                }
            }
        },
        Some(p) => {
            if position_of(old, x, r) is Some {
                assert(is_nth(no, x, r, p));
            } else {
                assert(is_nth(no, x, 0, p));
                if r < count_name(no, x) {
                    lemma_nth_exists(no, x, r);
                }
            }
            assert(no[p] == old[p].name@);
            let c = new_field_record(old, new, i);
            assert(c.change != ChangeKind::Added);
            assert(old[p].name@ == x);
            assert(c.change != ChangeKind::Added ==> exists|q: int|
                {
                    &&& 0 <= q < old.len()
                    &&& old[q].name@ == x
                    &&& (count_name(names_of(old).take(q), x) == r || (count_name(names_of(old), x)
                        <= r && count_name(names_of(old).take(q), x) == 0))
                    &&& c.old_offset == Some(old[q].offset)
                    &&& decided_by(old[q], q, new[i], i, c.change)
                }) by {
                assert(decided_by(old[p], p, new[i], i, c.change));
            }
        },
    }
}

/// For every field of the new copybook, `diff` records, at the field's own position in the
/// report, its name and its offset in the new copybook. The record is `Added` -- with no old
/// offset -- exactly when no old field bears the name. Otherwise the field is compared with an
/// old namesake: the one with as many namesakes before it as the new field has (the k-th with
/// the k-th), or the first one when the old copybook holds the name no more than that many
/// times. That namesake's offset is the record's old offset, and the two fields alone decide
/// the change: a different storage class is `Retyped` whatever else changed; with the same
/// class a different length is `Resized`, then a different offset `Moved`, then a different
/// position `Reordered`, then a different level `Relevelled`; a field equal in all of them is
/// `Unchanged`.
pub proof fn law_new_field_records(old: Copybook, new: Copybook, report: DriftReport)
    requires
        is_drift_report(report, old, new),
    ensures
        new.fields@.len() <= report.records().len(),
        forall|i: int|
            0 <= i < new.fields@.len() ==> {
                let c = #[trigger] report.records()[i];
                let o = old.fields@;
                let n = new.fields@;
                let x = n[i].name@;
                &&& c.field == x
                &&& c.new_offset == Some(n[i].offset)
                &&& (c.change == ChangeKind::Added <==> forall|j: int|
                    0 <= j < o.len() ==> o[j].name@ != x)
                &&& c.change == ChangeKind::Added ==> c.old_offset is None
                &&& c.change != ChangeKind::Added ==> exists|p: int|
                    {
                        &&& 0 <= p < o.len()
                        &&& o[p].name@ == x
                        &&& (count_name(names_of(o).take(p), x) == count_name(
                            names_of(n).take(i),
                            x,
                        ) || (count_name(names_of(o), x) <= count_name(names_of(n).take(i), x)
                            && count_name(names_of(o).take(p), x) == 0))
                        &&& c.old_offset == Some(o[p].offset)
                        &&& decided_by(o[p], p, n[i], i, c.change)
                    }
            },
{
    let o = old.fields@;
    let n = new.fields@;
    assert forall|i: int| 0 <= i < n.len() implies {
        let c = #[trigger] report.records()[i];
        let x = n[i].name@;
        &&& c.field == x
        &&& c.new_offset == Some(n[i].offset)
        &&& (c.change == ChangeKind::Added <==> forall|j: int|
            0 <= j < o.len() ==> o[j].name@ != x)
        &&& c.change == ChangeKind::Added ==> c.old_offset is None
        &&& c.change != ChangeKind::Added ==> exists|p: int|
            {
                &&& 0 <= p < o.len()
                &&& o[p].name@ == x
                &&& (count_name(names_of(o).take(p), x) == count_name(names_of(n).take(i), x) || (
                count_name(names_of(o), x) <= count_name(names_of(n).take(i), x) && count_name(
                    names_of(o).take(p),
                    x,
                ) == 0))
                &&& c.old_offset == Some(o[p].offset)
                &&& decided_by(o[p], p, n[i], i, c.change)
            }
    } by {
        assert(report.records()[i] == new_field_record(o, n, i));
        assert(names_of(n)[i] == n[i].name@);
        lemma_record_of_new_field(o, n, i);
    }
}

/// The records after those of the new fields are removals, one per old field whose name the
/// new copybook holds fewer times than it has namesakes before it plus one: each names an old
/// field of that kind, gives its offset as the old offset, and has no new offset.
pub proof fn law_removal_records(old: Copybook, new: Copybook, report: DriftReport)
    requires
        is_drift_report(report, old, new),
    ensures
        forall|k: int|
            new.fields@.len() <= k < report.records().len() ==> {
                let c = #[trigger] report.records()[k];
                &&& c.change == ChangeKind::Removed
                &&& c.new_offset is None
                &&& exists|j: int|
                    {
                        &&& 0 <= j < old.fields@.len()
                        &&& c.field == old.fields@[j].name@
                        &&& c.old_offset == Some(old.fields@[j].offset)
                        &&& count_name(names_of(new.fields@), c.field) <= count_name(
                            names_of(old.fields@).take(j),
                            c.field,
                        )
                    }
            },
{
    let o = old.fields@;
    let n = new.fields@;
    lemma_removal_sources(o, n);
    assert forall|k: int| n.len() <= k < report.records().len() implies {
        let c = #[trigger] report.records()[k];
        &&& c.change == ChangeKind::Removed
        &&& c.new_offset is None
        &&& exists|j: int|
            {
                &&& 0 <= j < o.len()
                &&& c.field == o[j].name@
                &&& c.old_offset == Some(o[j].offset)
                &&& count_name(names_of(n), c.field) <= count_name(names_of(o).take(j), c.field)
            }
    } by {
        let nl = n.len() as int;
        assert(report.records()[k] == removed_records(o, n)[k - nl]);
    }
}

/// Every removal record comes from an old field that the new copybook has no namesake of its
/// rank for.
proof fn lemma_removal_sources(old: Seq<Field>, new: Seq<Field>)
    ensures
        forall|k: int|
            0 <= k < removed_records(old, new).len() ==> {
                let c = #[trigger] removed_records(old, new)[k];
                &&& c.change == ChangeKind::Removed
                &&& c.new_offset is None
                &&& exists|j: int|
                    {
                        &&& 0 <= j < old.len()
                        &&& c.field == old[j].name@
                        &&& c.old_offset == Some(old[j].offset)
                        &&& count_name(names_of(new), c.field) <= count_name(
                            names_of(old).take(j),
                            c.field,
                        )
                    }
            },
    decreases old.len(),
{
    if old.len() > 0 {
        let d = old.drop_last();
        let last = old.len() - 1;
        lemma_removal_sources(d, new);
        let rr = removed_records(old, new);
        let rd = removed_records(d, new);
        assert forall|k: int| 0 <= k < rr.len() implies {
            let c = #[trigger] rr[k];
            &&& c.change == ChangeKind::Removed
            &&& c.new_offset is None
            &&& exists|j: int|
                {
                    &&& 0 <= j < old.len()
                    &&& c.field == old[j].name@
                    &&& c.old_offset == Some(old[j].offset)
                    &&& count_name(names_of(new), c.field) <= count_name(
                        names_of(old).take(j),
                        c.field,
                    )
                }
        } by {
            if k < rd.len() {
                let c = rd[k];
                let j = choose|j: int|
                    {
                        &&& 0 <= j < d.len()
                        &&& c.field == d[j].name@
                        &&& c.old_offset == Some(d[j].offset)
                        &&& count_name(names_of(new), c.field) <= count_name(
                            names_of(d).take(j),
                            c.field,
                        )
                    };
                assert(d[j] == old[j]);
                assert(names_of(d).take(j) =~= names_of(old).take(j));
                assert(rr[k] == c);
            } else {
                let x = old[last].name@;
                let r = field_rank(old, last);
                assert(position_of(new, x, r) is None);
                assert(names_of(old)[last] == x);
                if r < count_name(names_of(new), x) {
                    lemma_nth_exists(names_of(new), x, r);
                }
                assert(rr[k].field == old[last].name@);
            }
        }
    }
}

} // verus!
