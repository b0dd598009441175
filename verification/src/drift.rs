//! Per-field drift between two copybook versions: matching fields by name, classifying each
//! matched pair, and the report that `diff` produces.
use vstd::prelude::*;

use crate::layout::{Copybook, Field};
use crate::text::{decimal_text, kind_text, push_decimal, push_kind};

verus! {

/// How a single field changed between two copybook versions. Fields are matched **by name**; an
/// unmatched name on either side is [`ChangeKind::Added`] or [`ChangeKind::Removed`].
#[derive(Debug, Clone, Copy, PartialEq, Eq, Structural)]
#[non_exhaustive]
pub enum ChangeKind {
    /// Present in the new copybook, absent in the old.
    Added,
    /// Present in the old copybook, absent in the new.
    Removed,
    /// Byte length changed (widened/narrowed) -- shifts every following field.
    Resized,
    /// Storage `FieldKind` changed -- same span, different decode.
    Retyped,
    /// Byte offset changed while length and kind held -- the field moved on disk.
    Moved,
    /// Same offset/len/kind, but its ordinal position among the fields changed.
    Reordered,
    /// Level number changed while offset, length, kind and position held -- the field moved in
    /// the group hierarchy.
    Relevelled,
    /// Identical name, level, offset, length, kind, and position.
    Unchanged,
}

/// A located, classified per-field change.
#[derive(Debug, Clone, PartialEq, Eq)]
pub struct FieldChange {
    pub field: String,
    pub change: ChangeKind,
    /// Field's offset in the old copybook, when present there.
    pub old_offset: Option<usize>,
    /// Field's offset in the new copybook, when present there.
    pub new_offset: Option<usize>,
    /// Human-readable account of the change.
    pub detail: String,
}

/// Per-change drift counts, keyed by [`ChangeKind`].
#[derive(Debug, Clone, PartialEq, Eq)]
pub struct DriftCounts {
    pub added: usize,
    pub removed: usize,
    pub resized: usize,
    pub retyped: usize,
    pub moved: usize,
    pub relevelled: usize,
    pub reordered: usize,
    pub unchanged: usize,
}

impl Default for DriftCounts {
    fn default() -> (c: Self)
        ensures
            c == zero_counts(),
    {
        DriftCounts {
            added: 0,
            removed: 0,
            resized: 0,
            retyped: 0,
            moved: 0,
            relevelled: 0,
            reordered: 0,
            unchanged: 0,
        }
    }
}

/// The aggregate drift between two copybook versions: the ordered per-field changes plus counts.
#[derive(Debug, Clone, PartialEq, Eq)]
pub struct DriftReport {
    pub old_name: String,
    pub old_version: String,
    pub new_name: String,
    pub new_version: String,
    pub changes: Vec<FieldChange>,
    pub counts: DriftCounts,
}

/// The mathematical content of a [`FieldChange`].
pub struct ChangeRecord {
    pub field: Seq<char>,
    pub change: ChangeKind,
    pub old_offset: Option<usize>,
    pub new_offset: Option<usize>,
    pub detail: Seq<char>,
}

impl View for FieldChange {
    type V = ChangeRecord;

    open spec fn view(&self) -> ChangeRecord {
        ChangeRecord {
            field: self.field@,
            change: self.change,
            old_offset: self.old_offset,
            new_offset: self.new_offset,
            detail: self.detail@,
        }
    }
}

/// The records of a sequence of changes, in order.
pub open spec fn records_of(changes: Seq<FieldChange>) -> Seq<ChangeRecord> {
    changes.map_values(|c: FieldChange| c@)
}

impl DriftReport {
    /// The records of this report's changes, in order.
    pub open spec fn records(&self) -> Seq<ChangeRecord> {
        records_of(self.changes@)
    }
}

pub open spec fn zero_counts() -> DriftCounts {
    DriftCounts {
        added: 0,
        removed: 0,
        resized: 0,
        retyped: 0,
        moved: 0,
        relevelled: 0,
        reordered: 0,
        unchanged: 0,
    }
}

// ------------------------------------------------------------------------------------------
// Matching by name
// ------------------------------------------------------------------------------------------

/// The names of `fields`, in order.
pub open spec fn names_of(fields: Seq<Field>) -> Seq<Seq<char>> {
    fields.map_values(|f: Field| f.name@)
}

/// How many entries of `names` equal `name`.
pub open spec fn count_name(names: Seq<Seq<char>>, name: Seq<char>) -> nat
    decreases names.len(),
{
    if names.len() == 0 {
        0
    } else {
        count_name(names.drop_last(), name) + if names.last() == name {
            1nat
        } else {
            0nat
        }
    }
}

/// The occurrence rank of the entry at `i`: how many earlier entries bear the same name.
pub open spec fn rank_in(names: Seq<Seq<char>>, i: int) -> nat {
    count_name(names.take(i), names[i])
}

/// `i` is the position of the occurrence of `name` of rank `r` (`0` for the first).
pub open spec fn is_nth(names: Seq<Seq<char>>, name: Seq<char>, r: nat, i: int) -> bool {
    &&& 0 <= i < names.len()
    &&& names[i] == name
    &&& rank_in(names, i) == r
}

/// The position of the occurrence of `name` of rank `r` in `names`, if there is one.
pub open spec fn nth_index(names: Seq<Seq<char>>, name: Seq<char>, r: nat) -> Option<int> {
    if exists|i: int| is_nth(names, name, r, i) {
        Some(choose|i: int| is_nth(names, name, r, i))
    } else {
        None
    }
}

/// The position of the occurrence of `name` of rank `r` among `fields`, if there is one: the
/// namesake of the same rank. An old field is reported `Removed` exactly when the new copybook
/// has no namesake of its rank.
pub open spec fn position_of(fields: Seq<Field>, name: Seq<char>, r: nat) -> Option<int> {
    nth_index(names_of(fields), name, r)
}

/// The position of the old field that `diff` matches the new field of name `name` and rank `r`
/// with: the old namesake of the same rank if there is one, else the first old namesake (so a
/// new field whose name the old copybook holds fewer times is classified against the first of
/// them), else none: the new field is `Added` exactly when the old copybook lacks its name.
pub open spec fn match_of(old: Seq<Field>, name: Seq<char>, r: nat) -> Option<int> {
    match position_of(old, name, r) {
        Some(p) => Some(p),
        None => position_of(old, name, 0),
    }
}

/// The occurrence rank of the field at `i` among its namesakes in `fields`.
pub open spec fn field_rank(fields: Seq<Field>, i: int) -> nat {
    rank_in(names_of(fields), i)
}

pub proof fn lemma_count_name_step(names: Seq<Seq<char>>, name: Seq<char>, k: int)
    requires
        0 <= k < names.len(),
    ensures
        count_name(names.take(k + 1), name) == count_name(names.take(k), name) + if names[k]
            == name {
            1nat
        } else {
            0nat
        },
{
    assert(names.take(k + 1).drop_last() =~= names.take(k));
}

pub proof fn lemma_count_name_mono(names: Seq<Seq<char>>, name: Seq<char>, a: int, b: int)
    requires
        0 <= a <= b <= names.len(),
    ensures
        count_name(names.take(a), name) <= count_name(names.take(b), name),
    decreases b - a,
{
    if a < b {
        lemma_count_name_step(names, name, b - 1);
        lemma_count_name_mono(names, name, a, b - 1);
    }
}

/// An occurrence of a given rank sits at one position only.
pub proof fn lemma_nth_unique(names: Seq<Seq<char>>, name: Seq<char>, r: nat, i: int, k: int)
    requires
        is_nth(names, name, r, i),
        is_nth(names, name, r, k),
    ensures
        i == k,
{
    if i < k {
        lemma_count_name_step(names, name, i);
        lemma_count_name_mono(names, name, i + 1, k);
    } else if k < i {
        lemma_count_name_step(names, name, k);
        lemma_count_name_mono(names, name, k + 1, i);
    }
}

pub proof fn lemma_nth_index_is(names: Seq<Seq<char>>, name: Seq<char>, r: nat, i: int)
    requires
        is_nth(names, name, r, i),
    ensures
        nth_index(names, name, r) == Some(i),
{
    let k = choose|k: int| is_nth(names, name, r, k);
    lemma_nth_unique(names, name, r, i, k);
}

/// Ranks depend only on what precedes a position.
pub proof fn lemma_rank_prefix(a: Seq<Seq<char>>, b: Seq<Seq<char>>, i: int)
    requires
        0 <= i < a.len(),
        i < b.len(),
        a.take(i + 1) == b.take(i + 1),
    ensures
        rank_in(a, i) == rank_in(b, i),
        a[i] == b[i],
{
    assert(a.take(i) =~= a.take(i + 1).take(i));
    assert(b.take(i) =~= b.take(i + 1).take(i));
    assert(a[i] == a.take(i + 1)[i]);
    assert(b[i] == b.take(i + 1)[i]);
}

// ------------------------------------------------------------------------------------------
// Classification and accounts
// ------------------------------------------------------------------------------------------

/// The classification of a matched field, most severe first: storage class, then length, then
/// offset, then ordinal position, then level.
pub open spec fn classify_spec(of: Field, old_pos: int, nf: Field, new_pos: int) -> ChangeKind {
    if of.kind != nf.kind {
        ChangeKind::Retyped
    } else if of.len != nf.len {
        ChangeKind::Resized
    } else if of.offset != nf.offset {
        ChangeKind::Moved
    } else if old_pos != new_pos {
        ChangeKind::Reordered
    } else if of.level != nf.level {
        ChangeKind::Relevelled
    } else {
        ChangeKind::Unchanged
    }
}

/// The account of a field that only the new copybook has.
pub open spec fn added_text(f: Field) -> Seq<char> {
    "field added (level "@ + decimal_text(f.level as nat) + ", offset "@ + decimal_text(
        f.offset as nat,
    ) + ", len "@ + decimal_text(f.len as nat) + ")"@
}

/// The account of a field that only the old copybook has.
pub open spec fn removed_text(f: Field) -> Seq<char> {
    "field removed (was level "@ + decimal_text(f.level as nat) + ", offset "@ + decimal_text(
        f.offset as nat,
    ) + ", len "@ + decimal_text(f.len as nat) + ")"@
}

/// The account of a matched field that was classified as `change`.
pub open spec fn describe_text(of: Field, nf: Field, change: ChangeKind) -> Seq<char> {
    match change {
        ChangeKind::Retyped => "kind changed "@ + kind_text(of.kind) + " -> "@ + kind_text(
            nf.kind,
        ),
        ChangeKind::Resized => "byte length "@ + decimal_text(of.len as nat) + " -> "@
            + decimal_text(nf.len as nat) + " (shifts following fields)"@,
        ChangeKind::Moved => "offset "@ + decimal_text(of.offset as nat) + " -> "@ + decimal_text(
            nf.offset as nat,
        ) + " (field moved on disk)"@,
        ChangeKind::Relevelled => "level "@ + decimal_text(of.level as nat) + " -> "@
            + decimal_text(nf.level as nat) + " (field moved in the group hierarchy)"@,
        ChangeKind::Reordered => "field reordered among siblings (offset/len/kind held)"@,
        _ => "no change"@,
    }
}

/// What `diff` records for the field at `new_pos` of the new copybook.
pub open spec fn new_field_record(old: Seq<Field>, new: Seq<Field>, new_pos: int) -> ChangeRecord {
    let nf = new[new_pos];
    match match_of(old, nf.name@, field_rank(new, new_pos)) {
        None => ChangeRecord {
            field: nf.name@,
            change: ChangeKind::Added,
            old_offset: None,
            new_offset: Some(nf.offset),
            detail: added_text(nf),
        },
        Some(p) => {
            let of = old[p];
            let change = classify_spec(of, p, nf, new_pos);
            ChangeRecord {
                field: nf.name@,
                change,
                old_offset: Some(of.offset),
                new_offset: Some(nf.offset),
                detail: describe_text(of, nf, change),
            }
        },
    }
}

/// What `diff` records for an old field whose name the new copybook lacks.
pub open spec fn removed_record(f: Field) -> ChangeRecord {
    ChangeRecord {
        field: f.name@,
        change: ChangeKind::Removed,
        old_offset: Some(f.offset),
        new_offset: None,
        detail: removed_text(f),
    }
}

/// The records of the new copybook's fields, in new-copybook order.
pub open spec fn new_field_records(old: Seq<Field>, new: Seq<Field>) -> Seq<ChangeRecord> {
    Seq::new(new.len(), |i: int| new_field_record(old, new, i))
}

/// The removal records of the old fields whose names the new copybook lacks, in old-copybook
/// order.
pub open spec fn removed_records(old: Seq<Field>, new: Seq<Field>) -> Seq<ChangeRecord>
    decreases old.len(),
{
    if old.len() == 0 {
        Seq::empty()
    } else {
        let rest = removed_records(old.drop_last(), new);
        if position_of(new, old.last().name@, field_rank(old, old.len() - 1)) is None {
            rest.push(removed_record(old.last()))
        } else {
            rest
        }
    }
}

/// Every change between `old` and `new`: the records of the new fields, in new-copybook
/// order, followed by the removal records.
pub open spec fn drift_records(old: Seq<Field>, new: Seq<Field>) -> Seq<ChangeRecord> {
    new_field_records(old, new) + removed_records(old, new)
}

/// How many records of `s` have change `k`.
pub open spec fn count_kind(s: Seq<ChangeRecord>, k: ChangeKind) -> nat
    decreases s.len(),
{
    if s.len() == 0 {
        0
    } else {
        count_kind(s.drop_last(), k) + if s.last().change == k {
            1nat
        } else {
            0nat
        }
    }
}

/// `counts` tallies the changes of `s` kind by kind.
pub open spec fn counts_agree(counts: DriftCounts, s: Seq<ChangeRecord>) -> bool {
    &&& counts.added == count_kind(s, ChangeKind::Added)
    &&& counts.removed == count_kind(s, ChangeKind::Removed)
    &&& counts.resized == count_kind(s, ChangeKind::Resized)
    &&& counts.retyped == count_kind(s, ChangeKind::Retyped)
    &&& counts.moved == count_kind(s, ChangeKind::Moved)
    &&& counts.relevelled == count_kind(s, ChangeKind::Relevelled)
    &&& counts.reordered == count_kind(s, ChangeKind::Reordered)
    &&& counts.unchanged == count_kind(s, ChangeKind::Unchanged)
}

/// `counts` with the counter of `change` one higher.
pub open spec fn bumped(counts: DriftCounts, change: ChangeKind) -> DriftCounts {
    match change {
        ChangeKind::Added => DriftCounts { added: (counts.added + 1) as usize, ..counts },
        ChangeKind::Removed => DriftCounts { removed: (counts.removed + 1) as usize, ..counts },
        ChangeKind::Resized => DriftCounts { resized: (counts.resized + 1) as usize, ..counts },
        ChangeKind::Retyped => DriftCounts { retyped: (counts.retyped + 1) as usize, ..counts },
        ChangeKind::Moved => DriftCounts { moved: (counts.moved + 1) as usize, ..counts },
        ChangeKind::Relevelled => DriftCounts {
            relevelled: (counts.relevelled + 1) as usize,
            ..counts
        },
        ChangeKind::Reordered => DriftCounts {
            reordered: (counts.reordered + 1) as usize,
            ..counts
        },
        ChangeKind::Unchanged => DriftCounts {
            unchanged: (counts.unchanged + 1) as usize,
            ..counts
        },
    }
}

/// The counter of `change` in `counts`.
pub open spec fn counter(counts: DriftCounts, change: ChangeKind) -> usize {
    match change {
        ChangeKind::Added => counts.added,
        ChangeKind::Removed => counts.removed,
        ChangeKind::Resized => counts.resized,
        ChangeKind::Retyped => counts.retyped,
        ChangeKind::Moved => counts.moved,
        ChangeKind::Relevelled => counts.relevelled,
        ChangeKind::Reordered => counts.reordered,
        ChangeKind::Unchanged => counts.unchanged,
    }
}

/// `report` is what `diff` produces for `old` and `new`.
pub open spec fn is_drift_report(report: DriftReport, old: Copybook, new: Copybook) -> bool {
    &&& report.old_name@ == old.name@
    &&& report.old_version@ == old.version@
    &&& report.new_name@ == new.name@
    &&& report.new_version@ == new.version@
    &&& report.records() == drift_records(old.fields@, new.fields@)
    &&& counts_agree(report.counts, report.records())
}

/// Every change of the records is `Unchanged`.
pub open spec fn all_unchanged(s: Seq<ChangeRecord>) -> bool {
    forall|i: int| 0 <= i < s.len() ==> s[i].change == ChangeKind::Unchanged
}


// ------------------------------------------------------------------------------------------
// Facts about the records
// ------------------------------------------------------------------------------------------

pub proof fn lemma_count_push(s: Seq<ChangeRecord>, r: ChangeRecord, k: ChangeKind)
    ensures
        count_kind(s.push(r), k) == count_kind(s, k) + if r.change == k {
            1nat
        } else {
            0nat
        },
{
    assert(s.push(r).drop_last() =~= s);
}

pub proof fn lemma_counts_push(counts: DriftCounts, s: Seq<ChangeRecord>, r: ChangeRecord)
    requires
        counts_agree(counts, s),
        counter(counts, r.change) < usize::MAX,
    ensures
        counts_agree(bumped(counts, r.change), s.push(r)),
{
    lemma_count_push(s, r, ChangeKind::Added);
    lemma_count_push(s, r, ChangeKind::Removed);
    lemma_count_push(s, r, ChangeKind::Resized);
    lemma_count_push(s, r, ChangeKind::Retyped);
    lemma_count_push(s, r, ChangeKind::Moved);
    lemma_count_push(s, r, ChangeKind::Relevelled);
    lemma_count_push(s, r, ChangeKind::Reordered);
    lemma_count_push(s, r, ChangeKind::Unchanged);
}

pub proof fn lemma_count_le_len(s: Seq<ChangeRecord>, k: ChangeKind)
    ensures
        count_kind(s, k) <= s.len(),
    decreases s.len(),
{
    if s.len() > 0 {
        lemma_count_le_len(s.drop_last(), k);
    }
}

/// A kind occurs in no record exactly when its count is zero.
pub proof fn lemma_count_zero(s: Seq<ChangeRecord>, k: ChangeKind)
    ensures
        (count_kind(s, k) == 0) <==> (forall|i: int| 0 <= i < s.len() ==> s[i].change != k),
    decreases s.len(),
{
    if s.len() > 0 {
        lemma_count_zero(s.drop_last(), k);
        if count_kind(s, k) == 0 {
            assert forall|i: int| 0 <= i < s.len() implies s[i].change != k by {
                if i < s.len() - 1 {
                    assert(s[i] == s.drop_last()[i]);
                }
            }
        } else {
            if s.last().change != k {
                let i = choose|i: int| 0 <= i < s.len() - 1 && s.drop_last()[i].change == k;
                assert(s[i] == s.drop_last()[i]);
            }
        }
    }
}

pub proof fn lemma_removed_records_step(old: Seq<Field>, new: Seq<Field>, j: int)
    requires
        0 <= j < old.len(),
    ensures
        removed_records(old.take(j + 1), new) == if position_of(
            new,
            old[j].name@,
            field_rank(old, j),
        ) is None {
            removed_records(old.take(j), new).push(removed_record(old[j]))
        } else {
            removed_records(old.take(j), new)
        },
{
    assert(old.take(j + 1).drop_last() =~= old.take(j));
    assert(old.take(j + 1).last() == old[j]);
    assert(names_of(old.take(j + 1)).take(j + 1) =~= names_of(old).take(j + 1));
    lemma_rank_prefix(names_of(old.take(j + 1)), names_of(old), j);
}

// ------------------------------------------------------------------------------------------
// Executable functions
// ------------------------------------------------------------------------------------------

/// The names of an index built by `index_by_name`, in order.
pub open spec fn index_names<'a>(idx: Seq<(&'a String, usize, &'a Field)>) -> Seq<Seq<char>> {
    idx.map_values(|e: (&'a String, usize, &'a Field)| e.0@)
}

/// Build a lookup from field name to (ordinal index, field).
fn index_by_name<'a>(fields: &'a [Field]) -> (idx: Vec<(&'a String, usize, &'a Field)>)
    ensures
        idx@.len() == fields@.len(),
        forall|i: int|
            0 <= i < fields@.len() ==> (#[trigger] idx@[i]).0@ == fields@[i].name@ && idx@[i].1
                == i && *idx@[i].2 == fields@[i],
{
    let mut idx: Vec<(&'a String, usize, &'a Field)> = Vec::new();
    let mut i: usize = 0;
    while i < fields.len()
        invariant
            i <= fields@.len(),
            idx@.len() == i,
            forall|k: int|
                0 <= k < i ==> (#[trigger] idx@[k]).0@ == fields@[k].name@ && idx@[k].1 == k
                    && *idx@[k].2 == fields@[k],
        decreases fields@.len() - i,
    {
        let f = &fields[i];
        idx.push((&f.name, i, f));
        i = i + 1;
    }
    idx
}

/// The occurrence rank of the entry at `pos` of `idx` among its namesakes.
fn rank_of<'a>(idx: &'a [(&'a String, usize, &'a Field)], pos: usize) -> (r: usize)
    requires
        pos < idx@.len(),
    ensures
        r == rank_in(index_names(idx@), pos as int),
{
    let ghost names = index_names(idx@);
    let name = idx[pos].0;
    assert(names[pos as int] == name@);
    let mut r: usize = 0;
    let mut k: usize = 0;
    while k < pos
        invariant
            pos < idx@.len(),
            names == index_names(idx@),
            names[pos as int] == name@,
            k <= pos,
            r == count_name(names.take(k as int), name@),
            r <= k,
        decreases pos - k,
    {
        assert(names[k as int] == idx@[k as int].0@);
        proof {
            lemma_count_name_step(names, name@, k as int);
        }
        if *idx[k].0 == *name {
            r = r + 1;
        }
        k = k + 1;
    }
    r
}

/// The (ordinal index, field) of the entry of `idx` that is the occurrence of `name` of rank
/// `rank`, if any.
fn find<'a>(idx: &'a [(&'a String, usize, &'a Field)], name: &String, rank: usize) -> (r: Option<
    (usize, &'a Field),
>)
    ensures
        match nth_index(index_names(idx@), name@, rank as nat) {
            None => r is None,
            Some(k) => r == Some((idx@[k].1, idx@[k].2)),
        },
{
    let ghost names = index_names(idx@);
    let mut seen: usize = 0;
    let mut k: usize = 0;
    while k < idx.len()
        invariant
            k <= idx@.len(),
            names == index_names(idx@),
            seen == count_name(names.take(k as int), name@),
            seen <= k,
            forall|j: int| 0 <= j < k ==> !is_nth(names, name@, rank as nat, j),
        decreases idx@.len() - k,
    {
        let e = &idx[k];
        assert(names[k as int] == e.0@);
        proof {
            lemma_count_name_step(names, name@, k as int);
        }
        if *e.0 == *name {
            if seen == rank {
                proof {
                    assert(is_nth(names, name@, rank as nat, k as int));
                    lemma_nth_index_is(names, name@, rank as nat, k as int);
                }
                return Some((e.1, e.2));
            }
            seen = seen + 1;
        }
        k = k + 1;
    }
    None
}

/// Classify a matched field. Most-severe-wins: a field that is both retyped and resized reports
/// `Retyped`, the more fundamental break.
fn classify(of: &Field, old_pos: usize, nf: &Field, new_pos: usize) -> (c: ChangeKind)
    ensures
        c == classify_spec(*of, old_pos as int, *nf, new_pos as int),
{
    if of.kind != nf.kind {
        ChangeKind::Retyped
    } else if of.len != nf.len {
        ChangeKind::Resized
    } else if of.offset != nf.offset {
        ChangeKind::Moved
    } else if old_pos != new_pos {
        ChangeKind::Reordered
    } else if of.level != nf.level {
        ChangeKind::Relevelled
    } else {
        ChangeKind::Unchanged
    }
}

/// The account of a matched field classified as `change` (never `Added` or `Removed`).
fn describe(of: &Field, nf: &Field, change: ChangeKind) -> (d: String)
    requires
        change != ChangeKind::Added,
        change != ChangeKind::Removed,
    ensures
        d@ == describe_text(*of, *nf, change),
{
    match change {
        ChangeKind::Retyped => {
            let mut d = "kind changed ".to_owned();
            push_kind(&mut d, &of.kind);
            d.append(" -> ");
            push_kind(&mut d, &nf.kind);
            d
        },
        ChangeKind::Resized => {
            let mut d = "byte length ".to_owned();
            push_decimal(&mut d, of.len as u64);
            d.append(" -> ");
            push_decimal(&mut d, nf.len as u64);
            d.append(" (shifts following fields)");
            d
        },
        ChangeKind::Moved => {
            let mut d = "offset ".to_owned();
            push_decimal(&mut d, of.offset as u64);
            d.append(" -> ");
            push_decimal(&mut d, nf.offset as u64);
            d.append(" (field moved on disk)");
            d
        },
        ChangeKind::Relevelled => {
            let mut d = "level ".to_owned();
            push_decimal(&mut d, of.level as u64);
            d.append(" -> ");
            push_decimal(&mut d, nf.level as u64);
            d.append(" (field moved in the group hierarchy)");
            d
        },
        ChangeKind::Reordered => "field reordered among siblings (offset/len/kind held)".to_owned(),
        _ => "no change".to_owned(),
    }
}

/// The account of a field that only the new copybook has.
fn added_detail(f: &Field) -> (d: String)
    ensures
        d@ == added_text(*f),
{
    let mut d = "field added (level ".to_owned();
    push_decimal(&mut d, f.level as u64);
    d.append(", offset ");
    push_decimal(&mut d, f.offset as u64);
    d.append(", len ");
    push_decimal(&mut d, f.len as u64);
    d.append(")");
    d
}

/// The account of a field that only the old copybook has.
fn removed_detail(f: &Field) -> (d: String)
    ensures
        d@ == removed_text(*f),
{
    let mut d = "field removed (was level ".to_owned();
    push_decimal(&mut d, f.level as u64);
    d.append(", offset ");
    push_decimal(&mut d, f.offset as u64);
    d.append(", len ");
    push_decimal(&mut d, f.len as u64);
    d.append(")");
    d
}

/// Raise the counter of `change` by one.
fn bump(counts: &mut DriftCounts, change: ChangeKind)
    requires
        counter(*old(counts), change) < usize::MAX,
    ensures
        *final(counts) == bumped(*old(counts), change),
{
    match change {
        ChangeKind::Added => counts.added += 1,
        ChangeKind::Removed => counts.removed += 1,
        ChangeKind::Resized => counts.resized += 1,
        ChangeKind::Retyped => counts.retyped += 1,
        ChangeKind::Moved => counts.moved += 1,
        ChangeKind::Relevelled => counts.relevelled += 1,
        ChangeKind::Reordered => counts.reordered += 1,
        ChangeKind::Unchanged => counts.unchanged += 1,
    }
}


impl DriftReport {
    /// `true` when every field is [`ChangeKind::Unchanged`].
    pub fn is_identical(&self) -> (b: bool)
        ensures
            b == all_unchanged(self.records()),
    {
        let mut i: usize = 0;
        while i < self.changes.len()
            invariant
                i <= self.changes@.len(),
                forall|k: int| 0 <= k < i ==> self.records()[k].change == ChangeKind::Unchanged,
            decreases self.changes@.len() - i,
        {
            assert(self.records()[i as int] == self.changes@[i as int]@);
            if self.changes[i].change != ChangeKind::Unchanged {
                return false;
            }
            i = i + 1;
        }
        true
    }
}

/// Diff two copybook versions and classify every field's drift.
///
/// Matching is **by name**: the k-th field of a given name in the new copybook is matched with
/// the k-th field of that name in the old one, so a repeated name (such as `FILLER`) pairs up
/// in order; a new field whose name the old copybook holds fewer times is matched with the
/// first old field of that name. For each matched field, the change is determined in priority
/// order (most severe first): `Retyped`, `Resized`, `Moved`, `Reordered`, `Relevelled`, and
/// finally `Unchanged`. A new field whose name the old copybook lacks is `Added`; an old field
/// whose name the new copybook holds fewer times than its rank requires is `Removed`. The
/// changes of the new copybook's fields come first, in new-copybook order, then the removals,
/// in old-copybook order; the counts tally the changes.
pub fn diff(old: &Copybook, new: &Copybook) -> (report: DriftReport)
    ensures
        is_drift_report(report, *old, *new),
{
    let ghost olds = old.fields@;
    let ghost news = new.fields@;
    let old_idx = index_by_name(old.fields.as_slice());
    let new_idx = index_by_name(new.fields.as_slice());
    assert(index_names(old_idx@) =~= names_of(olds));
    assert(index_names(new_idx@) =~= names_of(news));
    let mut changes: Vec<FieldChange> = Vec::new();
    let mut counts = DriftCounts::default();

    // Walk the new copybook in order: matched fields classify by structural change; new names
    // are Added.
    let mut new_pos: usize = 0;
    while new_pos < new.fields.len()
        invariant
            olds == old.fields@,
            news == new.fields@,
            new_pos <= news.len(),
            index_names(old_idx@) == names_of(olds),
            index_names(new_idx@) == names_of(news),
            new_idx@.len() == news.len(),
            old_idx@.len() == olds.len(),
            forall|i: int|
                0 <= i < olds.len() ==> (#[trigger] old_idx@[i]).1 == i && *old_idx@[i].2
                    == olds[i],
            records_of(changes@) =~= new_field_records(olds, news).take(new_pos as int),
            counts_agree(counts, records_of(changes@)),
        decreases news.len() - new_pos,
    {
        let nf = &new.fields[new_pos];
        let ghost before = records_of(changes@);
        let rec;
        let rank = rank_of(new_idx.as_slice(), new_pos);
        let matched = match find(old_idx.as_slice(), &nf.name, rank) {
            Some(m) => Some(m),
            None => find(old_idx.as_slice(), &nf.name, 0),
        };
        match matched {
            None => {
                rec = FieldChange {
                    field: nf.name.clone(),
                    change: ChangeKind::Added,
                    old_offset: None,
                    new_offset: Some(nf.offset),
                    detail: added_detail(nf),
                };
            },
            Some((old_pos, of)) => {
                let change = classify(of, old_pos, nf, new_pos);
                rec = FieldChange {
                    field: nf.name.clone(),
                    change,
                    old_offset: Some(of.offset),
                    new_offset: Some(nf.offset),
                    detail: describe(of, nf, change),
                };
            },
        }
        assert(rec@ == new_field_record(olds, news, new_pos as int));
        proof {
            lemma_count_le_len(before, rec.change);
            lemma_counts_push(counts, before, rec@);
        }
        bump(&mut counts, rec.change);
        changes.push(rec);
        assert(records_of(changes@) =~= before.push(rec@));
        new_pos = new_pos + 1;
    }
    assert(new_field_records(olds, news).take(news.len() as int) =~= new_field_records(olds, news));
    proof {
        let s = records_of(changes@);
        assert forall|i: int| 0 <= i < s.len() implies s[i].change != ChangeKind::Removed by {
            assert(s[i] == new_field_record(olds, news, i));
        }
        lemma_count_zero(s, ChangeKind::Removed);
    }

    // Names present in old but absent in new are Removed.
    let mut old_pos: usize = 0;
    while old_pos < old.fields.len()
        invariant
            olds == old.fields@,
            news == new.fields@,
            old_pos <= olds.len(),
            index_names(new_idx@) == names_of(news),
            index_names(old_idx@) == names_of(olds),
            old_idx@.len() == olds.len(),
            records_of(changes@) =~= new_field_records(olds, news) + removed_records(
                olds.take(old_pos as int),
                news,
            ),
            counts_agree(counts, records_of(changes@)),
            counts.removed <= old_pos,
        decreases olds.len() - old_pos,
    {
        let of = &old.fields[old_pos];
        proof {
            lemma_removed_records_step(olds, news, old_pos as int);
        }
        let rank = rank_of(old_idx.as_slice(), old_pos);
        if find(new_idx.as_slice(), &of.name, rank).is_none() {
            let ghost before = records_of(changes@);
            let rec = FieldChange {
                field: of.name.clone(),
                change: ChangeKind::Removed,
                old_offset: Some(of.offset),
                new_offset: None,
                detail: removed_detail(of),
            };
            assert(rec@ == removed_record(olds[old_pos as int]));
            proof {
                lemma_counts_push(counts, before, rec@);
            }
            bump(&mut counts, ChangeKind::Removed);
            changes.push(rec);
            assert(records_of(changes@) =~= before.push(rec@));
        }
        old_pos = old_pos + 1;
    }
    assert(olds.take(olds.len() as int) =~= olds);

    DriftReport {
        old_name: old.name.clone(),
        old_version: old.version.clone(),
        new_name: new.name.clone(),
        new_version: new.version.clone(),
        changes,
        counts,
    }
}

} // verus!
