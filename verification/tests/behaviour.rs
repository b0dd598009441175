use kobold_governance::{
    compatibility, diff, ChangeKind, Compatibility, Copybook, DriftCounts, DriftReport, Field,
    FieldChange, FieldKind,
};

fn field(name: &str, level: u16, offset: usize, len: usize, kind: FieldKind) -> Field {
    Field { name: name.into(), level, offset, len, kind }
}

fn book(version: &str, fields: Vec<Field>) -> Copybook {
    Copybook { name: "ACCT-REC".into(), version: version.into(), fields }
}

fn accounts() -> Vec<Field> {
    vec![
        field("ACCT-ID", 5, 0, 8, FieldKind::Display { digits: 8, scale: 0, signed: false }),
        field("ACCT-NAME", 5, 8, 20, FieldKind::Alphanumeric),
        field("ACCT-BAL", 5, 28, 5, FieldKind::Packed { digits: 9, scale: 2, signed: true }),
    ]
}

fn change(name: &str, kind: ChangeKind) -> FieldChange {
    FieldChange {
        field: name.into(),
        change: kind,
        old_offset: None,
        new_offset: None,
        detail: String::new(),
    }
}

fn report_of(changes: Vec<FieldChange>, counts: DriftCounts) -> DriftReport {
    DriftReport {
        old_name: "R".into(),
        old_version: "v1".into(),
        new_name: "R".into(),
        new_version: "v2".into(),
        changes,
        counts,
    }
}

#[test]
fn report_carries_names_and_versions() {
    let old = Copybook { name: "OLD-REC".into(), version: "v1".into(), fields: accounts() };
    let new = Copybook { name: "NEW-REC".into(), version: "2024-03".into(), fields: accounts() };
    let report = diff(&old, &new);
    assert_eq!(report.old_name, "OLD-REC");
    assert_eq!(report.old_version, "v1");
    assert_eq!(report.new_name, "NEW-REC");
    assert_eq!(report.new_version, "2024-03");
}

#[test]
fn unchanged_fields_keep_both_offsets_and_say_no_change() {
    let report = diff(&book("v1", accounts()), &book("v1", accounts()));
    assert_eq!(report.changes.len(), 3);
    let offsets = [0usize, 8, 28];
    for (c, off) in report.changes.iter().zip(offsets.iter()) {
        assert_eq!(c.change, ChangeKind::Unchanged);
        assert_eq!(c.old_offset, Some(*off));
        assert_eq!(c.new_offset, Some(*off));
        assert_eq!(c.detail, "no change");
    }
    assert_eq!(report.changes[0].field, "ACCT-ID");
    assert_eq!(report.changes[2].field, "ACCT-BAL");
}

#[test]
fn added_field_account() {
    let mut fields = accounts();
    fields.push(field("ACCT-OPENED", 5, 33, 8, FieldKind::Alphanumeric));
    let report = diff(&book("v1", accounts()), &book("v2", fields));
    let c = &report.changes[3];
    assert_eq!(c.field, "ACCT-OPENED");
    assert_eq!(c.change, ChangeKind::Added);
    assert_eq!(c.old_offset, None);
    assert_eq!(c.new_offset, Some(33));
    assert_eq!(c.detail, "field added (level 5, offset 33, len 8)");
}

#[test]
fn removals_follow_new_fields_in_old_order() {
    let old = book("v1", accounts());
    let new = book("v2", vec![accounts()[2].clone()]);
    let report = diff(&old, &new);
    let names: Vec<&str> = report.changes.iter().map(|c| c.field.as_str()).collect();
    assert_eq!(names, vec!["ACCT-BAL", "ACCT-ID", "ACCT-NAME"]);
    assert_eq!(report.changes[0].change, ChangeKind::Reordered);
    assert_eq!(report.changes[0].detail, "field reordered among siblings (offset/len/kind held)");
    assert_eq!(report.changes[1].change, ChangeKind::Removed);
    assert_eq!(report.changes[1].old_offset, Some(0));
    assert_eq!(report.changes[1].new_offset, None);
    assert_eq!(report.changes[1].detail, "field removed (was level 5, offset 0, len 8)");
    assert_eq!(report.changes[2].detail, "field removed (was level 5, offset 8, len 20)");
    assert_eq!(report.counts.removed, 2);
    assert_eq!(report.counts.reordered, 1);
    assert_eq!(report.counts.unchanged, 0);
}

#[test]
fn resize_and_move_accounts() {
    let mut fields = accounts();
    fields[1].len = 30;
    fields[2].offset = 38;
    let report = diff(&book("v1", accounts()), &book("v2", fields));
    assert_eq!(report.changes[1].detail, "byte length 20 -> 30 (shifts following fields)");
    assert_eq!(report.changes[2].detail, "offset 28 -> 38 (field moved on disk)");
    assert_eq!(report.changes[2].old_offset, Some(28));
    assert_eq!(report.changes[2].new_offset, Some(38));
    assert_eq!(report.counts.resized, 1);
    assert_eq!(report.counts.moved, 1);
    assert_eq!(report.counts.unchanged, 1);
}

#[test]
fn retype_accounts_name_both_storage_classes() {
    let kinds = [
        FieldKind::Alphanumeric,
        FieldKind::Display { digits: 12, scale: 3, signed: true },
        FieldKind::Packed { digits: 9, scale: 2, signed: false },
        FieldKind::Binary { bytes: 4, signed: false },
        FieldKind::Group,
    ];
    for from in kinds.iter() {
        for to in kinds.iter() {
            if from == to {
                continue;
            }
            let old = book("v1", vec![field("F", 5, 0, 4, from.clone())]);
            let new = book("v2", vec![field("F", 5, 0, 4, to.clone())]);
            let report = diff(&old, &new);
            assert_eq!(report.changes[0].change, ChangeKind::Retyped);
            assert_eq!(report.changes[0].detail, format!("kind changed {:?} -> {:?}", from, to));
        }
    }
    let old = book("v1", accounts());
    let mut fields = accounts();
    fields[2].kind = FieldKind::Binary { bytes: 5, signed: true };
    let report = diff(&old, &book("v2", fields));
    assert_eq!(
        report.changes[2].detail,
        "kind changed Packed { digits: 9, scale: 2, signed: true } -> Binary { bytes: 5, signed: true }"
    );
}

#[test]
fn most_severe_change_wins() {
    let old = book("v1", vec![field("F", 5, 0, 4, FieldKind::Alphanumeric)]);
    let new = book("v2", vec![field("F", 5, 2, 6, FieldKind::Group)]);
    assert_eq!(diff(&old, &new).changes[0].change, ChangeKind::Retyped);
    let new = book("v2", vec![field("F", 5, 2, 6, FieldKind::Alphanumeric)]);
    assert_eq!(diff(&old, &new).changes[0].change, ChangeKind::Resized);
    let new = book("v2", vec![field("F", 5, 2, 4, FieldKind::Alphanumeric)]);
    assert_eq!(diff(&old, &new).changes[0].change, ChangeKind::Moved);
}

#[test]
fn large_numbers_are_written_in_full() {
    let big: usize = 4_294_967_296;
    let old = book("v1", vec![]);
    let new = book("v2", vec![field("F", 65535, big, 1_234_567_890, FieldKind::Alphanumeric)]);
    let report = diff(&old, &new);
    assert_eq!(report.changes[0].detail, "field added (level 65535, offset 4294967296, len 1234567890)");
    let wide = book("v2", vec![field("F", 0, 0, 10, FieldKind::Binary { bytes: 4_000_000_000, signed: false })]);
    let narrow = book("v1", vec![field("F", 0, 0, 10, FieldKind::Group)]);
    let report = diff(&narrow, &wide);
    assert_eq!(report.changes[0].detail, "kind changed Group -> Binary { bytes: 4000000000, signed: false }");
}

#[test]
fn counts_tally_the_changes() {
    let mut fields = accounts();
    fields[0].offset = 1;
    fields.remove(1);
    fields.push(field("X", 5, 40, 1, FieldKind::Alphanumeric));
    fields.push(field("Y", 5, 41, 1, FieldKind::Alphanumeric));
    let report = diff(&book("v1", accounts()), &book("v2", fields));
    let count = |k: ChangeKind| report.changes.iter().filter(|c| c.change == k).count();
    assert_eq!(report.counts.added, count(ChangeKind::Added));
    assert_eq!(report.counts.added, 2);
    assert_eq!(report.counts.removed, count(ChangeKind::Removed));
    assert_eq!(report.counts.moved, count(ChangeKind::Moved));
    assert_eq!(report.counts.reordered, count(ChangeKind::Reordered));
    assert_eq!(report.counts.unchanged, 0);
    assert_eq!(report.changes.len(), 5);
}

#[test]
fn default_counts_are_zero() {
    let c = DriftCounts::default();
    assert_eq!(
        (c.added, c.removed, c.resized, c.retyped, c.moved, c.relevelled, c.reordered, c.unchanged),
        (0, 0, 0, 0, 0, 0, 0, 0)
    );
}

#[test]
fn empty_copybooks_are_identical() {
    let report = diff(&book("v1", vec![]), &book("v2", vec![]));
    assert!(report.changes.is_empty());
    assert!(report.is_identical());
    assert_eq!(compatibility(&report), Compatibility::Identical);
}

#[test]
fn everything_new_against_empty_is_breaking() {
    let report = diff(&book("v1", vec![]), &book("v2", accounts()));
    assert_eq!(report.counts.added, 3);
    assert_eq!(compatibility(&report), Compatibility::BreakingChange);
}

#[test]
fn several_tail_fields_are_compatible_extension() {
    let mut fields = accounts();
    fields.push(field("A", 5, 33, 1, FieldKind::Alphanumeric));
    fields.push(field("B", 5, 34, 1, FieldKind::Alphanumeric));
    let report = diff(&book("v1", accounts()), &book("v2", fields));
    assert!(!report.is_identical());
    assert_eq!(compatibility(&report), Compatibility::CompatibleExtension);
}

#[test]
fn identical_verdict_agrees_with_is_identical() {
    let cases = vec![
        (accounts(), accounts()),
        (accounts(), vec![]),
        (vec![], accounts()),
        (accounts(), accounts()[..2].to_vec()),
    ];
    for (o, n) in cases {
        let report = diff(&book("v1", o), &book("v2", n));
        assert_eq!(report.is_identical(), compatibility(&report) == Compatibility::Identical);
    }
}

#[test]
fn verdict_reads_the_report_it_is_given() {
    let counts = DriftCounts { added: 1, ..DriftCounts::default() };
    let early = report_of(
        vec![change("N", ChangeKind::Added), change("K", ChangeKind::Unchanged)],
        counts.clone(),
    );
    assert_eq!(compatibility(&early), Compatibility::BreakingChange);
    let late = report_of(
        vec![change("K", ChangeKind::Unchanged), change("N", ChangeKind::Added)],
        counts.clone(),
    );
    assert_eq!(compatibility(&late), Compatibility::CompatibleExtension);
    let moved = DriftCounts { moved: 1, ..DriftCounts::default() };
    assert_eq!(compatibility(&report_of(vec![], moved)), Compatibility::BreakingChange);
    assert!(report_of(vec![], DriftCounts::default()).is_identical());
}

#[test]
fn repeated_names_pair_up_in_order() {
    // A record cut from 8 to 4 bytes by dropping the second of two namesakes is a break.
    let two = book(
        "v1",
        vec![field("A", 5, 0, 4, FieldKind::Alphanumeric), field("A", 5, 4, 4, FieldKind::Alphanumeric)],
    );
    let one = book("v2", vec![field("A", 5, 0, 4, FieldKind::Alphanumeric)]);
    let report = diff(&two, &one);
    assert_eq!(report.changes.len(), 2);
    assert_eq!(report.changes[0].change, ChangeKind::Unchanged);
    assert_eq!(report.changes[1].change, ChangeKind::Removed);
    assert_eq!(report.changes[1].old_offset, Some(4));
    assert_eq!(compatibility(&report), Compatibility::BreakingChange);
    // A surplus new namesake is classified against the first old field of its name.
    let report = diff(&one, &two);
    assert_eq!(report.changes.len(), 2);
    assert_eq!(report.changes[0].change, ChangeKind::Unchanged);
    assert_eq!(report.changes[1].change, ChangeKind::Moved);
    assert_eq!(report.changes[1].old_offset, Some(0));
    assert_eq!(report.changes[1].new_offset, Some(4));
    assert_eq!(report.changes[1].detail, "offset 0 -> 4 (field moved on disk)");
    assert_eq!(compatibility(&report), Compatibility::BreakingChange);
}

#[test]
fn repeated_fillers_are_matched_one_to_one() {
    let fields = vec![
        field("ID", 5, 0, 4, FieldKind::Alphanumeric),
        field("FILLER", 5, 4, 2, FieldKind::Alphanumeric),
        field("AMT", 5, 6, 4, FieldKind::Binary { bytes: 4, signed: true }),
        field("FILLER", 5, 10, 6, FieldKind::Alphanumeric),
    ];
    let report = diff(&book("v1", fields.clone()), &book("v2", fields.clone()));
    assert!(report.is_identical());
    assert_eq!(compatibility(&report), Compatibility::Identical);
    let mut wider = fields.clone();
    wider[3].len = 8;
    let report = diff(&book("v1", fields), &book("v2", wider));
    assert_eq!(report.changes[3].change, ChangeKind::Resized);
    assert_eq!(report.changes[3].old_offset, Some(10));
    assert_eq!(report.changes[1].change, ChangeKind::Unchanged);
}

#[test]
fn level_change_is_relevelled_and_breaking() {
    let mut fields = accounts();
    fields[1].level = 10;
    let report = diff(&book("v1", accounts()), &book("v2", fields));
    assert!(!report.is_identical());
    assert_eq!(report.changes[1].change, ChangeKind::Relevelled);
    assert_eq!(report.changes[1].detail, "level 5 -> 10 (field moved in the group hierarchy)");
    assert_eq!(report.counts.relevelled, 1);
    assert_eq!(report.counts.unchanged, 2);
    assert_eq!(compatibility(&report), Compatibility::BreakingChange);
}

#[test]
fn position_outranks_level() {
    let old = book(
        "v1",
        vec![field("F", 5, 0, 4, FieldKind::Alphanumeric), field("G", 5, 0, 4, FieldKind::Alphanumeric)],
    );
    let new = book(
        "v2",
        vec![field("G", 5, 0, 4, FieldKind::Alphanumeric), field("F", 10, 0, 4, FieldKind::Alphanumeric)],
    );
    let report = diff(&old, &new);
    assert_eq!(report.changes[1].change, ChangeKind::Reordered);
    assert_eq!(report.counts.reordered, 2);
    assert_eq!(report.counts.relevelled, 0);
}

#[test]
fn offset_outranks_level() {
    let old = book("v1", vec![field("F", 5, 0, 4, FieldKind::Alphanumeric)]);
    let new = book("v2", vec![field("F", 10, 2, 4, FieldKind::Alphanumeric)]);
    assert_eq!(diff(&old, &new).changes[0].change, ChangeKind::Moved);
}

#[test]
fn reverse_diff_swaps_added_and_removed() {
    let mut fields = accounts();
    fields[0].offset = 1;
    fields[1].level = 7;
    fields.remove(2);
    fields.push(field("X", 5, 40, 1, FieldKind::Alphanumeric));
    fields.push(field("Y", 5, 50, 8, FieldKind::Group));
    let a = book("v1", accounts());
    let b = book("v2", fields);
    let f = diff(&a, &b).counts;
    let r = diff(&b, &a).counts;
    assert_eq!((f.added, f.removed), (r.removed, r.added));
    assert_eq!(f.added, 2);
    assert_eq!(f.removed, 1);
    assert_eq!(
        (f.resized, f.retyped, f.moved, f.relevelled, f.reordered, f.unchanged),
        (r.resized, r.retyped, r.moved, r.relevelled, r.reordered, r.unchanged)
    );
    assert_eq!((f.moved, f.relevelled), (1, 1));
}
