use kobold_governance::{compatibility, diff, ChangeKind, Compatibility, Copybook, Field, FieldKind};

fn fld(name: &str, level: u16, offset: usize, len: usize, kind: FieldKind) -> Field {
    Field { name: name.into(), level, offset, len, kind }
}

fn base() -> Copybook {
    Copybook {
        name: "ACCT-REC".into(),
        version: "v1".into(),
        fields: vec![
            fld("ACCT-ID", 5, 0, 8, FieldKind::Display { digits: 8, scale: 0, signed: false }),
            fld("ACCT-NAME", 5, 8, 20, FieldKind::Alphanumeric),
            fld("ACCT-BAL", 5, 28, 5, FieldKind::Packed { digits: 9, scale: 2, signed: true }),
        ],
    }
}

#[test]
fn identical_copybooks_are_identical() {
    let report = diff(&base(), &base());
    assert!(report.is_identical(), "{:?}", report.changes);
    assert_eq!(report.counts.unchanged, 3);
    assert_eq!(compatibility(&report), Compatibility::Identical);
}

#[test]
fn tail_appended_field_is_compatible_extension() {
    let old = base();
    let mut new = base();
    new.version = "v2".into();
    new.fields.push(fld(
        "ACCT-OPENED",
        5,
        33,
        8,
        FieldKind::Display { digits: 8, scale: 0, signed: false },
    ));
    let report = diff(&old, &new);
    assert_eq!(report.counts.added, 1);
    assert_eq!(report.counts.unchanged, 3);
    assert_eq!(compatibility(&report), Compatibility::CompatibleExtension);
}

#[test]
fn resized_field_is_breaking() {
    let old = base();
    let mut new = base();
    new.version = "v2".into();
    // widen ACCT-NAME from 20 to 30 -> shifts ACCT-BAL.
    new.fields[1].len = 30;
    new.fields[2].offset = 38;
    let report = diff(&old, &new);
    assert!(report.changes.iter().any(|c| c.field == "ACCT-NAME" && c.change == ChangeKind::Resized));
    assert!(report.changes.iter().any(|c| c.field == "ACCT-BAL" && c.change == ChangeKind::Moved));
    assert_eq!(compatibility(&report), Compatibility::BreakingChange);
}

#[test]
fn moved_field_is_breaking() {
    let old = base();
    let mut new = base();
    new.fields[2].offset = 27; // ACCT-BAL slid back one byte
    let report = diff(&old, &new);
    assert!(report.changes.iter().any(|c| c.field == "ACCT-BAL" && c.change == ChangeKind::Moved));
    assert_eq!(compatibility(&report), Compatibility::BreakingChange);
}

#[test]
fn retyped_field_is_breaking() {
    let old = base();
    let mut new = base();
    // same offset/len, but decode the balance as binary instead of packed.
    new.fields[2].kind = FieldKind::Binary { bytes: 5, signed: true };
    let report = diff(&old, &new);
    let bal = report.changes.iter().find(|c| c.field == "ACCT-BAL").unwrap();
    assert_eq!(bal.change, ChangeKind::Retyped);
    assert_eq!(compatibility(&report), Compatibility::BreakingChange);
}

#[test]
fn removed_field_is_breaking() {
    let old = base();
    let mut new = base();
    new.fields.remove(1); // drop ACCT-NAME
    let report = diff(&old, &new);
    assert!(report.changes.iter().any(|c| c.field == "ACCT-NAME" && c.change == ChangeKind::Removed));
    assert_eq!(report.counts.removed, 1);
    assert_eq!(compatibility(&report), Compatibility::BreakingChange);
}

#[test]
fn insertion_before_tail_is_breaking() {
    let old = base();
    let mut new = base();
    // insert a new field in the MIDDLE -- not a tail append; old offsets after it shift.
    new.fields.insert(1, fld("ACCT-TYPE", 5, 8, 2, FieldKind::Alphanumeric));
    new.fields[2].offset = 10; // ACCT-NAME shifted
    new.fields[3].offset = 30; // ACCT-BAL shifted
    let report = diff(&old, &new);
    // ACCT-TYPE is Added, but ACCT-NAME/ACCT-BAL moved -> breaking.
    assert_eq!(compatibility(&report), Compatibility::BreakingChange);
}

#[test]
fn pure_added_without_retained_anchor_is_breaking() {
    // A new copybook that shares no field names with the old one cannot be proven readable.
    let old = base();
    let new = Copybook {
        name: "ACCT-REC".into(),
        version: "v2".into(),
        fields: vec![fld("WHOLLY-NEW", 1, 0, 4, FieldKind::Alphanumeric)],
    };
    let report = diff(&old, &new);
    assert_eq!(compatibility(&report), Compatibility::BreakingChange);
}

#[test]
fn reordered_field_is_breaking() {
    // Two identical-shape fields whose on-disk order swaps -> Reordered -> breaking.
    let a = fld("F1", 5, 0, 4, FieldKind::Alphanumeric);
    let b = fld("F2", 5, 0, 4, FieldKind::Alphanumeric);
    let old = Copybook { name: "R".into(), version: "v1".into(), fields: vec![a.clone(), b.clone()] };
    let new = Copybook { name: "R".into(), version: "v2".into(), fields: vec![b, a] };
    let report = diff(&old, &new);
    assert!(report.changes.iter().any(|c| c.change == ChangeKind::Reordered));
    assert_eq!(compatibility(&report), Compatibility::BreakingChange);
}
