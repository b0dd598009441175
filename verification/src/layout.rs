//! The physical layout of a copybook: an ordered list of fields.
use vstd::prelude::*;

verus! {

/// The physical storage class of a field -- what determines how many bytes it occupies and how
/// those bytes are interpreted. Two fields with the same byte length but different `FieldKind`
/// are *not* layout-compatible: a reader decoding packed decimal cannot read display digits from
/// the same span.
#[derive(Debug, Clone, PartialEq, Eq, Structural)]
#[non_exhaustive]
pub enum FieldKind {
    /// `PIC X(n)` -- opaque alphanumeric text.
    Alphanumeric,
    /// `PIC 9(d)V9(s) [DISPLAY]` -- zoned/display numeric (one byte per digit).
    Display { digits: u32, scale: u32, signed: bool },
    /// `PIC S9(d)V9(s) COMP-3` -- packed decimal (BCD, `d/2 + 1` bytes).
    Packed { digits: u32, scale: u32, signed: bool },
    /// `PIC S9(d) COMP/COMP-4/COMP-5` -- binary integer of a fixed byte width.
    Binary { bytes: u32, signed: bool },
    /// A group item (`01`/`05` with subordinate fields) -- a container, not a leaf storage cell.
    Group,
}

/// One field within a copybook layout: its name, level number, 0-based byte offset within the
/// record, physical byte length, and storage [`FieldKind`].
#[derive(Debug, Clone, PartialEq, Eq)]
pub struct Field {
    pub name: String,
    /// COBOL level number (`01`, `05`, `10`, ...).
    pub level: u16,
    /// 0-based byte offset of the field within the record.
    pub offset: usize,
    /// Physical byte length the field occupies on disk.
    pub len: usize,
    pub kind: FieldKind,
}

/// A named, versioned copybook: an ordered list of physical fields. Order is significant -- it
/// is the on-disk field order, and reordering two fields is itself a layout change.
#[derive(Debug, Clone, PartialEq, Eq)]
pub struct Copybook {
    pub name: String,
    /// A free-form version label (`v1`, `2024-03`, a git sha, ...).
    pub version: String,
    pub fields: Vec<Field>,
}

} // verus!
