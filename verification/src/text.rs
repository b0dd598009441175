//! Rendering of numbers, flags and storage classes as text, with the exact
//! character sequences stated as spec functions.
use vstd::prelude::*;

use crate::layout::FieldKind;

verus! {

/// The character of a decimal digit `d` (`0 <= d < 10`).
pub open spec fn digit_char(d: nat) -> char {
    if d == 0 {
        '0'
    } else if d == 1 {
        '1'
    } else if d == 2 {
        '2'
    } else if d == 3 {
        '3'
    } else if d == 4 {
        '4'
    } else if d == 5 {
        '5'
    } else if d == 6 {
        '6'
    } else if d == 7 {
        '7'
    } else if d == 8 {
        '8'
    } else {
        '9'
    }
}

/// The decimal notation of `n`: most significant digit first, no leading zeros.
pub open spec fn decimal_text(n: nat) -> Seq<char>
    decreases n,
{
    if n < 10 {
        seq![digit_char(n)]
    } else {
        decimal_text(n / 10) + seq![digit_char(n % 10)]
    }
}

/// `true` or `false`, as a flag is written in a storage-class description.
pub open spec fn flag_text(b: bool) -> Seq<char> {
    if b {
        "true"@
    } else {
        "false"@
    }
}

/// How a storage class is written in a field-change account: its variant name,
/// followed by its parameters in braces.
pub open spec fn kind_text(k: FieldKind) -> Seq<char> {
    match k {
        FieldKind::Alphanumeric => "Alphanumeric"@,
        FieldKind::Display { digits, scale, signed } => "Display { digits: "@ + decimal_text(
            digits as nat,
        ) + ", scale: "@ + decimal_text(scale as nat) + ", signed: "@ + flag_text(signed)
            + " }"@,
        FieldKind::Packed { digits, scale, signed } => "Packed { digits: "@ + decimal_text(
            digits as nat,
        ) + ", scale: "@ + decimal_text(scale as nat) + ", signed: "@ + flag_text(signed)
            + " }"@,
        FieldKind::Binary { bytes, signed } => "Binary { bytes: "@ + decimal_text(bytes as nat)
            + ", signed: "@ + flag_text(signed) + " }"@,
        FieldKind::Group => "Group"@,
    }
}

fn digit_str(d: u64) -> (s: &'static str)
    requires
        d < 10,
    ensures
        s@ == seq![digit_char(d as nat)],
{
    if d == 0 {
        proof {
            reveal_strlit("0");
        }
        "0"
    } else if d == 1 {
        proof {
            reveal_strlit("1");
        }
        "1"
    } else if d == 2 {
        proof {
            reveal_strlit("2");
        }
        "2"
    } else if d == 3 {
        proof {
            reveal_strlit("3");
        }
        "3"
    } else if d == 4 {
        proof {
            reveal_strlit("4");
        }
        "4"
    } else if d == 5 {
        proof {
            reveal_strlit("5");
        }
        "5"
    } else if d == 6 {
        proof {
            reveal_strlit("6");
        }
        "6"
    } else if d == 7 {
        proof {
            reveal_strlit("7");
        }
        "7"
    } else if d == 8 {
        proof {
            reveal_strlit("8");
        }
        "8"
    } else {
        proof {
            reveal_strlit("9");
        }
        "9"
    }
}

/// Appends the decimal notation of `n` to `s`.
pub fn push_decimal(s: &mut String, n: u64)
    ensures
        final(s)@ == old(s)@ + decimal_text(n as nat),
    decreases n,
{
    if n < 10 {
        s.append(digit_str(n));
    } else {
        push_decimal(s, n / 10);
        s.append(digit_str(n % 10));
        assert(old(s)@ + decimal_text(n as nat) =~= old(s)@ + decimal_text((n / 10) as nat) + seq![
            digit_char((n % 10) as nat),
        ]);
    }
}

/// Appends `true` or `false` to `s`.
pub fn push_flag(s: &mut String, b: bool)
    ensures
        final(s)@ == old(s)@ + flag_text(b),
{
    if b {
        s.append("true");
    } else {
        s.append("false");
    }
}

/// Appends the description of a storage class to `s`.
pub fn push_kind(s: &mut String, k: &FieldKind)
    ensures
        final(s)@ == old(s)@ + kind_text(*k),
{
    let ghost s0 = s@;
    match k {
        FieldKind::Alphanumeric => {
            s.append("Alphanumeric");
        },
        FieldKind::Display { digits, scale, signed } => {
            s.append("Display { digits: ");
            push_decimal(s, *digits as u64);
            s.append(", scale: ");
            push_decimal(s, *scale as u64);
            s.append(", signed: ");
            push_flag(s, *signed);
            s.append(" }");
            assert(s@ =~= s0 + kind_text(*k));
        },
        FieldKind::Packed { digits, scale, signed } => {
            s.append("Packed { digits: ");
            push_decimal(s, *digits as u64);
            s.append(", scale: ");
            push_decimal(s, *scale as u64);
            s.append(", signed: ");
            push_flag(s, *signed);
            s.append(" }");
            assert(s@ =~= s0 + kind_text(*k));
        },
        FieldKind::Binary { bytes, signed } => {
            s.append("Binary { bytes: ");
            push_decimal(s, *bytes as u64);
            s.append(", signed: ");
            push_flag(s, *signed);
            s.append(" }");
            assert(s@ =~= s0 + kind_text(*k));
        },
        FieldKind::Group => {
            s.append("Group");
        },
    }
}

} // verus!
