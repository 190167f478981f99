//! Renderers for device feature status: the words shown for supported and
//! enabled features, and the ATA security state summary.

use vstd::prelude::*;
use vstd::string::StringExecFns;

verus! {

/// A feature that can be unsupported, supported but disabled, or enabled.
#[derive(Debug, Clone, Copy, PartialEq, Eq, Structural)]
pub enum Ternary {
    Unsupported,
    Disabled,
    Enabled,
}

/// The word shown for a supported or unsupported feature.
pub fn bool_to_sup(b: bool) -> (r: &'static str)
    ensures
        b ==> r@ == "supported"@,
        !b ==> r@ == "not supported"@,
{
    if b {
        "supported"
    } else {
        "not supported"
    }
}

/// The word shown for a feature's ternary status.
pub fn ternary_feature_status(x: &Ternary) -> (r: &'static str)
    ensures
        r@ == match x {
            Ternary::Unsupported => "Unavailable"@,
            Ternary::Disabled => "Disabled"@,
            Ternary::Enabled => "Enabled"@,
        },
{
    match x {
        Ternary::Unsupported => "Unavailable",
        Ternary::Disabled => "Disabled",
        Ternary::Enabled => "Enabled",
    }
}

/// The lowercase hexadecimal digit for a value; 15 and above give `f`.
pub open spec fn hex_digit(n: u16) -> char {
    if n == 0 {
        '0'
    } else if n == 1 {
        '1'
    } else if n == 2 {
        '2'
    } else if n == 3 {
        '3'
    } else if n == 4 {
        '4'
    } else if n == 5 {
        '5'
    } else if n == 6 {
        '6'
    } else if n == 7 {
        '7'
    } else if n == 8 {
        '8'
    } else if n == 9 {
        '9'
    } else if n == 10 {
        'a'
    } else if n == 11 {
        'b'
    } else if n == 12 {
        'c'
    } else if n == 13 {
        'd'
    } else if n == 14 {
        'e'
    } else {
        'f'
    }
}

/// A value as four lowercase hexadecimal digits, most significant first.
pub open spec fn hex4(x: u16) -> Seq<char> {
    seq![
        hex_digit(x >> 12),
        hex_digit((x >> 8) & 0xf),
        hex_digit((x >> 4) & 0xf),
        hex_digit(x & 0xf),
    ]
}

fn hex_digit_char(n: u16) -> (r: char)
    ensures
        r == hex_digit(n),
{
    if n == 0 {
        '0'
    } else if n == 1 {
        '1'
    } else if n == 2 {
        '2'
    } else if n == 3 {
        '3'
    } else if n == 4 {
        '4'
    } else if n == 5 {
        '5'
    } else if n == 6 {
        '6'
    } else if n == 7 {
        '7'
    } else if n == 8 {
        '8'
    } else if n == 9 {
        '9'
    } else if n == 10 {
        'a'
    } else if n == 11 {
        'b'
    } else if n == 12 {
        'c'
    } else if n == 13 {
        'd'
    } else if n == 14 {
        'e'
    } else {
        'f'
    }
}

fn hex4_chars(x: u16) -> (r: Vec<char>)
    ensures
        r@ == hex4(x),
{
    let mut v: Vec<char> = Vec::new();
    v.push(hex_digit_char(x >> 12));
    v.push(hex_digit_char((x >> 8) & 0xf));
    v.push(hex_digit_char((x >> 4) & 0xf));
    v.push(hex_digit_char(x & 0xf));
    assert(v@ =~= hex4(x));
    v
}

/// The summary shown for the ATA security state words: whether security is
/// available, enabled, locked and frozen, with the security-level names the
/// specification assigns to those states, and the master password id when
/// one is set.
pub open spec fn spec_ata_security_status(state: u16, master_password_id: u16) -> Seq<char> {
    if state & 0x0001 == 0 {
        "Unavailable"@
    } else {
        let body = if state & 0x0002 == 0 {
            "Disabled, "@ + if state & 0x0008 == 0 {
                "NOT FROZEN [SEC1]"@
            } else {
                "frozen [SEC2]"@
            }
        } else {
            "ENABLED, PW level "@ + (if state & 0x0100 == 0 {
                "HIGH"@
            } else {
                "MAX"@
            }) + if state & 0x0004 == 0 {
                ", not locked, "@ + if state & 0x0008 == 0 {
                    "not frozen [SEC5]"@
                } else {
                    "frozen [SEC6]"@
                }
            } else {
                ", **LOCKED** [SEC4]"@ + if state & 0x0010 != 0 {
                    ", PW ATTEMPTS EXCEEDED"@
                } else {
                    Seq::<char>::empty()
                }
            }
        };
        body + if 0 < master_password_id && master_password_id < 0xfffe {
            ", Master PW ID: 0x"@ + hex4(master_password_id)
        } else {
            Seq::<char>::empty()
        }
    }
}

/// Render the ATA security state words into the summary shown to the user.
pub fn ata_security_status(state: u16, master_password_id: u16) -> (r: String)
    ensures
        r@ == spec_ata_security_status(state, master_password_id),
{
    if state & 0x0001 == 0 {
        return "Unavailable".to_owned();
    }
    let mut out = String::new();
    if state & 0x0002 == 0 {
        out.append("Disabled, ");
        if state & 0x0008 == 0 {
            out.append("NOT FROZEN [SEC1]");
        } else {
            out.append("frozen [SEC2]");
        }
    } else {
        out.append("ENABLED, PW level ");
        if state & 0x0100 == 0 {
            out.append("HIGH");
        } else {
            out.append("MAX");
        }
        if state & 0x0004 == 0 {
            out.append(", not locked, ");
            if state & 0x0008 == 0 {
                out.append("not frozen [SEC5]");
            } else {
                out.append("frozen [SEC6]");
            }
        } else {
            out.append(", **LOCKED** [SEC4]");
            if state & 0x0010 != 0 {
                out.append(", PW ATTEMPTS EXCEEDED");
            }
        }
    }
    if 0 < master_password_id && master_password_id < 0xfffe {
        out.append(", Master PW ID: 0x");
        let h = crate::text::chars_to_string(&hex4_chars(master_password_id));
        out.append(h.as_str());
    }
    assert(out@ =~= spec_ata_security_status(state, master_password_id));
    out
}

} // verus!
