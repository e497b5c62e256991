//! The device-list side of catalogue parsing: its error kinds, and the
//! syntax of unit-address attribute values.

use crate::register_value::{digits_ok, digits_val, ASCII_LC_X, ASCII_ZERO};
use vstd::prelude::*;
use vstd::string::StringSliceAdditionalSpecFns;

verus! {

/// Why a device-list construct was rejected.
#[derive(Clone, Debug)]
pub enum ParseErrorKind {
    Base(crate::tag_list_xml::ParseErrorKind),
    DuplicateAddr,
}

/// The unit address a catalogue attribute denotes: decimal, or `0x`
/// hexadecimal.
pub open spec fn spec_u8_value(s: Seq<u8>) -> Option<u8> {
    let (radix, s2): (nat, Seq<u8>) = if s.len() >= 2 && s[0] == ASCII_ZERO && s[1]
        == ASCII_LC_X {
        (16, s.subrange(2, s.len() as int))
    } else {
        (10, s)
    };
    if !digits_ok(s2, radix) {
        None
    } else {
        let v = digits_val(s2, radix);
        if v > 255 {
            None
        } else {
            Some(v as u8)
        }
    }
}

/// Parse a unit-address attribute value.
pub fn parse_u8_value(s: &str) -> (r: Option<u8>)
    ensures
        r == spec_u8_value(s.spec_bytes()),
{
    let bytes = s.as_bytes();
    let (radix, digits): (u8, &[u8]) = if bytes.len() >= 2 && bytes[0] == ASCII_ZERO && bytes[1]
        == ASCII_LC_X {
        (16, &bytes[2..bytes.len()])
    } else {
        (10, bytes)
    };
    let ghost spec_r = spec_u8_value(s.spec_bytes());
    proof {
        assert(spec_r == (if digits_ok(digits@, radix as nat) {
            let fv = digits_val(digits@, radix as nat);
            if fv > 255 {
                None::<u8>
            } else {
                Some(fv as u8)
            }
        } else {
            None::<u8>
        }));
    }
    let n = digits.len();
    if n == 0 {
        return None;
    }
    let mut v: u32 = 0;
    let mut i: usize = 0;
    while i < n
        invariant
            radix == 10 || radix == 16,
            n == digits@.len(),
            i <= n,
            v <= 255,
            spec_r == (if digits_ok(digits@, radix as nat) {
                let fv = digits_val(digits@, radix as nat);
                if fv > 255 {
                    None::<u8>
                } else {
                    Some(fv as u8)
                }
            } else {
                None::<u8>
            }),
            spec_r == spec_u8_value(s.spec_bytes()),
            forall|t: int|
                0 <= t < i ==> crate::register_value::digit_ok(
                    #[trigger] digits@[t],
                    radix as nat,
                ),
            v == digits_val(digits@.subrange(0, i as int), radix as nat),
        decreases n - i,
    {
        let c = digits[i];
        let d: u8 = if ASCII_ZERO <= c && c <= 57 {
            c - ASCII_ZERO
        } else if 97 <= c && c <= 102 {
            c - 97 + 10
        } else if 65 <= c && c <= 70 {
            c - 65 + 10
        } else {
            99
        };
        if d >= radix {
            proof {
                assert(!crate::register_value::digit_ok(digits@[i as int], radix as nat));
            }
            return None;
        }
        proof {
            assert((v as int) * (radix as int) <= 255 * 16) by (nonlinear_arith)
                requires
                    0 <= v <= 255,
                    0 <= radix <= 16,
            ;
        }
        let next: u32 = v * (radix as u32) + (d as u32);
        proof {
            assert(digits@.subrange(0, i + 1).drop_last() =~= digits@.subrange(0, i as int));
            assert(digits@.subrange(0, i + 1).last() == digits@[i as int]);
        }
        if next > 255 {
            proof {
                crate::tag_list_xml::lemma_digits_val_grows(digits@, radix as nat, i + 1, n as int);
                assert(digits@.subrange(0, n as int) =~= digits@);
                if digits_ok(digits@, radix as nat) {
                    assert(digits_val(digits@, radix as nat) > 255);
                }
            }
            return None;
        }
        v = next;
        i += 1;
    }
    proof {
        assert(digits@.subrange(0, n as int) =~= digits@);
    }
    Some(v as u8)
}

} // verus!
