//! The tag-list side of catalogue parsing: its error kinds, and the syntax
//! of the attribute values the catalogue writes addresses and bits in.
//!
//! The XML traversal runs in the unverified shell; the value syntax is the
//! catalogue's own and is parsed here.

use crate::register_value::{
    digits_ok, digits_val, split_radix, split_sign, ASCII_LC_B, ASCII_LC_X, ASCII_MINUS,
    ASCII_ZERO,
};
use vstd::prelude::*;
use vstd::string::StringSliceAdditionalSpecFns;

verus! {

/// Why a tag-list construct was rejected.
#[derive(Clone, Debug)]
pub enum ParseErrorKind {
    Base(crate::xml_common::ParseErrorKind),
    BitRange,
    InvalidByteOrder,
    InvalidWordOrder,
    InvalidSign,
    InvalidValueType,
}

/// The 16-bit address a catalogue attribute denotes: decimal, `0x`, or `0b`,
/// optionally negated, in which case the value wraps as a two's complement.
pub open spec fn spec_u16_value(s: Seq<u8>) -> Option<u16> {
    let (neg, s1) = split_sign(s);
    let (radix, s2) = split_radix(s1);
    if !digits_ok(s2, radix) {
        None
    } else {
        let v = digits_val(s2, radix);
        if v > 65535 {
            None
        } else if neg {
            Some(((65536 - v) % 65536) as u16)
        } else {
            Some(v as u16)
        }
    }
}

/// Parse a 16-bit attribute value.
pub fn parse_u16_value(s: &str) -> (r: Option<u16>)
    ensures
        r == spec_u16_value(s.spec_bytes()),
{
    let bytes = s.as_bytes();
    let (neg, rest): (bool, &[u8]) = if bytes.len() > 0 && bytes[0] == ASCII_MINUS {
        (true, &bytes[1..bytes.len()])
    } else {
        (false, bytes)
    };
    let (radix, digits): (u8, &[u8]) = if rest.len() >= 2 && rest[0] == ASCII_ZERO && rest[1]
        == ASCII_LC_X {
        (16, &rest[2..rest.len()])
    } else if rest.len() >= 2 && rest[0] == ASCII_ZERO && rest[1] == ASCII_LC_B {
        (2, &rest[2..rest.len()])
    } else {
        (10, rest)
    };
    proof {
        assert((neg, rest@) == split_sign(s.spec_bytes()));
        assert((radix as nat, digits@) == split_radix(rest@));
    }
    let ghost spec_r = spec_u16_value(s.spec_bytes());
    proof {
        assert(spec_r == (if digits_ok(digits@, radix as nat) {
            let fv = digits_val(digits@, radix as nat);
            if fv > 65535 {
                None::<u16>
            } else if neg {
                Some((((65536 - fv) % 65536) as u16))
            } else {
                Some(fv as u16)
            }
        } else {
            None::<u16>
        }));
    }
    let mut v: u32 = 0;
    let n = digits.len();
    if n == 0 {
        return None;
    }
    let mut i: usize = 0;
    while i < n
        invariant
            radix == 2 || radix == 10 || radix == 16,
            n == digits@.len(),
            i <= n,
            v <= 65535,
            spec_r == (if digits_ok(digits@, radix as nat) {
                let fv = digits_val(digits@, radix as nat);
                if fv > 65535 {
                    None::<u16>
                } else if neg {
                    Some((((65536 - fv) % 65536) as u16))
                } else {
                    Some(fv as u16)
                }
            } else {
                None::<u16>
            }),
            spec_r == spec_u16_value(s.spec_bytes()),
            forall|t: int|
                0 <= t < i ==> crate::register_value::digit_ok(
                    #[trigger] digits@[t],
                    radix as nat,
                ),
            v == digits_val(digits@.subrange(0, i as int), radix as nat),
        decreases n - i,
    {
        let c = digits[i];
        let d: u8 = if ASCII_ZERO <= c && c <= 57 {
            c - ASCII_ZERO
        } else if 97 <= c && c <= 102 {
            c - 97 + 10
        } else if 65 <= c && c <= 70 {
            c - 65 + 10
        } else {
            99
        };
        if d >= radix {
            proof {
                assert(!crate::register_value::digit_ok(digits@[i as int], radix as nat));
            }
            return None;
        }
        proof {
            assert((v as int) * (radix as int) <= 65535 * 16) by (nonlinear_arith)
                requires
                    0 <= v <= 65535,
                    0 <= radix <= 16,
            ;
        }
        let next: u32 = v * (radix as u32) + (d as u32);
        proof {
            assert(digits@.subrange(0, i + 1).drop_last() =~= digits@.subrange(0, i as int));
            assert(digits@.subrange(0, i + 1).last() == digits@[i as int]);
        }
        if next > 65535 {
            proof {
                lemma_digits_val_grows(digits@, radix as nat, i + 1, n as int);
                assert(digits@.subrange(0, n as int) =~= digits@);
                if digits_ok(digits@, radix as nat) {
                    assert(digits_val(digits@, radix as nat) > 65535);
                }
            }
            return None;
        }
        v = next;
        i += 1;
    }
    proof {
        assert(digits@.subrange(0, n as int) =~= digits@);
    }
    let v16 = v as u16;
    if neg {
        if v16 == 0 {
            Some(0)
        } else {
            Some((65535 - v16) + 1)
        }
    } else {
        Some(v16)
    }
}

/// A digit string's value only grows as digits are appended.
pub proof fn lemma_digits_val_grows(s: Seq<u8>, radix: nat, i: int, n: int)
    requires
        radix >= 2,
        0 <= i <= n <= s.len(),
    ensures
        digits_val(s.subrange(0, n), radix) >= digits_val(s.subrange(0, i), radix),
    decreases n - i,
{
    if i < n {
        lemma_digits_val_grows(s, radix, i + 1, n);
        assert(s.subrange(0, i + 1).drop_last() =~= s.subrange(0, i));
        let a = digits_val(s.subrange(0, i), radix);
        assert(digits_val(s.subrange(0, i + 1), radix) == a * radix + crate::register_value::digit_num(
            s.subrange(0, i + 1).last(),
        ));
        assert(a * radix >= a) by (nonlinear_arith)
            requires
                radix >= 2,
                a >= 0,
        ;
    }
}

/// The boolean a catalogue bit attribute denotes: `1`, `0`, `true`, or
/// `false`.
pub open spec fn spec_bit_value(s: Seq<u8>) -> Option<bool> {
    if s =~= seq![49u8] {
        Some(true)
    } else if s =~= seq![48u8] {
        Some(false)
    } else if s =~= seq![116u8, 114u8, 117u8, 101u8] {
        Some(true)
    } else if s =~= seq![102u8, 97u8, 108u8, 115u8, 101u8] {
        Some(false)
    } else {
        None
    }
}

/// Parse a bit attribute value.
pub fn parse_bit_value(s: &str) -> (r: Option<bool>)
    ensures
        r == spec_bit_value(s.spec_bytes()),
{
    let b = s.as_bytes();
    if b.len() == 1 && b[0] == 49 {
        proof {
            assert(b@ =~= seq![49u8]);
        }
        Some(true)
    } else if b.len() == 1 && b[0] == 48 {
        proof {
            assert(b@ =~= seq![48u8]);
        }
        Some(false)
    } else if b.len() == 4 && b[0] == 116 && b[1] == 114 && b[2] == 117 && b[3] == 101 {
        proof {
            assert(b@ =~= seq![116u8, 114u8, 117u8, 101u8]);
        }
        Some(true)
    } else if b.len() == 5 && b[0] == 102 && b[1] == 97 && b[2] == 108 && b[3] == 115 && b[4]
        == 101 {
        proof {
            assert(b@ =~= seq![102u8, 97u8, 108u8, 115u8, 101u8]);
        }
        Some(false)
    } else {
        proof {
            assert(!(b@ =~= seq![49u8]));
            assert(!(b@ =~= seq![48u8]));
            assert(!(b@ =~= seq![116u8, 114u8, 117u8, 101u8]));
            assert(!(b@ =~= seq![102u8, 97u8, 108u8, 115u8, 101u8]));
        }
        None
    }
}

} // verus!
