//! Parsing initial-value strings into register words.
//!
//! A catalogue entry may give a register range an initial value, written as a
//! decimal, hexadecimal (`0x`), or binary (`0b`) integer of arbitrary width,
//! optionally negated, or as a string.  The value is converted to
//! little-endian bytes, sized to the range, and packed into 16-bit words
//! according to the range's byte and word order.  Scaled values and
//! floating-point encodings are decimal numbers that only the unverified
//! shell can convert; everything else is parsed here.

use crate::encoding::{Encoding, ValueType};
use crate::tag_list::{reg_count, RegisterRange};
use vstd::arithmetic::div_mod::{lemma_div_denominator, lemma_fundamental_div_mod_converse};
use vstd::arithmetic::power::{
    lemma_pow0, lemma_pow1, lemma_pow_adds, lemma_pow_positive, lemma_pow_strictly_increases, pow,
};
use vstd::prelude::*;
use vstd::string::StringSliceAdditionalSpecFns;

verus! {

/// Why an initial-value string was rejected.
#[derive(Clone, Copy, Debug, PartialEq, Eq, Structural)]
pub enum ParseError {
    InvalidFloatValue,
    InvalidIntegerValue,
    TooBig,
    Negative,
    InvalidFloatLength,
}

/// ASCII codes used by the value syntax.
pub const ASCII_ZERO: u8 = 48;

pub const ASCII_NINE: u8 = 57;

pub const ASCII_LC_A: u8 = 97;

pub const ASCII_LC_F: u8 = 102;

pub const ASCII_UC_A: u8 = 65;

pub const ASCII_UC_F: u8 = 70;

pub const ASCII_MINUS: u8 = 45;

pub const ASCII_LC_X: u8 = 120;

pub const ASCII_LC_B: u8 = 98;

/// `256^n`: the number of values `n` bytes can hold.
pub open spec fn pow256(n: nat) -> nat {
    pow(256, n) as nat
}

/// The value of a little-endian byte string.
pub open spec fn le_val(b: Seq<u8>) -> nat
    decreases b.len(),
{
    if b.len() == 0 {
        0
    } else {
        (b[0] + 256 * le_val(b.subrange(1, b.len() as int))) as nat
    }
}

/// A little-endian byte string with no trailing zero byte: the shortest
/// representation of its value.
pub open spec fn le_minimal(b: Seq<u8>) -> bool {
    b.len() == 0 || b[b.len() - 1] != 0
}

/// The numeric value of one digit character, or 99 where the character is no
/// digit at all.
pub open spec fn digit_num(c: u8) -> nat {
    if ASCII_ZERO <= c <= ASCII_NINE {
        (c - ASCII_ZERO) as nat
    } else if ASCII_LC_A <= c <= ASCII_LC_F {
        (c - ASCII_LC_A + 10) as nat
    } else if ASCII_UC_A <= c <= ASCII_UC_F {
        (c - ASCII_UC_A + 10) as nat
    } else {
        99
    }
}

/// `c` is a digit of the given radix.
pub open spec fn digit_ok(c: u8, radix: nat) -> bool {
    digit_num(c) < radix
}

/// `s` is a non-empty string of digits of the given radix.
pub open spec fn digits_ok(s: Seq<u8>, radix: nat) -> bool {
    s.len() > 0 && forall|i: int| 0 <= i < s.len() ==> digit_ok(#[trigger] s[i], radix)
}

/// The value of a digit string, most significant digit first.
pub open spec fn digits_val(s: Seq<u8>, radix: nat) -> nat
    decreases s.len(),
{
    if s.len() == 0 {
        0
    } else {
        digits_val(s.drop_last(), radix) * radix + digit_num(s.last())
    }
}

/// Split a leading minus sign off.
pub open spec fn split_sign(s: Seq<u8>) -> (bool, Seq<u8>) {
    if s.len() > 0 && s[0] == ASCII_MINUS {
        (true, s.subrange(1, s.len() as int))
    } else {
        (false, s)
    }
}

/// Split a radix prefix (`0x` or `0b`) off; the default radix is ten.
pub open spec fn split_radix(s: Seq<u8>) -> (nat, Seq<u8>) {
    if s.len() >= 2 && s[0] == ASCII_ZERO && s[1] == ASCII_LC_X {
        (16, s.subrange(2, s.len() as int))
    } else if s.len() >= 2 && s[0] == ASCII_ZERO && s[1] == ASCII_LC_B {
        (2, s.subrange(2, s.len() as int))
    } else {
        (10, s)
    }
}

/// The little-endian byte string of `v`, `n` bytes long.
pub open spec fn le_bytes_of(v: nat, n: nat) -> Seq<u8> {
    Seq::new(n, |i: int| ((v / pow256(i as nat)) % 256) as u8)
}

/// The two's complement of `v` in `n` bytes, for `v < 256^n`.
pub open spec fn negate_val(v: nat, n: nat) -> nat {
    if v == 0 {
        0
    } else {
        (pow256(n) - v) as nat
    }
}

/// The word read from byte pair `p`: the pair's bytes in order when the byte
/// order is big-endian, swapped otherwise.
pub open spec fn word_at(b: Seq<u8>, p: int, byte_big: bool) -> u16 {
    if byte_big {
        (b[2 * p] + 256 * b[2 * p + 1]) as u16
    } else {
        (b[2 * p + 1] + 256 * b[2 * p]) as u16
    }
}

/// The register words of a little-endian byte string: big-endian word order
/// takes the byte pairs from the most significant end down.
pub open spec fn words_of_le_bytes(b: Seq<u8>, byte_big: bool, word_big: bool) -> Seq<u16> {
    Seq::new(
        b.len() / 2,
        |k: int|
            word_at(
                b,
                if word_big {
                    b.len() / 2 - 1 - k
                } else {
                    k
                },
                byte_big,
            ),
    )
}

/// A string value's bytes: the text itself, padded with the fill byte, cut to
/// `n2` bytes.
pub open spec fn string_bytes(s: Seq<u8>, fill: u8, n2: nat) -> Seq<u8> {
    Seq::new(
        n2,
        |k: int|
            if k < s.len() {
                s[k]
            } else {
                fill
            },
    )
}

/// The register words of a string value: the first byte of each pair is the
/// high byte when the byte order is big-endian.
pub open spec fn string_words(b: Seq<u8>, byte_big: bool) -> Seq<u16> {
    Seq::new(
        b.len() / 2,
        |k: int|
            if byte_big {
                (256 * b[2 * k] + b[2 * k + 1]) as u16
            } else {
                (b[2 * k] + 256 * b[2 * k + 1]) as u16
            },
    )
}

/// The ranges whose initial values the verified codec parses: strings, and
/// unscaled integers.  Scaled and floating-point values need floating-point
/// conversion and stay with the shell.
pub open spec fn parseable(regs: RegisterRange) -> bool {
    match regs.encoding.value {
        ValueType::Integer { .. } => !regs.presentation.scaled,
        ValueType::String { .. } => true,
        ValueType::Float => false,
    }
}

/// What parsing an initial-value string yields for a register range.
pub open spec fn spec_parse(regs: RegisterRange, s: Seq<u8>) -> Result<Seq<u16>, ParseError> {
    let wc = reg_count(regs) as nat;
    let byte_big = regs.encoding.byte_order is BigEndian;
    let word_big = regs.encoding.word_order is BigEndian;
    match regs.encoding.value {
        ValueType::Integer { signed } => {
            let (neg, s1) = split_sign(s);
            let (radix, s2) = split_radix(s1);
            if !digits_ok(s2, radix) {
                Err(ParseError::InvalidIntegerValue)
            } else if neg && !signed {
                Err(ParseError::Negative)
            } else {
                let v = digits_val(s2, radix);
                if v >= pow256(2 * wc) {
                    Err(ParseError::TooBig)
                } else {
                    let enc = if neg {
                        negate_val(v, 2 * wc)
                    } else {
                        v
                    };
                    Ok(words_of_le_bytes(le_bytes_of(enc, 2 * wc), byte_big, word_big))
                }
            }
        },
        ValueType::String { fill } => Ok(
            string_words(string_bytes(s, fill, 2 * wc), byte_big),
        ),
        ValueType::Float => Err(ParseError::InvalidFloatLength),
    }
}

/// A little-endian byte string's value is below `256^len`.
pub proof fn lemma_le_val_bound(b: Seq<u8>)
    ensures
        le_val(b) < pow256(b.len()),
    decreases b.len(),
{
    if b.len() == 0 {
        assert(pow256(0) == 1) by {
            lemma_pow0(256);
        };
    } else {
        let t = b.subrange(1, b.len() as int);
        lemma_le_val_bound(t);
        assert(pow256(b.len()) == 256 * pow256(t.len())) by {
            lemma_pow_adds(256, 1, t.len());
            lemma_pow1(256);
            lemma_pow_positive(256, t.len());
            lemma_pow_positive(256, b.len());
        };
        assert(b[0] + 256 * le_val(t) < 256 * (le_val(t) + 1)) by (nonlinear_arith)
            requires
                b[0] < 256,
        ;
        assert(256 * (le_val(t) + 1) <= 256 * pow256(t.len())) by (nonlinear_arith)
            requires
                le_val(t) < pow256(t.len()),
        ;
    }
}

/// A minimal little-endian byte string's value reaches `256^(len-1)`.
pub proof fn lemma_le_val_minimal_lower(b: Seq<u8>)
    requires
        le_minimal(b),
        b.len() > 0,
    ensures
        le_val(b) >= pow256((b.len() - 1) as nat),
    decreases b.len(),
{
    let t = b.subrange(1, b.len() as int);
    if b.len() == 1 {
        assert(pow256(0) == 1) by {
            lemma_pow0(256);
        };
        assert(b[0] != 0);
    } else {
        assert(le_minimal(t));
        assert(t[t.len() - 1] == b[b.len() - 1]);
        lemma_le_val_minimal_lower(t);
        assert(pow256((b.len() - 1) as nat) == 256 * pow256((t.len() - 1) as nat)) by {
            lemma_pow_adds(256, 1, (t.len() - 1) as nat);
            lemma_pow1(256);
            lemma_pow_positive(256, (t.len() - 1) as nat);
            lemma_pow_positive(256, (b.len() - 1) as nat);
        };
        assert(256 * le_val(t) >= 256 * pow256((t.len() - 1) as nat)) by (nonlinear_arith)
            requires
                le_val(t) >= pow256((t.len() - 1) as nat),
        ;
    }
}

/// Appending a byte adds its value at the top position.
pub proof fn lemma_le_val_snoc(b: Seq<u8>, x: u8)
    ensures
        le_val(b.push(x)) == le_val(b) + x * pow256(b.len()),
    decreases b.len(),
{
    if b.len() == 0 {
        assert(b.push(x).len() == 1);
        assert(b.push(x)[0] == x);
        assert(b.push(x).subrange(1, 1) =~= Seq::<u8>::empty());
        assert(pow256(0) == 1) by {
            lemma_pow0(256);
        };
        assert(le_val(b.push(x).subrange(1, 1)) == 0);
        assert(le_val(b.push(x)) == x);
        assert(x * pow256(b.len()) == x) by (nonlinear_arith)
            requires
                pow256(b.len()) == 1,
        ;
    } else {
        let p = b.push(x);
        let t = b.subrange(1, b.len() as int);
        assert(p.subrange(1, p.len() as int) =~= t.push(x));
        lemma_le_val_snoc(t, x);
        assert(pow256(b.len()) == 256 * pow256(t.len())) by {
            lemma_pow_adds(256, 1, t.len());
            lemma_pow1(256);
            lemma_pow_positive(256, t.len());
            lemma_pow_positive(256, b.len());
        };
        assert(le_val(p) == b[0] + 256 * (le_val(t) + x * pow256(t.len())));
        assert(256 * (le_val(t) + x * pow256(t.len())) == 256 * le_val(t) + x * (256 * pow256(
            t.len(),
        ))) by (nonlinear_arith);
        assert(x * pow256(b.len()) == x * (256 * pow256(t.len()))) by (nonlinear_arith)
            requires
                pow256(b.len()) == 256 * pow256(t.len()),
        ;
        assert(le_val(b) == b[0] + 256 * le_val(t));
    }
}

/// `256^n` grows with `n`.
pub proof fn lemma_pow256_increases(a: nat, b: nat)
    requires
        a <= b,
    ensures
        pow256(a) <= pow256(b),
{
    lemma_pow_positive(256, a);
    lemma_pow_positive(256, b);
    if a < b {
        lemma_pow_strictly_increases(256, a, b);
    }
}

/// `le_bytes_of` inverts `le_val`: a byte string is the little-endian form
/// of its own value.
pub proof fn lemma_le_bytes_of_val(b: Seq<u8>)
    ensures
        le_bytes_of(le_val(b), b.len()) =~= b,
    decreases b.len(),
{
    let n = b.len();
    let v = le_val(b);
    if n > 0 {
        let t = b.subrange(1, n as int);
        let w = le_val(t);
        lemma_le_bytes_of_val(t);
        lemma_fundamental_div_mod_converse(v as int, 256, w as int, b[0] as int);
        assert forall|i: int| 0 <= i < n implies le_bytes_of(v, n)[i] == b[i] by {
            lemma_pow_positive(256, i as nat);
            if i == 0 {
                lemma_pow0(256);
                assert(le_bytes_of(v, n)[0] == ((v as int / 1) % 256) as u8);
                assert(v as int / 1 == v as int);
            } else {
                assert(pow256(i as nat) == 256 * pow256((i - 1) as nat)) by {
                    lemma_pow_adds(256, 1, (i - 1) as nat);
                    lemma_pow1(256);
                    lemma_pow_positive(256, (i - 1) as nat);
                };
                lemma_pow_positive(256, (i - 1) as nat);
                lemma_div_denominator(v as int, 256, pow256((i - 1) as nat) as int);
                assert(v as int / pow256(i as nat) as int == w as int / pow256((i - 1) as nat) as int);
                assert(le_bytes_of(w, t.len())[i - 1] == t[i - 1]);
            }
        };
    }
}

/// The numeric value of one digit character of the given radix.
fn digit_of(c: u8, radix: u8) -> (r: Option<u8>)
    requires
        radix <= 16,
    ensures
        r is Some <==> digit_ok(c, radix as nat),
        r is Some ==> r.unwrap() == digit_num(c) && r.unwrap() < radix,
{
    let d: u8 = if ASCII_ZERO <= c && c <= ASCII_NINE {
        c - ASCII_ZERO
    } else if ASCII_LC_A <= c && c <= ASCII_LC_F {
        c - ASCII_LC_A + 10
    } else if ASCII_UC_A <= c && c <= ASCII_UC_F {
        c - ASCII_UC_A + 10
    } else {
        99
    };
    if d < radix {
        Some(d)
    } else {
        None
    }
}

/// Multiply the little-endian number by the radix and add one digit.
fn mul_add(out: &mut Vec<u8>, radix: u8, d: u8)
    requires
        2 <= radix <= 16,
        d < radix,
        le_minimal(old(out)@),
    ensures
        le_minimal(final(out)@),
        le_val(final(out)@) == le_val(old(out)@) * radix + d,
{
    let ghost o = old(out)@;
    let ghost v = le_val(o);
    let ghost goal: nat = (v * radix + d) as nat;
    let n = out.len();
    let mut carry: u16 = d as u16;
    let mut k: usize = 0;
    proof {
        assert(o.subrange(0, 0) =~= Seq::<u8>::empty());
        assert(le_val(o.subrange(0, 0)) == 0);
        assert(o.subrange(0, n as int) =~= o);
        lemma_pow0(256);
        let c0: nat = carry as nat;
        assert(0 + c0 * pow256(0) + radix * v * pow256(0) == v * radix + d) by (nonlinear_arith)
            requires
                pow256(0) == 1,
                c0 == d,
        ;
    }
    while k < n
        invariant
            2 <= radix <= 16,
            n == out@.len(),
            o.len() == n,
            le_minimal(o),
            k <= n,
            carry < 256,
            goal == v * radix + d,
            forall|t: int| k <= t < n ==> #[trigger] out@[t] == o[t],
            le_val(out@.subrange(0, k as int)) + carry * pow256(k as nat) + radix * le_val(
                o.subrange(k as int, n as int),
            ) * pow256(k as nat) == goal,
            k > 0 ==> out@[k - 1] + 256 * carry >= 2 * o[k - 1],
        decreases n - k,
    {
        let ghost pre = out@;
        let ghost carry0 = carry;
        let b = out[k];
        proof {
            assert((b as int) * (radix as int) <= 255 * 16) by (nonlinear_arith)
                requires
                    0 <= b <= 255,
                    0 <= radix <= 16,
            ;
        }
        let t16: u16 = (b as u16) * (radix as u16) + carry;
        out[k] = (t16 % 256) as u8;
        carry = t16 / 256;
        proof {
            let p = pow256(k as nat);
            let p1 = pow256((k + 1) as nat);
            let newb = out@[k as int];
            lemma_pow_positive(256, k as nat);
            assert(p1 == 256 * p) by {
                lemma_pow_adds(256, k as nat, 1);
                lemma_pow1(256);
                lemma_pow_positive(256, (k + 1) as nat);
            };
            assert(b == o[k as int]);
            assert(newb + 256 * carry == t16 == b * radix + carry0);
            assert(out@.subrange(0, k as int) =~= pre.subrange(0, k as int));
            assert(out@.subrange(0, k + 1) =~= out@.subrange(0, k as int).push(newb));
            lemma_le_val_snoc(out@.subrange(0, k as int), newb);
            let ls = le_val(out@.subrange(0, k as int));
            let suf = le_val(o.subrange(k as int, n as int));
            let suf1 = le_val(o.subrange(k + 1, n as int));
            assert(o.subrange(k as int, n as int).subrange(
                1,
                o.subrange(k as int, n as int).len() as int,
            ) =~= o.subrange(k + 1, n as int));
            assert(suf == o[k as int] + 256 * suf1);
            assert(le_val(out@.subrange(0, k + 1)) + carry * p1 + radix * suf1 * p1 == goal)
                by (nonlinear_arith)
                requires
                    le_val(out@.subrange(0, k + 1)) == ls + newb * p,
                    p1 == 256 * p,
                    suf == b + 256 * suf1,
                    b == o[k as int],
                    newb + 256 * carry == b * radix + carry0,
                    ls + carry0 * p + radix * suf * p == goal,
            ;
            assert(newb + 256 * carry >= 2 * b) by (nonlinear_arith)
                requires
                    newb + 256 * carry == b * radix + carry0,
                    radix >= 2,
                    carry0 >= 0,
            ;
        }
        k += 1;
    }
    if carry > 0 {
        let ghost pre = out@;
        out.push(carry as u8);
        proof {
            lemma_le_val_snoc(pre, carry as u8);
            assert(pre =~= pre.subrange(0, n as int));
            assert(o.subrange(n as int, n as int) =~= Seq::<u8>::empty());
            assert(le_val(o.subrange(n as int, n as int)) == 0);
            assert(radix * 0 * pow256(n as nat) == 0) by (nonlinear_arith);
            assert(le_val(out@) == le_val(pre) + carry * pow256(n as nat));
            assert(out@[out@.len() - 1] == carry as u8);
        }
    } else {
        proof {
            assert(out@ =~= out@.subrange(0, n as int));
            assert(o.subrange(n as int, n as int) =~= Seq::<u8>::empty());
            assert(le_val(o.subrange(n as int, n as int)) == 0);
            assert(carry * pow256(n as nat) == 0) by (nonlinear_arith)
                requires
                    carry == 0,
            ;
            assert(radix * 0 * pow256(n as nat) == 0) by (nonlinear_arith);
            if n > 0 {
                assert(o[n - 1] != 0);
                assert(out@[n - 1] + 256 * 0 >= 2 * o[n - 1]);
                assert(out@[n - 1] != 0);
            }
        }
    }
}

/// Parse a digit string into the little-endian bytes of its value, in
/// shortest form.  Fails exactly when the string is empty or holds a
/// character that is no digit of the radix.
fn digits_to_le(digits: &[u8], radix: u8) -> (r: Option<Vec<u8>>)
    requires
        radix == 2 || radix == 10 || radix == 16,
    ensures
        r is Some <==> digits_ok(digits@, radix as nat),
        r is Some ==> le_val(r.unwrap()@) == digits_val(digits@, radix as nat) && le_minimal(
            r.unwrap()@,
        ),
{
    let n = digits.len();
    if n == 0 {
        return None;
    }
    let mut out: Vec<u8> = Vec::new();
    let mut i: usize = 0;
    proof {
        assert(digits@.subrange(0, 0) =~= Seq::<u8>::empty());
    }
    while i < n
        invariant
            radix == 2 || radix == 10 || radix == 16,
            n == digits@.len(),
            i <= n,
            forall|t: int| 0 <= t < i ==> digit_ok(#[trigger] digits@[t], radix as nat),
            le_minimal(out@),
            le_val(out@) == digits_val(digits@.subrange(0, i as int), radix as nat),
        decreases n - i,
    {
        let c = digits[i];
        let d = match digit_of(c, radix) {
            Some(d) => d,
            None => {
                proof {
                    assert(!digit_ok(digits@[i as int], radix as nat));
                }
                return None;
            },
        };
        mul_add(&mut out, radix, d);
        proof {
            assert(digits@.subrange(0, i + 1).drop_last() =~= digits@.subrange(0, i as int));
            assert(digits@.subrange(0, i + 1).last() == digits@[i as int]);
        }
        i += 1;
    }
    proof {
        assert(digits@.subrange(0, n as int) =~= digits@);
    }
    Some(out)
}

/// Grow the byte string to `n2` bytes by appending zero bytes; the value is
/// unchanged.
fn pad_to(bytes: &mut Vec<u8>, n2: usize)
    requires
        old(bytes)@.len() <= n2,
    ensures
        final(bytes)@.len() == n2,
        le_val(final(bytes)@) == le_val(old(bytes)@),
{
    while bytes.len() < n2
        invariant
            bytes@.len() <= n2,
            le_val(bytes@) == le_val(old(bytes)@),
        decreases n2 - bytes@.len(),
    {
        let ghost pre = bytes@;
        bytes.push(0);
        proof {
            lemma_le_val_snoc(pre, 0);
            assert((0 as u8) * pow256(pre.len()) == 0) by (nonlinear_arith);
        }
    }
}

/// Replace the byte string by its two's complement.
fn negate_le(bytes: &mut Vec<u8>)
    ensures
        final(bytes)@.len() == old(bytes)@.len(),
        le_val(final(bytes)@) == negate_val(le_val(old(bytes)@), old(bytes)@.len()),
{
    let n = bytes.len();
    proof {
        lemma_le_val_bound(old(bytes)@);
        assert(old(bytes)@.subrange(0, 0) =~= Seq::<u8>::empty());
        lemma_pow0(256);
    }
    let mut carry: u8 = 1;
    let mut k: usize = 0;
    while k < n
        invariant
            n == bytes@.len(),
            n == old(bytes)@.len(),
            k <= n,
            carry <= 1,
            forall|t: int| k <= t < n ==> #[trigger] bytes@[t] == old(bytes)@[t],
            carry == 1 ==> le_val(old(bytes)@.subrange(0, k as int)) == 0 && le_val(
                bytes@.subrange(0, k as int),
            ) == 0,
            carry == 0 ==> le_val(old(bytes)@.subrange(0, k as int)) > 0 && le_val(
                bytes@.subrange(0, k as int),
            ) + le_val(old(bytes)@.subrange(0, k as int)) == pow256(k as nat),
        decreases n - k,
    {
        let ghost pre = bytes@;
        let ghost carry0 = carry;
        let b = bytes[k];
        if b == 0 && carry == 1 {
            // low zero bytes stay zero under two's complement
        } else {
            if carry == 1 {
                bytes[k] = 255 - b + 1;
            } else {
                bytes[k] = 255 - b;
            }
            carry = 0;
        }
        proof {
            let p = pow256(k as nat);
            let p1 = pow256((k + 1) as nat);
            lemma_pow_positive(256, k as nat);
            assert(p1 == 256 * p) by {
                lemma_pow_adds(256, k as nat, 1);
                lemma_pow1(256);
                lemma_pow_positive(256, (k + 1) as nat);
            };
            let newb = bytes@[k as int];
            assert(b == old(bytes)@[k as int]);
            assert(bytes@.subrange(0, k as int) =~= pre.subrange(0, k as int));
            assert(bytes@.subrange(0, k + 1) =~= bytes@.subrange(0, k as int).push(newb));
            assert(old(bytes)@.subrange(0, k + 1) =~= old(bytes)@.subrange(0, k as int).push(b));
            lemma_le_val_snoc(bytes@.subrange(0, k as int), newb);
            lemma_le_val_snoc(old(bytes)@.subrange(0, k as int), b);
            let lnew = le_val(bytes@.subrange(0, k as int));
            let lold = le_val(old(bytes)@.subrange(0, k as int));
            let lnew1 = le_val(bytes@.subrange(0, k + 1));
            let lold1 = le_val(old(bytes)@.subrange(0, k + 1));
            assert(lnew1 == lnew + newb * p);
            assert(lold1 == lold + b * p);
            if carry0 == 1 && b == 0 {
                assert((0 as u8) * p == 0) by (nonlinear_arith);
            } else if carry0 == 1 {
                assert(newb == 256 - b);
                assert(lnew1 + lold1 == p1) by (nonlinear_arith)
                    requires
                        lnew == 0,
                        lold == 0,
                        lnew1 == lnew + newb * p,
                        lold1 == lold + b * p,
                        newb == 256 - b,
                        p1 == 256 * p,
                ;
                assert(lold1 > 0) by (nonlinear_arith)
                    requires
                        lold1 == lold + b * p,
                        lold == 0,
                        b >= 1,
                        p >= 1,
                ;
            } else {
                assert(newb == 255 - b);
                assert(lnew1 + lold1 == p1) by (nonlinear_arith)
                    requires
                        lnew + lold == p,
                        lnew1 == lnew + newb * p,
                        lold1 == lold + b * p,
                        newb == 255 - b,
                        p1 == 256 * p,
                ;
            }
        }
        k += 1;
    }
    proof {
        assert(bytes@.subrange(0, n as int) =~= bytes@);
        assert(old(bytes)@.subrange(0, n as int) =~= old(bytes)@);
    }
}

/// Pack a little-endian byte string into register words per the encoding.
pub fn build_words_from_le(bytes: &[u8], encoding: &Encoding) -> (words: Vec<u16>)
    requires
        bytes@.len() % 2 == 0,
    ensures
        words@ =~= words_of_le_bytes(
            bytes@,
            encoding.byte_order is BigEndian,
            encoding.word_order is BigEndian,
        ),
{
    let byte_big = encoding.byte_order.is_big_endian();
    let word_big = encoding.word_order.is_big_endian();
    let n = bytes.len() / 2;
    assert(bytes@.len() == 2 * n);
    let mut words: Vec<u16> = Vec::new();
    let mut k: usize = 0;
    while k < n
        invariant
            bytes@.len() == 2 * n,
            2 * n <= usize::MAX,
            byte_big == encoding.byte_order is BigEndian,
            word_big == encoding.word_order is BigEndian,
            k <= n,
            words@.len() == k,
            forall|t: int|
                0 <= t < k ==> #[trigger] words@[t] == words_of_le_bytes(
                    bytes@,
                    byte_big,
                    word_big,
                )[t],
        decreases n - k,
    {
        let p = if word_big {
            n - 1 - k
        } else {
            k
        };
        let b0 = bytes[2 * p];
        let b1 = bytes[2 * p + 1];
        let w: u16 = if byte_big {
            (b0 as u16) + 256 * (b1 as u16)
        } else {
            (b1 as u16) + 256 * (b0 as u16)
        };
        words.push(w);
        k += 1;
    }
    words
}

/// Pack a string value into register words: the text's bytes, padded with
/// the fill byte, two per register.
fn string_value_words(sb: &[u8], fill: u8, wc: usize, byte_big: bool) -> (words: Vec<u16>)
    requires
        2 * wc <= usize::MAX,
    ensures
        words@ =~= string_words(string_bytes(sb@, fill, (2 * wc) as nat), byte_big),
{
    let ghost padded = string_bytes(sb@, fill, (2 * wc) as nat);
    let mut words: Vec<u16> = Vec::new();
    let mut k: usize = 0;
    while k < wc
        invariant
            2 * wc <= usize::MAX,
            padded == string_bytes(sb@, fill, (2 * wc) as nat),
            k <= wc,
            words@.len() == k,
            forall|t: int|
                0 <= t < k ==> #[trigger] words@[t] == string_words(padded, byte_big)[t],
        decreases wc - k,
    {
        let b0 = if 2 * k < sb.len() {
            sb[2 * k]
        } else {
            fill
        };
        let b1 = if 2 * k + 1 < sb.len() {
            sb[2 * k + 1]
        } else {
            fill
        };
        proof {
            assert(padded[2 * (k as int)] == b0);
            assert(padded[2 * (k as int) + 1] == b1);
        }
        let w: u16 = if byte_big {
            256 * (b0 as u16) + (b1 as u16)
        } else {
            (b0 as u16) + 256 * (b1 as u16)
        };
        words.push(w);
        k += 1;
    }
    words
}

/// Parse an initial-value string into the register words of the range, per
/// `spec_parse`.  Scaled and floating-point ranges are outside the codec.
pub fn parse(regs: &RegisterRange, value_str: &str) -> (r: Result<Vec<u16>, ParseError>)
    requires
        regs.address_low <= regs.address_high,
        parseable(*regs),
    ensures
        ({
            let sp = spec_parse(*regs, value_str.spec_bytes());
            match r {
                Ok(v) => sp == Ok::<Seq<u16>, ParseError>(v@),
                Err(e) => sp == Err::<Seq<u16>, ParseError>(e),
            }
        }),
{
    let bytes = value_str.as_bytes();
    let ghost s = value_str.spec_bytes();
    let wc: usize = (regs.address_high - regs.address_low) as usize + 1;
    assert(wc == reg_count(*regs));
    match regs.encoding.value {
        ValueType::Integer { signed } => {
            let (neg, rest): (bool, &[u8]) = if bytes.len() > 0 && bytes[0] == ASCII_MINUS {
                (true, &bytes[1..bytes.len()])
            } else {
                (false, bytes)
            };
            proof {
                assert((neg, rest@) == split_sign(s));
            }
            let (radix, digits): (u8, &[u8]) = if rest.len() >= 2 && rest[0] == ASCII_ZERO
                && rest[1] == ASCII_LC_X {
                (16, &rest[2..rest.len()])
            } else if rest.len() >= 2 && rest[0] == ASCII_ZERO && rest[1] == ASCII_LC_B {
                (2, &rest[2..rest.len()])
            } else {
                (10, rest)
            };
            proof {
                assert((radix as nat, digits@) == split_radix(rest@));
            }
            let le_opt = digits_to_le(digits, radix);
            match le_opt {
                None => Err(ParseError::InvalidIntegerValue),
                Some(mut le) => {
                    if neg && !signed {
                        return Err(ParseError::Negative);
                    }
                    let ghost v = digits_val(digits@, radix as nat);
                    if le.len() > 2 * wc {
                        proof {
                            lemma_le_val_minimal_lower(le@);
                            lemma_pow256_increases((2 * wc) as nat, (le@.len() - 1) as nat);
                        }
                        Err(ParseError::TooBig)
                    } else {
                        proof {
                            lemma_le_val_bound(le@);
                            lemma_pow256_increases(le@.len(), (2 * wc) as nat);
                        }
                        pad_to(&mut le, 2 * wc);
                        if neg {
                            negate_le(&mut le);
                        }
                        proof {
                            lemma_le_bytes_of_val(le@);
                        }
                        let words = build_words_from_le(le.as_slice(), &regs.encoding);
                        Ok(words)
                    }
                },
            }
        },
        ValueType::String { fill } => {
            let byte_big = regs.encoding.byte_order.is_big_endian();
            let words = string_value_words(bytes, fill, wc, byte_big);
            Ok(words)
        },
        ValueType::Float => {
            // excluded by the precondition: float conversion is the shell's
            assert(false);
            Err(ParseError::InvalidFloatLength)
        },
    }
}


} // verus!
