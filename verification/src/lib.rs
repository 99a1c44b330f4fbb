//! Decoding of LEB128-style variable-length unsigned integers ("varints").
//!
//! Each encoded byte carries 7 payload bits in its low bits; the high bit is
//! a continuation flag (set means "more bytes follow"). Decoding consumes
//! bytes from the front of a buffer until the first byte whose high bit is
//! clear, and returns the decoded value together with the unconsumed suffix.

use vstd::prelude::*;

verus! {

use vstd::arithmetic::power2::{pow2, lemma_pow2_adds, lemma_pow2_pos, lemma2_to64};
use vstd::arithmetic::div_mod::lemma_fundamental_div_mod;
use vstd::slice::{slice_index_get, slice_subrange};

/// The two ways a decode can fail.
///
/// `InsufficientData`: the buffer ran out while a continuation bit was still
/// set (the varint is truncated); the caller may supply more bytes and retry.
///
/// `MalformedVarint`: the encoded sequence denotes a value (or byte count)
/// outside the range of the accumulator type; a terminal parse error.
#[derive(Clone, Copy, Debug, PartialEq, Eq, Structural)]
pub enum DecodeError {
    InsufficientData,
    MalformedVarint,
}

/// The payload an encoded byte contributes: its low 7 bits.
pub open spec fn payload_of(b: u8) -> nat {
    (b & 0x7f) as nat
}

/// Whether an encoded byte has its continuation bit (0x80) set,
/// meaning more bytes of the same varint follow.
pub open spec fn has_continuation(b: u8) -> bool {
    b >= 0x80
}

/// The meaning of decoding a varint from `s` when the bytes consumed so far
/// have contributed `acc` and the next byte's payload lands `shift` bits up.
///
/// An empty buffer mid-sequence is `InsufficientData`. A byte whose shifted
/// payload cannot be represented in the accumulator type — either because the
/// shift itself has passed the type's width, or because adding the shifted
/// payload would exceed `usize::MAX` — is `MalformedVarint`. Otherwise the
/// payload is added in, and the first byte without a continuation bit ends
/// the varint, yielding the value and the unconsumed suffix.
pub open spec fn decode_from(s: Seq<u8>, shift: nat, acc: nat) -> Result<
    (Seq<u8>, nat),
    DecodeError,
>
    decreases s.len(),
{
    if s.len() == 0 {
        Err(DecodeError::InsufficientData)
    } else if pow2(shift) > usize::MAX as nat || acc + payload_of(s[0]) * pow2(shift)
        > usize::MAX as nat {
        Err(DecodeError::MalformedVarint)
    } else if !has_continuation(s[0]) {
        Ok((s.skip(1), acc + payload_of(s[0]) * pow2(shift)))
    } else {
        decode_from(s.skip(1), shift + 7, acc + payload_of(s[0]) * pow2(shift))
    }
}

/// What decoding one varint from the front of `s` yields:
/// the unconsumed suffix and the decoded value, or the error.
pub open spec fn decode_spec(s: Seq<u8>) -> Result<(Seq<u8>, nat), DecodeError> {
    decode_from(s, 0, 0)
}

/// For `b > 0`: `x` exceeds the floored quotient `a / b` exactly when
/// `x * b` exceeds `a`. This justifies testing `res + payload * place`
/// against `usize::MAX` by one division instead of a wide multiplication.
proof fn lemma_div_headroom(x: nat, a: nat, b: nat)
    requires
        0 < b,
    ensures
        x > a / b <==> x * b > a,
{
    lemma_fundamental_div_mod(a as int, b as int);
    let q = a / b;
    let m = a % b;
    assert(a == b * q + m && m < b);
    if x > q {
        assert(x * b > a) by (nonlinear_arith)
            requires
                x >= q + 1,
                a == b * q + m,
                m < b,
        ;
    } else {
        assert(x * b <= a) by (nonlinear_arith)
            requires
                x <= q,
                a == b * q + m,
                0 <= m,
        ;
    }
}

/// Decodes one varint from the front of `i`.
///
/// On success returns the bytes after the varint (a view into `i`, not a
/// copy) and the decoded value; the result and each error case are exactly
/// those of `decode_spec` on the input bytes.
pub fn take_varint(i: &[u8]) -> (r: Result<(&[u8], usize), DecodeError>)
    ensures
        match decode_spec(i@) {
            Ok(p) => r matches Ok(q) && q.0@ == p.0 && q.1 as nat == p.1,
            Err(e) => r matches Err(e2) && e2 == e,
        },
{
    let mut res: usize = 0;
    let mut pos: usize = 0;
    // `place` holds 2^shift while that still fits; once the shift has passed
    // the width of usize, `wide` records that fact instead.
    let mut place: usize = 1;
    let mut wide: bool = false;
    let ghost mut shift: nat = 0;
    proof {
        assert(i@.skip(0) =~= i@);
        lemma2_to64();
    }
    loop
        invariant
            pos <= i@.len(),
            decode_spec(i@) == decode_from(i@.skip(pos as int), shift, res as nat),
            !wide ==> place as nat == pow2(shift),
            wide ==> pow2(shift) > usize::MAX as nat,
        decreases i@.len() - pos,
    {
        if pos >= i.len() {
            return Err(DecodeError::InsufficientData);
        }
        let byte = *slice_index_get(i, pos);
        proof {
            assert(i@.skip(pos as int)[0] == byte);
        }
        if wide {
            return Err(DecodeError::MalformedVarint);
        }
        proof {
            lemma_pow2_pos(shift);
        }
        let payload = (byte & 0x7f) as usize;
        let headroom = (usize::MAX - res) / place;
        proof {
            lemma_div_headroom(payload as nat, (usize::MAX - res) as nat, place as nat);
        }
        if payload > headroom {
            return Err(DecodeError::MalformedVarint);
        }
        res = res + payload * place;
        pos = pos + 1;
        proof {
            assert(i@.skip(pos - 1).skip(1) =~= i@.skip(pos as int));
        }
        if byte < 0x80 {
            let rest = slice_subrange(i, pos, i.len());
            proof {
                assert(rest@ =~= i@.skip(pos as int));
            }
            return Ok((rest, res));
        }
        proof {
            lemma2_to64();
            lemma_pow2_adds(shift, 7);
            lemma_div_headroom(place as nat, usize::MAX as nat, 128);
            shift = shift + 7;
        }
        if place > usize::MAX / 128 {
            wide = true;
        } else {
            place = place * 128;
        }
    }
}

/// The canonical varint encoding of `v`: seven payload bits per byte, least
/// significant group first, continuation bit set on every byte but the last.
pub open spec fn encode_spec(v: nat) -> Seq<u8>
    decreases v,
{
    if v < 128 {
        seq![v as u8]
    } else {
        seq![((v % 128) + 128) as u8] + encode_spec(v / 128)
    }
}

/// Encodes `v` as a varint. Encoding is outside the decoder's own scope;
/// the function exists to validate the decoder, as the inverse that the
/// round-trip law is stated against.
pub fn encode_varint(v: usize) -> (r: Vec<u8>)
    ensures
        r@ == encode_spec(v as nat),
{
    let mut out: Vec<u8> = Vec::new();
    let mut x: usize = v;
    proof {
        assert(encode_spec(v as nat) =~= out@ + encode_spec(x as nat));
    }
    while x >= 128
        invariant
            encode_spec(v as nat) == out@ + encode_spec(x as nat),
        decreases x,
    {
        let ghost out0 = out@;
        let ghost x0 = x as nat;
        let b = (x % 128 + 128) as u8;
        out.push(b);
        x = x / 128;
        proof {
            assert(encode_spec(x0) == seq![b] + encode_spec(x as nat));
            assert(out0 + encode_spec(x0) =~= out@ + encode_spec(x as nat));
        }
    }
    let ghost out1 = out@;
    out.push(x as u8);
    proof {
        assert(out@ =~= out1 + encode_spec(x as nat));
    }
    out
}

/// Decoding an encoding laid down mid-varint: with `acc` accumulated, the
/// next payload landing `shift` bits up, and `rest` following the encoding
/// of `v`, decoding consumes exactly that encoding and adds `v * 2^shift`.
proof fn lemma_decode_from_encode(v: nat, rest: Seq<u8>, shift: nat, acc: nat)
    requires
        pow2(shift) <= usize::MAX as nat,
        acc + v * pow2(shift) <= usize::MAX as nat,
    ensures
        decode_from(encode_spec(v) + rest, shift, acc) == Ok::<(Seq<u8>, nat), DecodeError>(
            (rest, (acc + v * pow2(shift)) as nat),
        ),
    decreases v,
{
    let s = encode_spec(v) + rest;
    let p = pow2(shift);
    if v < 128 {
        let b = v as u8;
        assert(s[0] == b);
        assert(b & 0x7f == b) by (bit_vector)
            requires
                b < 0x80,
        ;
        assert(s.skip(1) =~= rest);
    } else {
        let b = ((v % 128) + 128) as u8;
        assert(s[0] == b);
        let q = v / 128;
        let m = v % 128;
        lemma_fundamental_div_mod(v as int, 128);
        assert(b & 0x7f == b - 128) by (bit_vector)
            requires
                b >= 128,
        ;
        assert(payload_of(b) == m);
        lemma_pow2_adds(shift, 7);
        lemma2_to64();
        assert(m * p + q * (p * 128) == v * p) by (nonlinear_arith)
            requires
                v == 128 * q + m,
        ;
        assert(m * p <= v * p) by (nonlinear_arith)
            requires
                m <= v,
        ;
        assert(p * 128 <= q * (p * 128)) by (nonlinear_arith)
            requires
                q >= 1,
        ;
        lemma_decode_from_encode(q, rest, shift + 7, acc + m * p);
        assert(s.skip(1) =~= encode_spec(q) + rest);
    }
}

/// Round-trip law: decoding a freshly encoded value yields exactly that
/// value, consumes exactly the encoding, and hands back whatever follows
/// it untouched.
pub proof fn lemma_round_trip(v: nat, rest: Seq<u8>)
    requires
        v <= usize::MAX as nat,
    ensures
        decode_spec(encode_spec(v) + rest) == Ok::<(Seq<u8>, nat), DecodeError>((rest, v)),
{
    lemma2_to64();
    lemma_decode_from_encode(v, rest, 0, 0);
}

/// Round-trip law, with nothing after the encoding: decoding it yields the
/// value and an empty remainder.
pub proof fn lemma_round_trip_exact(v: nat)
    requires
        v <= usize::MAX as nat,
    ensures
        decode_spec(encode_spec(v)) == Ok::<(Seq<u8>, nat), DecodeError>((Seq::<u8>::empty(), v)),
{
    lemma_round_trip(v, Seq::<u8>::empty());
    assert(encode_spec(v) + Seq::<u8>::empty() =~= encode_spec(v));
}

/// Bytes `0 ..= n` of `s` all carry the continuation bit, and by byte `n`
/// the shift has passed the accumulator's width: decoding fails with
/// `MalformedVarint`.
proof fn lemma_continuations_overflow(s: Seq<u8>, shift: nat, acc: nat, n: nat)
    requires
        n < s.len(),
        forall|j: int| 0 <= j <= n ==> has_continuation(#[trigger] s[j]),
        pow2(shift + 7 * n) > usize::MAX as nat,
    ensures
        decode_from(s, shift, acc) == Err::<(Seq<u8>, nat), DecodeError>(
            DecodeError::MalformedVarint,
        ),
    decreases n,
{
    if pow2(shift) <= usize::MAX as nat && acc + payload_of(s[0]) * pow2(shift) <= usize::MAX
        as nat {
        assert(n > 0);
        assert(forall|j: int|
            0 <= j <= n - 1 ==> has_continuation(#[trigger] s.skip(1)[j]) == has_continuation(
                s[j + 1],
            ));
        lemma_continuations_overflow(
            s.skip(1),
            shift + 7,
            acc + payload_of(s[0]) * pow2(shift),
            (n - 1) as nat,
        );
    }
}

/// Overflow law: eleven leading bytes that all carry the continuation bit
/// denote a shift past the width of any supported accumulator, so decoding
/// fails with `MalformedVarint` — the value is never wrapped or truncated.
pub proof fn lemma_overflow_rejected(s: Seq<u8>)
    requires
        s.len() >= 11,
        forall|j: int| 0 <= j < 11 ==> has_continuation(#[trigger] s[j]),
    ensures
        decode_spec(s) == Err::<(Seq<u8>, nat), DecodeError>(DecodeError::MalformedVarint),
{
    lemma2_to64();
    lemma_pow2_adds(64, 6);
    lemma_continuations_overflow(s, 0, 0, 10);
}

} // verus!
