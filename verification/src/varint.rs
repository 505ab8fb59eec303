//! The base-128 variable-length integer codec: each byte contributes its
//! low seven bits, least significant group first, and its top bit says
//! whether more bytes follow. An encoding is at most ten bytes; the tenth
//! byte can only contribute the topmost bit of a 64-bit value.

use vstd::prelude::*;

use vstd::arithmetic::div_mod::lemma_fundamental_div_mod;
use vstd::arithmetic::power2::lemma2_to64;
use vstd::arithmetic::power2::lemma2_to64_rest;
use vstd::arithmetic::power2::lemma_pow2_adds;
use vstd::arithmetic::power2::lemma_pow2_strictly_increases;
use vstd::arithmetic::power2::pow2;
use vstd::bits::lemma_u64_shl_is_mul;
use vstd::pervasive::unreached;

use crate::XZError;
use crate::XZErrorKind;
use crate::XZResult;

verus! {

/// What decoding one varint from the front of a byte sequence yields:
/// a value together with the number of bytes it occupied, a failure
/// because a tenth byte still asked for more, or exhaustion of the
/// input before a terminating byte.
pub enum VarintOutcome {
    Value { v: u64, used: int },
    TooLong,
    Truncated,
}

/// The amount a byte adds to the accumulated value when it is the
/// `count`-th byte of an encoding: its low seven bits, scaled to their
/// position. The tenth byte (`count == 9`) reaches the top of a 64-bit
/// value, so only its lowest bit survives.
pub open spec fn varint_contribution(b: u8, count: int) -> int
    recommends
        0 <= count <= 9,
{
    if count == 9 {
        (b & 1) * pow2(63)
    } else {
        (b & 0x7f) * pow2((7 * count) as nat)
    }
}

/// Decoding from `bytes` with `res` already accumulated over `count`
/// earlier bytes. `used` counts the bytes consumed from `bytes`.
pub open spec fn varint_decode_rec(bytes: Seq<u8>, res: u64, count: int) -> VarintOutcome
    recommends
        0 <= count <= 9,
    decreases bytes.len(),
{
    if bytes.len() == 0 {
        VarintOutcome::Truncated
    } else {
        let b = bytes[0];
        let stepped = (res + varint_contribution(b, count)) as u64;
        if b & 0x80 == 0 {
            VarintOutcome::Value { v: stepped, used: 1 }
        } else if count >= 9 {
            VarintOutcome::TooLong
        } else {
            match varint_decode_rec(bytes.skip(1), stepped, count + 1) {
                VarintOutcome::Value { v, used } => VarintOutcome::Value { v, used: used + 1 },
                outcome => outcome,
            }
        }
    }
}

/// Decoding one varint that starts at `pos` in `bytes`.
pub open spec fn varint_at(bytes: Seq<u8>, pos: int) -> VarintOutcome
    recommends
        0 <= pos <= bytes.len(),
{
    varint_decode_rec(bytes.skip(pos), 0, 0)
}

/// The encoding of `v`: low seven bits per byte, least significant
/// first, continuation bit on every byte but the last.
pub open spec fn varint_encode(v: nat) -> Seq<u8>
    decreases v,
{
    if v < 0x80 {
        seq![v as u8]
    } else {
        seq![(0x80 + v % 0x80) as u8] + varint_encode(v / 0x80)
    }
}

/// Accumulator of a partial varint decode: the value gathered so far
/// and the number of bytes already folded in.
#[derive(Clone, Copy)]
pub struct PartialVarInt(pub u64, pub u8);

/// One step of the varint decoder: the value is complete, more bytes
/// are needed, or a tenth byte still asked for more.
#[derive(Clone, Copy)]
pub enum VarintResult {
    Full(u64),
    Partial(PartialVarInt),
    Error,
}

impl VarintResult {
    /// The completed value. Callers must have checked that the decode
    /// finished.
    pub fn unwrap(self) -> (v: u64)
        requires
            self is Full,
        ensures
            self == VarintResult::Full(v),
    {
        match self {
            VarintResult::Full(v) => v,
            _ => unreached(),
        }
    }
}

impl PartialVarInt {
    /// A partial decode after `count` bytes can only have filled the
    /// low `7 * count` bits.
    pub open spec fn fits(self) -> bool {
        self.1 <= 9 && (self.0 as int) < pow2((7 * self.1) as nat)
    }

    pub fn empty() -> (r: PartialVarInt)
        ensures
            r.0 == 0,
            r.1 == 0,
            r.fits(),
    {
        proof {
            lemma2_to64();
        }
        PartialVarInt(0, 0)
    }

    /// Folds one more byte into the accumulator, exactly as the decode
    /// specification does for the byte at position `self.1`.
    pub fn continue_parsing(self, b: u8) -> (r: VarintResult)
        requires
            self.fits(),
        ensures
            ({
                let stepped = self.0 + varint_contribution(b, self.1 as int);
                match r {
                    VarintResult::Full(v) => b & 0x80 == 0 && v == stepped,
                    VarintResult::Partial(p) => b & 0x80 != 0 && self.1 < 9 && p.0 == stepped
                        && p.1 == self.1 + 1 && p.fits(),
                    VarintResult::Error => b & 0x80 != 0 && self.1 == 9,
                }
            }),
    {
        let PartialVarInt(res, count) = self;
        proof {
            lemma_varint_step_fits(res, count as int, b);
        }
        let shifted: u64;
        if count == 9 {
            let top: u64 = (b & 1) as u64;
            proof {
                lemma2_to64_rest();
                lemma_u64_shl_is_mul(top, 63);
            }
            shifted = top << 63u64;
        } else {
            let low: u64 = (b & 0x7f) as u64;
            let sh: u64 = 7 * (count as u64);
            proof {
                assert(b & 0x7f < 0x80) by (bit_vector);
                lemma2_to64();
                lemma2_to64_rest();
                if sh < 56 {
                    lemma_pow2_strictly_increases(sh as nat, 56);
                }
                assert(low * pow2(sh as nat) <= 127 * pow2(56)) by (nonlinear_arith)
                    requires
                        low < 0x80,
                        pow2(sh as nat) <= pow2(56),
                ;
                lemma_u64_shl_is_mul(low, sh);
            }
            shifted = low << sh;
        }
        let stepped = res + shifted;
        if b & 0x80 == 0 {
            VarintResult::Full(stepped)
        } else if count == 9 {
            VarintResult::Error
        } else {
            VarintResult::Partial(PartialVarInt(stepped, count + 1))
        }
    }
}

/// The step of the decoder never overflows: with `count` bytes already
/// folded into `res`, the next byte's contribution stays under the next
/// seven-bit boundary, and under `2^64` in every case.
proof fn lemma_varint_step_fits(res: u64, count: int, b: u8)
    requires
        0 <= count <= 9,
        res < pow2((7 * count) as nat),
    ensures
        0 <= varint_contribution(b, count),
        count < 9 ==> res + varint_contribution(b, count) < pow2((7 * count + 7) as nat),
        res + varint_contribution(b, count) < pow2(64),
        pow2(64) == 0x10000000000000000,
{
    lemma2_to64();
    lemma2_to64_rest();
    if count == 9 {
        assert(b & 1 <= 1) by (bit_vector);
        assert(res + varint_contribution(b, count) < pow2(63) + pow2(63));
        assert(pow2(63) + pow2(63) == pow2(64));
    } else {
        let p = pow2((7 * count) as nat);
        assert(b & 0x7f < 0x80) by (bit_vector);
        lemma_pow2_adds((7 * count) as nat, 7);
        assert(res + (b & 0x7f) * p < 0x80 * p) by (nonlinear_arith)
            requires
                res < p,
                b & 0x7f < 0x80,
                0 < p,
        ;
        if 7 * count + 7 < 64 {
            lemma_pow2_strictly_increases((7 * count + 7) as nat, 64);
        }
    }
}

/// Decodes one varint from `bytes` starting at `*pos`, advancing `*pos`
/// over the consumed bytes, exactly as `varint_at` describes: the decoded
/// value, a `Varint` error on a tenth continuation byte, or an `IO` error
/// when the bytes run out first.
#[verifier::loop_isolation(false)]
pub fn from_reader(bytes: &Vec<u8>, pos: &mut usize) -> (r: XZResult<u64>)
    requires
        *old(pos) <= bytes@.len(),
    ensures
        *old(pos) <= *final(pos) <= bytes@.len(),
        match varint_at(bytes@, *old(pos) as int) {
            VarintOutcome::Value { v, used } => r == Ok::<u64, XZError>(v) && *final(pos) == *old(
                pos,
            ) + used,
            VarintOutcome::TooLong => (r matches Err(e) && e.kind == XZErrorKind::Varint
                && e.location is None && *final(pos) == *old(pos) + 10),
            VarintOutcome::Truncated => (r matches Err(e) && e.kind == XZErrorKind::IO
                && e.location is None && *final(pos) == bytes@.len()),
        },
{
    let ghost start = *pos as int;
    let mut partial = PartialVarInt::empty();
    while *pos < bytes.len()
        invariant
            start <= *pos <= bytes@.len(),
            partial.fits(),
            partial.1 == *pos - start,
            match varint_decode_rec(bytes@.skip(*pos as int), partial.0, partial.1 as int) {
                VarintOutcome::Value { v, used } => varint_at(bytes@, start)
                    == (VarintOutcome::Value { v, used: used + (*pos - start) }),
                outcome => varint_at(bytes@, start) == outcome,
            },
        decreases bytes@.len() - *pos,
    {
        let ghost prev = partial;
        let ghost p = *pos as int;
        let b = bytes[*pos];
        *pos = *pos + 1;
        proof {
            assert(bytes@.skip(p)[0] == b);
            assert(bytes@.skip(p).skip(1) =~= bytes@.skip(p + 1));
            lemma_varint_step_fits(prev.0, prev.1 as int, b);
        }
        match partial.continue_parsing(b) {
            VarintResult::Full(v) => {
                return Ok(v);
            },
            VarintResult::Error => {
                return Err(XZError::from(XZErrorKind::Varint));
            },
            VarintResult::Partial(p2) => {
                partial = p2;
            },
        }
    }
    proof {
        assert(bytes@.skip(*pos as int) =~= Seq::<u8>::empty());
    }
    Err(XZError::from(XZErrorKind::IO))
}

/// Encodes `v` as the byte sequence `varint_encode` describes.
#[verifier::loop_isolation(false)]
pub fn encode(v: u64) -> (r: Vec<u8>)
    ensures
        r@ == varint_encode(v as nat),
{
    let mut out: Vec<u8> = Vec::new();
    let mut val: u64 = v;
    proof {
        assert(varint_encode(v as nat) =~= out@ + varint_encode(val as nat));
    }
    while val >= 0x80
        invariant
            varint_encode(v as nat) == out@ + varint_encode(val as nat),
        decreases val,
    {
        let ghost prev = val as nat;
        let ghost prev_out = out@;
        let b: u8 = (val % 0x80 + 0x80) as u8;
        out.push(b);
        val = val / 0x80;
        proof {
            assert(varint_encode(prev) == seq![b] + varint_encode(val as nat));
            assert(out@ + varint_encode(val as nat) =~= prev_out + varint_encode(prev));
        }
    }
    out.push(val as u8);
    proof {
        assert(varint_encode(val as nat) == seq![val as u8]);
        assert(out@ =~= varint_encode(v as nat));
    }
    out
}

/// Round trip: decoding the encoding of any 64-bit value, with any bytes
/// following it, yields that value back and consumes exactly the encoded
/// bytes. Stated over an arbitrary accumulator state so it can be proved
/// by induction over the encoding.
proof fn lemma_varint_decode_encode(v: nat, tail: Seq<u8>, res: u64, count: int)
    requires
        0 <= count <= 9,
        res < pow2((7 * count) as nat),
        v < pow2((64 - 7 * count) as nat),
    ensures
        varint_encode(v).len() >= 1,
        varint_decode_rec(varint_encode(v) + tail, res, count) == (VarintOutcome::Value {
            v: (res + v * pow2((7 * count) as nat)) as u64,
            used: varint_encode(v).len() as int,
        }),
    decreases v,
{
    lemma2_to64();
    lemma2_to64_rest();
    let p7c = pow2((7 * count) as nat);
    let s = varint_encode(v) + tail;
    lemma_pow2_adds((7 * count) as nat, (64 - 7 * count) as nat);
    assert(res + v * p7c < pow2(64)) by (nonlinear_arith)
        requires
            res < p7c,
            v < pow2((64 - 7 * count) as nat),
            p7c * pow2((64 - 7 * count) as nat) == pow2(64),
            0 < p7c,
    ;
    if v < 0x80 {
        let b = v as u8;
        assert(s[0] == b);
        assert(b & 0x80 == 0) by (bit_vector)
            requires
                b < 0x80,
        ;
        if count == 9 {
            assert(b & 1 == b) by (bit_vector)
                requires
                    b < 2,
            ;
        } else {
            assert(b & 0x7f == b) by (bit_vector)
                requires
                    b < 0x80,
            ;
        }
        assert(varint_contribution(b, count) == v * p7c);
    } else {
        let b = (0x80 + v % 0x80) as u8;
        assert(s[0] == b);
        assert(b & 0x80 != 0 && b & 0x7f == b - 0x80) by (bit_vector)
            requires
                0x80 <= b,
        ;
        // a tenth byte never carries a continuation bit: v would exceed 2^1
        assert(count < 9);
        let stepped = res + varint_contribution(b, count);
        lemma_pow2_adds((7 * count) as nat, 7);
        assert(varint_contribution(b, count) == (v % 0x80) * p7c);
        assert(res + (v % 0x80) * p7c < pow2((7 * count + 7) as nat)) by (nonlinear_arith)
            requires
                res < p7c,
                v % 0x80 < 0x80,
                pow2((7 * count + 7) as nat) == p7c * 0x80,
                0 < p7c,
        ;
        assert(stepped < pow2((7 * count + 7) as nat));
        lemma_pow2_adds((7 * (count + 1)) as nat, (64 - 7 * (count + 1)) as nat);
        assert(v / 0x80 < pow2((64 - 7 * (count + 1)) as nat)) by (nonlinear_arith)
            requires
                v < pow2((64 - 7 * count) as nat),
                pow2((64 - 7 * count) as nat) == 0x80 * pow2((64 - 7 * (count + 1)) as nat),
        ;
        assert(s.skip(1) =~= varint_encode(v / 0x80) + tail);
        lemma_varint_decode_encode(v / 0x80, tail, stepped as u64, count + 1);
        lemma_fundamental_div_mod(v as int, 0x80);
        assert(stepped + (v / 0x80) * pow2((7 * (count + 1)) as nat) == res + v * p7c)
            by (nonlinear_arith)
            requires
                stepped == res + (v % 0x80) * p7c,
                pow2((7 * (count + 1)) as nat) == p7c * 0x80,
                v == 0x80 * (v / 0x80) + v % 0x80,
        ;
    }
}

/// Round trip law: encoding any 64-bit value and then decoding yields the
/// value back, consuming exactly the encoded bytes.
pub proof fn lemma_varint_round_trip(v: u64)
    ensures
        varint_at(varint_encode(v as nat), 0) == (VarintOutcome::Value {
            v,
            used: varint_encode(v as nat).len() as int,
        }),
{
    lemma2_to64();
    lemma2_to64_rest();
    lemma_varint_decode_encode(v as nat, Seq::<u8>::empty(), 0, 0);
    assert(varint_encode(v as nat) + Seq::<u8>::empty() =~= varint_encode(v as nat));
    assert(varint_encode(v as nat).skip(0) =~= varint_encode(v as nat));
    assert(pow2((7 * 0) as nat) == 1);
    assert((v as nat) * pow2((7 * 0) as nat) == v as nat) by (nonlinear_arith)
        requires
            pow2((7 * 0) as nat) == 1,
    ;
    assert((0 + (v as nat) * pow2((7 * 0) as nat)) as u64 == v);
}

/// Ten bytes that all ask for continuation are rejected, whatever state
/// the decoder is in after the bytes already seen.
proof fn lemma_varint_overlong_rec(bytes: Seq<u8>, res: u64, count: int)
    requires
        0 <= count <= 9,
        bytes.len() >= 10 - count,
        forall|i: int| 0 <= i < 10 - count ==> bytes[i] & 0x80 != 0,
    ensures
        varint_decode_rec(bytes, res, count) is TooLong,
    decreases 9 - count,
{
    if count < 9 {
        let stepped = (res + varint_contribution(bytes[0], count)) as u64;
        assert(bytes.skip(1).len() >= 10 - (count + 1));
        assert forall|i: int| 0 <= i < 10 - (count + 1) implies bytes.skip(1)[i] & 0x80 != 0 by {
            assert(bytes.skip(1)[i] == bytes[i + 1]);
        }
        lemma_varint_overlong_rec(bytes.skip(1), stepped, count + 1);
    }
}

/// A sequence of ten continuation bytes fails to decode as a varint.
pub proof fn lemma_varint_rejects_overlong(bytes: Seq<u8>)
    requires
        bytes.len() >= 10,
        forall|i: int| 0 <= i < 10 ==> bytes[i] & 0x80 != 0,
    ensures
        varint_at(bytes, 0) is TooLong,
{
    assert(bytes.skip(0) =~= bytes);
    lemma_varint_overlong_rec(bytes, 0, 0);
}

/// A completed decode used at least one byte and no more than were there.
pub proof fn lemma_varint_used_bounds(bytes: Seq<u8>, res: u64, count: int)
    ensures
        varint_decode_rec(bytes, res, count) matches VarintOutcome::Value { used, .. } ==> 1
            <= used <= bytes.len(),
    decreases bytes.len(),
{
    if bytes.len() > 0 {
        let b = bytes[0];
        let stepped = (res + varint_contribution(b, count)) as u64;
        if b & 0x80 != 0 && count < 9 {
            lemma_varint_used_bounds(bytes.skip(1), stepped, count + 1);
        }
    }
}

/// Decoding reads only the bytes it consumes: any sequence that agrees
/// with `b1` on those bytes decodes to the same value.
pub proof fn lemma_varint_agree(b1: Seq<u8>, b2: Seq<u8>, res: u64, count: int)
    requires
        varint_decode_rec(b1, res, count) is Value,
        b2.len() >= varint_decode_rec(b1, res, count)->used,
        b2.take(varint_decode_rec(b1, res, count)->used) == b1.take(
            varint_decode_rec(b1, res, count)->used,
        ),
    ensures
        varint_decode_rec(b2, res, count) == varint_decode_rec(b1, res, count),
    decreases b1.len(),
{
    let used = varint_decode_rec(b1, res, count)->used;
    lemma_varint_used_bounds(b1, res, count);
    assert(b2[0] == b1[0]) by {
        assert(b1.take(used)[0] == b1[0]);
        assert(b2.take(used)[0] == b2[0]);
    }
    let b = b1[0];
    let stepped = (res + varint_contribution(b, count)) as u64;
    if b & 0x80 != 0 && count < 9 {
        assert(b1.skip(1).take(used - 1) =~= b2.skip(1).take(used - 1)) by {
            assert forall|i: int| 0 <= i < used - 1 implies b1.skip(1)[i] == b2.skip(1)[i] by {
                assert(b1.take(used)[i + 1] == b1[i + 1]);
                assert(b2.take(used)[i + 1] == b2[i + 1]);
            }
        }
        lemma_varint_agree(b1.skip(1), b2.skip(1), stepped, count + 1);
    }
}

} // verus!
