//! The codec itself: one decoder and one encoder over the byte-stream
//! endpoints, monomorphic over `u128` with the target width passed as a bit
//! count, so that every primitive width from 7 value bits (a signed byte)
//! up to 128 is covered by the same verified code.

use vstd::arithmetic::div_mod::lemma_fundamental_div_mod;
use vstd::arithmetic::div_mod::lemma_fundamental_div_mod_converse;
use vstd::arithmetic::power2::lemma2_to64;
use vstd::arithmetic::power2::lemma2_to64_rest;
use vstd::arithmetic::power2::lemma_pow2_adds;
use vstd::arithmetic::power2::lemma_pow2_pos;
use vstd::arithmetic::power2::lemma_pow2_strictly_increases;
use vstd::arithmetic::power2::lemma_pow2_unfold;
use vstd::arithmetic::power2::pow2;
use vstd::prelude::*;

use crate::stream::ByteSink;
use crate::stream::ByteSource;
use crate::wire::byte_cont;
use crate::wire::byte_low;
use crate::wire::cont_bytes;
use crate::wire::decode_spec;
use crate::wire::encoding;
use crate::wire::lemma_encoding_len_bound;
use crate::wire::outcome_shift;
use crate::wire::pow128;
use crate::wire::DecodeOutcome;

verus! {

/// Why a read failed.
#[derive(Clone, Copy, Debug, PartialEq, Eq, Structural)]
pub enum ReadError {
    /// The source ended before the final byte of the encoding arrived.
    IoError,
    /// The encoded integer does not fit in the target width.
    Overflow,
}

/// Why a write failed.
#[derive(Clone, Copy, Debug, PartialEq, Eq, Structural)]
pub enum WriteError {
    /// The sink did not accept the whole encoding.
    IoError,
    /// Negative integers have no encoding; nothing was written.
    Negative,
}

/// The largest value a target of `bits` value bits can hold.
pub open spec fn width_max_spec(bits: nat) -> nat {
    (pow2(bits) - 1) as nat
}

/// Compute the largest value of a `bits`-wide target.
pub fn width_max(bits: u32) -> (r: u128)
    requires
        bits <= 128,
    ensures
        r as nat == width_max_spec(bits as nat),
{
    proof {
        lemma2_to64();
        lemma2_to64_rest();
        lemma_pow2_adds(64, 64);
    }
    let mut i: u32 = 0;
    let mut m: u128 = 0;
    while i < bits
        invariant
            i <= bits <= 128,
            m as nat == width_max_spec(i as nat),
            pow2(128) == 0x100000000000000000000000000000000,
        decreases bits - i,
    {
        proof {
            lemma_pow2_unfold((i + 1) as nat);
            lemma_pow2_pos(i as nat);
            if i + 1 < 128 {
                lemma_pow2_strictly_increases((i + 1) as nat, 128);
            }
        }
        m = m * 2 + 1;
        i = i + 1;
    }
    m
}

/// The cap of every whole-bit width leaves a full group of low payload bits:
/// its last seven bits are all ones.
pub proof fn lemma_width_max_mod(bits: nat)
    requires
        7 <= bits,
    ensures
        width_max_spec(bits) % 128 == 127,
{
    lemma_pow2_adds(7, (bits - 7) as nat);
    lemma_pow2_pos((bits - 7) as nat);
    let p = pow2((bits - 7) as nat);
    assert(pow2(7) == 128) by {
        lemma2_to64();
    }
    assert(width_max_spec(bits) == 128 * p - 1);
    lemma_fundamental_div_mod_converse(
        (128 * p - 1) as int,
        128,
        p as int - 1,
        127,
    );
}

/// 128 to the `n` is 2 to the `7 n`: byte groups against value bits.
proof fn lemma_pow128_pow2(n: nat)
    ensures
        pow128(n) == pow2(7 * n),
    decreases n,
{
    if n == 0 {
        lemma2_to64();
    } else {
        lemma_pow128_pow2((n - 1) as nat);
        lemma_pow2_adds(7 * (n - 1) as nat, 7);
        assert(pow2(7) == 128) by {
            lemma2_to64();
        }
    }
}

/// A value representable in `bits` value bits encodes in at most
/// `ceil(bits / 7)` bytes.
pub proof fn lemma_width_len_bound(v: nat, bits: nat)
    requires
        7 <= bits,
        v <= width_max_spec(bits),
    ensures
        encoding(v).len() <= (bits + 6) / 7,
{
    let n = (bits + 6) / 7;
    assert(7 * n >= bits) by {
        lemma_fundamental_div_mod((bits + 6) as int, 7);
    }
    lemma_pow128_pow2(n);
    if bits < 7 * n {
        lemma_pow2_strictly_increases(bits, 7 * n);
    }
    lemma_pow2_pos(bits);
    lemma_encoding_len_bound(v, n);
}

/// What feeding one byte to the decoder does.
#[derive(Clone, Copy, Debug, PartialEq, Eq, Structural)]
pub enum StepResult {
    /// The byte had its continuation bit set: more bytes are owed, and this
    /// is the running total so far.
    More(u128),
    /// The byte was final: this is the decoded value.
    Done(u128),
    /// The encoded integer does not fit under the cap.
    Overflow,
}

/// Fold one byte into the running total `acc` of a decode capped at `max`:
/// refuse the seven-bit shift when the total is already past `max / 128`,
/// fold the payload bits in, and on a continuation byte refuse the bias
/// increment at the cap and otherwise apply it.
pub fn decode_step(acc: u128, b: u8, max: u128) -> (r: StepResult)
    requires
        max % 128 == 127,
    ensures
        (if acc as nat > max as nat / 128 {
            r == StepResult::Overflow
        } else if byte_cont(b) {
            if acc as nat * 128 + byte_low(b) == max as nat {
                r == StepResult::Overflow
            } else {
                (r matches StepResult::More(x) && x as nat == acc as nat * 128 + byte_low(b) + 1)
            }
        } else {
            (r matches StepResult::Done(x) && x as nat == acc as nat * 128 + byte_low(b))
        }),
{
    if acc > max / 128 {
        return StepResult::Overflow;
    }
    proof {
        lemma_fundamental_div_mod(max as int, 128);
        assert(acc as int * 128 <= (max as int / 128) * 128) by (nonlinear_arith)
            requires acc as int <= max as int / 128;
    }
    let acc2 = acc * 128 + (b % 128) as u128;
    if b >= 128 {
        if acc2 == max {
            StepResult::Overflow
        } else {
            StepResult::More(acc2 + 1)
        }
    } else {
        StepResult::Done(acc2)
    }
}

/// Read one MSB128-encoded integer from `source` into a target of `bits`
/// value bits.  The outcome — the value and how far the cursor advances on
/// success, an exhausted source, or a value over the cap — is exactly what
/// `decode_spec` says of the bytes that were remaining.
pub fn read_positive(source: &mut ByteSource, bits: u32) -> (r: Result<u128, ReadError>)
    requires
        7 <= bits <= 128,
    ensures
        (match decode_spec(old(source)@, 0, width_max_spec(bits as nat)) {
            DecodeOutcome::Value { value, used } => {
                &&& (r matches Ok(v) && v as nat == value)
                &&& final(source)@ == old(source)@.skip(used as int)
            },
            DecodeOutcome::Truncated => {
                &&& r == Err::<u128, ReadError>(ReadError::IoError)
                &&& final(source)@ == Seq::<u8>::empty()
            },
            DecodeOutcome::Overflow { used } => {
                &&& r == Err::<u128, ReadError>(ReadError::Overflow)
                &&& final(source)@ == old(source)@.skip(used as int)
            },
        }),
{
    let ghost s0 = source@;
    let ghost maxn = width_max_spec(bits as nat);
    let max = width_max(bits);
    proof {
        lemma_width_max_mod(bits as nat);
    }
    let mut acc: u128 = 0;
    let ghost mut k: nat = 0;
    loop
        invariant
            s0 == old(source)@,
            max as nat == maxn,
            maxn == width_max_spec(bits as nat),
            max % 128 == 127,
            k <= s0.len(),
            source@ == s0.skip(k as int),
            decode_spec(s0, 0, maxn) == outcome_shift(decode_spec(source@, acc as nat, maxn), k),
        decreases source@.len(),
    {
        let ghost rem = source@;
        match source.read_byte() {
            None => {
                proof {
                    assert(decode_spec(rem, acc as nat, maxn) == DecodeOutcome::Truncated);
                    assert(decode_spec(s0, 0, maxn) == DecodeOutcome::Truncated);
                    assert(source@ =~= Seq::<u8>::empty());
                }
                return Err(ReadError::IoError);
            },
            Some(b) => {
                proof {
                    assert(rem[0] == b);
                    assert(source@ == rem.drop_first());
                    assert(source@ =~= s0.skip(k as int + 1));
                }
                match decode_step(acc, b, max) {
                    StepResult::Overflow => {
                        proof {
                            assert(decode_spec(rem, acc as nat, maxn) == (DecodeOutcome::Overflow {
                                used: 1,
                            }));
                            assert(decode_spec(s0, 0, maxn) == (DecodeOutcome::Overflow {
                                used: k + 1,
                            }));
                        }
                        return Err(ReadError::Overflow);
                    },
                    StepResult::Done(v) => {
                        proof {
                            assert(decode_spec(rem, acc as nat, maxn) == (DecodeOutcome::Value {
                                value: v as nat,
                                used: 1,
                            }));
                            assert(decode_spec(s0, 0, maxn) == (DecodeOutcome::Value {
                                value: v as nat,
                                used: k + 1,
                            }));
                        }
                        return Ok(v);
                    },
                    StepResult::More(a2) => {
                        proof {
                            let inner = decode_spec(source@, a2 as nat, maxn);
                            assert(decode_spec(rem, acc as nat, maxn) == outcome_shift(inner, 1));
                            assert(outcome_shift(outcome_shift(inner, 1), k) == outcome_shift(
                                inner,
                                k + 1,
                            ));
                            k = k + 1;
                        }
                        acc = a2;
                    },
                }
            },
        }
    }
}

/// The canonical wire form of `v`, as bytes: built low-group-first with the
/// inverse of the decoder's continuation bias, then reversed so that the
/// most significant group leads.
pub fn encode_bytes(v: u128) -> (r: Vec<u8>)
    ensures
        r@ == encoding(v as nat),
{
    if v <= 127 {
        let mut out: Vec<u8> = Vec::new();
        out.push(v as u8);
        proof {
            assert(out@ =~= encoding(v as nat));
        }
        return out;
    }
    let mut tmp: Vec<u8> = Vec::new();
    tmp.push((v % 128) as u8);
    let mut val: u128 = v / 128 - 1;
    proof {
        assert(tmp@.reverse() =~= seq![(v % 128) as u8]);
        assert(encoding(v as nat) == cont_bytes(val as nat) + tmp@.reverse());
    }
    while val > 127
        invariant
            encoding(v as nat) == cont_bytes(val as nat) + tmp@.reverse(),
        decreases val,
    {
        let ghost t0 = tmp@;
        let b = (val % 128 + 128) as u8;
        tmp.push(b);
        proof {
            assert(tmp@.reverse() =~= seq![b] + t0.reverse());
            assert(cont_bytes(val as nat) == cont_bytes((val as nat / 128 - 1) as nat).push(b));
            assert(cont_bytes((val as nat / 128 - 1) as nat) + (seq![b] + t0.reverse()) =~= (
            cont_bytes((val as nat / 128 - 1) as nat).push(b)) + t0.reverse());
        }
        val = val / 128 - 1;
    }
    let ghost t0 = tmp@;
    tmp.push((val + 128) as u8);
    proof {
        assert(cont_bytes(val as nat) =~= seq![(val + 128) as u8]);
        assert(tmp@.reverse() =~= seq![(val + 128) as u8] + t0.reverse());
        assert(cont_bytes(val as nat) + t0.reverse() =~= tmp@.reverse());
    }
    let mut out: Vec<u8> = Vec::new();
    while tmp.len() > 0
        invariant
            out@ + tmp@.reverse() == encoding(v as nat),
        decreases tmp@.len(),
    {
        let ghost t1 = tmp@;
        let ghost o1 = out@;
        match tmp.pop() {
            Some(b) => {
                out.push(b);
                proof {
                    assert(t1.reverse() =~= seq![b] + tmp@.reverse());
                    assert(out@ + tmp@.reverse() =~= o1 + t1.reverse());
                }
            },
            None => {},
        }
    }
    proof {
        assert(tmp@.reverse() =~= Seq::<u8>::empty());
        assert(out@ =~= encoding(v as nat));
    }
    out
}

/// How a write of value `v` relates the sink's contents before and after,
/// and the returned result: on room for the whole encoding, it is appended
/// and its length returned; otherwise what fits is appended and the write
/// fails.
pub open spec fn write_outcome(
    pre: Seq<u8>,
    cap: nat,
    v: nat,
    r: Result<usize, WriteError>,
    post: Seq<u8>,
) -> bool {
    let e = encoding(v);
    if pre.len() + e.len() <= cap {
        &&& (r matches Ok(n) && n == e.len())
        &&& post == pre + e
    } else {
        &&& r == Err::<usize, WriteError>(WriteError::IoError)
        &&& post == pre + e.take(cap as int - pre.len() as int)
    }
}

/// Write the MSB128 encoding of the non-negative value `input` to `sink`
/// and return the number of bytes written.
pub fn write_positive_unsigned(sink: &mut ByteSink, input: u128) -> (r: Result<
    usize,
    WriteError,
>)
    ensures
        final(sink).capacity() == old(sink).capacity(),
        write_outcome(old(sink)@, old(sink).capacity(), input as nat, r, final(sink)@),
{
    let bytes = encode_bytes(input);
    let n = bytes.len();
    if sink.write_all(&bytes) {
        Ok(n)
    } else {
        Err(WriteError::IoError)
    }
}

/// Write the MSB128 encoding of `input` to `sink` and return the number of
/// bytes written.  A negative input is refused before anything reaches the
/// sink.
pub fn write_positive(sink: &mut ByteSink, input: i128) -> (r: Result<usize, WriteError>)
    ensures
        final(sink).capacity() == old(sink).capacity(),
        input < 0 ==> r == Err::<usize, WriteError>(WriteError::Negative)
            && final(sink)@ == old(sink)@,
        input >= 0 ==> write_outcome(
            old(sink)@,
            old(sink).capacity(),
            input as nat,
            r,
            final(sink)@,
        ),
{
    if input < 0 {
        return Err(WriteError::Negative);
    }
    write_positive_unsigned(sink, input as u128)
}

} // verus!
