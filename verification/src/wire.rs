//! Mathematical model of the MSB128 wire format.
//!
//! A wire form is a byte sequence in which every byte but the last has its
//! high bit set and the last does not.  Decoding folds the bytes in from the
//! left: each byte contributes its low seven bits to the running total, and a
//! set high bit additionally adds one after the fold.  `encoding` gives the
//! canonical wire form of a value; `decode_spec` says exactly what a decoder
//! with a capped target width does on an arbitrary stream.

use vstd::prelude::*;

verus! {

/// The seven payload bits of a byte.
pub open spec fn byte_low(b: u8) -> nat {
    (b as nat) % 128
}

/// Whether the byte announces that more bytes follow.
pub open spec fn byte_cont(b: u8) -> bool {
    b >= 128
}

/// Folding one byte into the running total: shift in the payload, and add
/// one more when the byte carries the continuation bit.
pub open spec fn fold_step(acc: nat, b: u8) -> nat {
    if byte_cont(b) {
        acc * 128 + byte_low(b) + 1
    } else {
        acc * 128 + byte_low(b)
    }
}

/// The running total after folding in a whole byte sequence, left to right.
pub open spec fn fold_value(acc: nat, s: Seq<u8>) -> nat
    decreases s.len(),
{
    if s.len() == 0 {
        acc
    } else {
        fold_value(fold_step(acc, s[0]), s.drop_first())
    }
}

/// The value carried by a complete wire form.
pub open spec fn wire_value(s: Seq<u8>) -> nat {
    fold_value(0, s)
}

/// A structurally complete wire form: at least one byte, continuation bit on
/// every byte but the last, and off on the last.
pub open spec fn valid_wire(s: Seq<u8>) -> bool {
    &&& s.len() >= 1
    &&& forall|i: int| 0 <= i < s.len() - 1 ==> byte_cont(#[trigger] s[i])
    &&& !byte_cont(s[s.len() - 1])
}

/// The continuation bytes that precede the final byte when the value still
/// owed to the stream is `w`: the wire form of `w` with every continuation
/// bit set (each set bit pays back the one the decoder will add).
pub open spec fn cont_bytes(w: nat) -> Seq<u8>
    decreases w,
{
    if w < 128 {
        seq![(w + 128) as u8]
    } else {
        cont_bytes((w / 128 - 1) as nat).push((w % 128 + 128) as u8)
    }
}

/// The canonical wire form of a value.
pub open spec fn encoding(v: nat) -> Seq<u8> {
    if v < 128 {
        seq![v as u8]
    } else {
        cont_bytes((v / 128 - 1) as nat).push((v % 128) as u8)
    }
}

/// What one decoding attempt does to a stream: the decoded value together
/// with the number of bytes consumed, a stream that ended before the final
/// byte (everything available was consumed), or a value that cannot be
/// represented under the cap `max` (`used` bytes were consumed before the
/// attempt was abandoned).
pub enum DecodeOutcome {
    Value { value: nat, used: nat },
    Truncated,
    Overflow { used: nat },
}

/// The exact behaviour of the decoder on stream `s` with running total `acc`
/// and representable maximum `max`.  A byte is always consumed before any
/// check, the shift is refused as soon as the total could not take another
/// seven bits, and the continuation increment is refused at the cap.
pub open spec fn decode_spec(s: Seq<u8>, acc: nat, max: nat) -> DecodeOutcome
    decreases s.len(),
{
    if s.len() == 0 {
        DecodeOutcome::Truncated
    } else {
        let b = s[0];
        if acc > max / 128 {
            DecodeOutcome::Overflow { used: 1 }
        } else {
            let acc2 = acc * 128 + byte_low(b);
            if byte_cont(b) {
                if acc2 == max {
                    DecodeOutcome::Overflow { used: 1 }
                } else {
                    match decode_spec(s.drop_first(), acc2 + 1, max) {
                        DecodeOutcome::Value { value, used } => DecodeOutcome::Value {
                            value,
                            used: used + 1,
                        },
                        DecodeOutcome::Truncated => DecodeOutcome::Truncated,
                        DecodeOutcome::Overflow { used } => DecodeOutcome::Overflow {
                            used: used + 1,
                        },
                    }
                }
            } else {
                DecodeOutcome::Value { value: acc2, used: 1 }
            }
        }
    }
}

/// The same outcome, with `k` further bytes counted as already consumed.
pub open spec fn outcome_shift(o: DecodeOutcome, k: nat) -> DecodeOutcome {
    match o {
        DecodeOutcome::Value { value, used } => DecodeOutcome::Value { value, used: used + k },
        DecodeOutcome::Truncated => DecodeOutcome::Truncated,
        DecodeOutcome::Overflow { used } => DecodeOutcome::Overflow { used: used + k },
    }
}

/// Folding a byte appended on the right is one more fold step.
proof fn lemma_fold_push(acc: nat, s: Seq<u8>, b: u8)
    ensures
        fold_value(acc, s.push(b)) == fold_step(fold_value(acc, s), b),
    decreases s.len(),
{
    reveal_with_fuel(fold_value, 3);
    if s.len() == 0 {
        assert(s.push(b)[0] == b);
        assert(s.push(b).drop_first() =~= Seq::<u8>::empty());
    } else {
        assert(s.push(b)[0] == s[0]);
        assert(s.push(b).drop_first() =~= s.drop_first().push(b));
        lemma_fold_push(fold_step(acc, s[0]), s.drop_first(), b);
    }
}

/// Shape of the continuation part: non-empty, every byte carries the
/// continuation bit.
proof fn lemma_cont_bytes_shape(w: nat)
    ensures
        cont_bytes(w).len() >= 1,
        forall|i: int| 0 <= i < cont_bytes(w).len() ==> byte_cont(#[trigger] cont_bytes(w)[i]),
    decreases w,
{
    if w >= 128 {
        lemma_cont_bytes_shape((w / 128 - 1) as nat);
    }
}

/// What the encoder emits is structurally a complete wire form.
pub proof fn lemma_encoding_is_wire(v: nat)
    ensures
        valid_wire(encoding(v)),
{
    if v >= 128 {
        lemma_cont_bytes_shape((v / 128 - 1) as nat);
    }
}

/// A non-empty run of continuation bytes folds, from zero, to a total of at
/// least one, and is exactly the continuation part for that total less one.
proof fn lemma_cont_canonical(s: Seq<u8>)
    requires
        s.len() >= 1,
        forall|i: int| 0 <= i < s.len() ==> byte_cont(#[trigger] s[i]),
    ensures
        fold_value(0, s) >= 1,
        cont_bytes((fold_value(0, s) - 1) as nat) == s,
    decreases s.len(),
{
    let last = s[s.len() - 1];
    let s1 = s.drop_last();
    assert(s =~= s1.push(last));
    lemma_fold_push(0, s1, last);
    if s.len() == 1 {
        assert(fold_value(0, s1) == 0);
        assert(fold_value(0, s) == byte_low(last) + 1);
        assert(cont_bytes(byte_low(last)) =~= s);
    } else {
        lemma_cont_canonical(s1);
        let w1 = fold_value(0, s1);
        let w = fold_value(0, s);
        assert(w == w1 * 128 + byte_low(last) + 1);
        vstd::arithmetic::div_mod::lemma_fundamental_div_mod_converse(
            (w - 1) as int,
            128,
            w1 as int,
            byte_low(last) as int,
        );
        assert((w - 1) as nat / 128 == w1);
        assert((w - 1) as nat % 128 == byte_low(last));
        assert((byte_low(last) + 128) as u8 == last);
        assert(cont_bytes((w - 1) as nat) =~= s);
    }
}

/// Every structurally complete wire form is the canonical one for the value
/// it carries: the wire format is biased so that no value has two forms.
pub proof fn lemma_wire_canonical(s: Seq<u8>)
    requires
        valid_wire(s),
    ensures
        encoding(wire_value(s)) == s,
{
    let last = s[s.len() - 1];
    let s1 = s.drop_last();
    assert(s =~= s1.push(last));
    lemma_fold_push(0, s1, last);
    if s.len() == 1 {
        assert(wire_value(s) == byte_low(last));
        assert(encoding(byte_low(last)) =~= s);
    } else {
        assert(forall|i: int| 0 <= i < s1.len() ==> byte_cont(#[trigger] s1[i]));
        lemma_cont_canonical(s1);
        let w1 = fold_value(0, s1);
        let v = wire_value(s);
        assert(v == w1 * 128 + byte_low(last));
        vstd::arithmetic::div_mod::lemma_fundamental_div_mod_converse(
            v as int,
            128,
            w1 as int,
            byte_low(last) as int,
        );
        assert(v / 128 == w1);
        assert(v % 128 == byte_low(last));
        assert(v >= 128) by {
            assert(w1 >= 1);
            assert(w1 * 128 >= 128) by (nonlinear_arith)
                requires w1 >= 1;
        }
        assert((v % 128) as u8 == last);
        assert(encoding(v) =~= s);
    }
}

/// 128 raised to `n`: what folding `n` further bytes multiplies the running
/// total by.
pub open spec fn pow128(n: nat) -> nat
    decreases n,
{
    if n == 0 {
        1
    } else {
        128 * pow128((n - 1) as nat)
    }
}

/// Decoding the continuation part for `w` from running total `acc` consumes
/// exactly those bytes and leaves the total at `acc * 128^len + w + 1`,
/// provided that total still fits under the cap.
proof fn lemma_decode_cont(w: nat, acc: nat, max: nat, tail: Seq<u8>)
    requires
        acc * pow128(cont_bytes(w).len()) + w + 1 <= max,
    ensures
        decode_spec(cont_bytes(w) + tail, acc, max) == outcome_shift(
            decode_spec(tail, (acc * pow128(cont_bytes(w).len()) + w + 1) as nat, max),
            cont_bytes(w).len(),
        ),
    decreases w,
{
    let c = cont_bytes(w);
    let n = c.len();
    let target = (acc * pow128(n) + w + 1) as nat;
    if w < 128 {
        let b = (w + 128) as u8;
        assert(c =~= seq![b]);
        assert(pow128(0) == 1);
        assert(pow128(1) == 128);
        let s = c + tail;
        assert(s.len() >= 1 && s[0] == b);
        assert(s.drop_first() =~= tail);
        assert(byte_cont(b) && byte_low(b) == w);
        // the shift check passes: acc * 128 <= max
        assert(acc <= max / 128) by {
            vstd::arithmetic::div_mod::lemma_div_is_ordered(
                (acc * 128) as int,
                max as int,
                128,
            );
            vstd::arithmetic::div_mod::lemma_div_multiples_vanish(acc as int, 128);
        }
        // the continuation increment passes: acc * 128 + w < max
        assert(acc * 128 + byte_low(b) + 1 == target);
        assert(decode_spec(s, acc, max) == outcome_shift(decode_spec(tail, target, max), 1));
    } else {
        let w1 = (w / 128 - 1) as nat;
        let c1 = cont_bytes(w1);
        let b2 = (w % 128 + 128) as u8;
        assert(c == c1.push(b2));
        let n1 = c1.len();
        assert(n == n1 + 1);
        lemma_cont_bytes_shape(w1);
        assert(pow128(n) == 128 * pow128(n1));
        let mid = (acc * pow128(n1) + w1 + 1) as nat;
        // the total owed after the inner continuation bytes still fits:
        // 128 * mid + w % 128 + 1 == target
        assert(w == (w / 128) * 128 + w % 128) by {
            vstd::arithmetic::div_mod::lemma_fundamental_div_mod(w as int, 128);
        }
        assert(mid * 128 == acc * pow128(n) + (w1 + 1) * 128) by (nonlinear_arith)
            requires
                mid == acc * pow128(n1) + w1 + 1,
                pow128(n) == 128 * pow128(n1),
        ;
        assert(mid * 128 + w % 128 + 1 == target);
        assert(mid <= max) by {
            assert(mid * 128 >= mid) by (nonlinear_arith);
        }
        assert(c + tail =~= c1 + (seq![b2] + tail));
        lemma_decode_cont(w1, acc, max, seq![b2] + tail);
        // one more byte: b2 continues and brings the total to `target`
        let s2 = seq![b2] + tail;
        assert(s2.len() >= 1 && s2[0] == b2);
        assert(s2.drop_first() =~= tail);
        assert(byte_cont(b2) && byte_low(b2) == w % 128);
        assert(mid <= max / 128) by {
            vstd::arithmetic::div_mod::lemma_div_is_ordered(
                (mid * 128) as int,
                max as int,
                128,
            );
            vstd::arithmetic::div_mod::lemma_div_multiples_vanish(mid as int, 128);
        }
        assert(decode_spec(s2, mid, max) == outcome_shift(decode_spec(tail, target, max), 1));
        assert(decode_spec(c + tail, acc, max) == outcome_shift(
            outcome_shift(decode_spec(tail, target, max), 1),
            n1,
        ));
        assert(outcome_shift(outcome_shift(decode_spec(tail, target, max), 1), n1)
            == outcome_shift(decode_spec(tail, target, max), n));
    }
}

/// Round trip: decoding a stream that starts with the canonical wire form of
/// `v` yields `v` back, consumes exactly those bytes, and never touches what
/// follows them — for every value that fits under the cap.
pub proof fn lemma_round_trip(v: nat, max: nat, rest: Seq<u8>)
    requires
        v <= max,
    ensures
        decode_spec(encoding(v) + rest, 0, max) == (DecodeOutcome::Value {
            value: v,
            used: encoding(v).len(),
        }),
{
    if v < 128 {
        let b = v as u8;
        let s = encoding(v) + rest;
        assert(s.len() >= 1 && s[0] == b);
        assert(!byte_cont(b) && byte_low(b) == v);
        assert(decode_spec(s, 0, max) == DecodeOutcome::Value { value: v, used: 1 });
    } else {
        let w = (v / 128 - 1) as nat;
        let b = (v % 128) as u8;
        let c = cont_bytes(w);
        lemma_cont_bytes_shape(w);
        assert(encoding(v) == c.push(b));
        assert(encoding(v) + rest =~= c + (seq![b] + rest));
        let mid = (w + 1) as nat;
        assert(mid == v / 128);
        assert(mid <= max) by {
            vstd::arithmetic::div_mod::lemma_div_is_ordered(v as int, max as int, 128);
            vstd::arithmetic::div_mod::lemma_div_is_ordered_by_denominator(v as int, 1, 128);
        }
        lemma_decode_cont(w, 0, max, seq![b] + rest);
        let s2 = seq![b] + rest;
        assert(s2.len() >= 1 && s2[0] == b);
        assert(s2.drop_first() =~= rest);
        assert(!byte_cont(b) && byte_low(b) == v % 128);
        assert(mid <= max / 128) by {
            vstd::arithmetic::div_mod::lemma_div_is_ordered(v as int, max as int, 128);
        }
        assert(mid * 128 + byte_low(b) == v) by {
            vstd::arithmetic::div_mod::lemma_fundamental_div_mod(v as int, 128);
        }
        assert(decode_spec(s2, mid, max) == DecodeOutcome::Value { value: v, used: 1 });
        assert(decode_spec(encoding(v) + rest, 0, max) == outcome_shift(
            DecodeOutcome::Value { value: v, used: 1 },
            c.len(),
        ));
        assert(encoding(v).len() == c.len() + 1);
    }
}

/// Minimality of the encoder's output: among all structurally complete wire
/// forms that carry a value, the canonical one is shortest — indeed it is
/// the only one.
pub proof fn lemma_encoding_minimal(v: nat, s: Seq<u8>)
    requires
        valid_wire(s),
        wire_value(s) == v,
    ensures
        s == encoding(v),
        encoding(v).len() <= s.len(),
{
    lemma_wire_canonical(s);
}

/// Soundness of decoding: whenever the decoder returns a value, the consumed
/// prefix is a structurally complete wire form, the value is its fold from
/// the starting total, and it fits under the cap.  The cap of a `bits`-wide
/// target always has `max % 128 == 127`.
pub proof fn lemma_decode_sound(s: Seq<u8>, acc: nat, max: nat)
    requires
        max % 128 == 127,
    ensures
        (match decode_spec(s, acc, max) {
            DecodeOutcome::Value { value, used } => {
                &&& 1 <= used <= s.len()
                &&& valid_wire(s.take(used as int))
                &&& value == fold_value(acc, s.take(used as int))
                &&& value <= max
            },
            _ => true,
        }),
    decreases s.len(),
{
    reveal_with_fuel(fold_value, 3);
    if s.len() == 0 {
    } else {
        let b = s[0];
        if acc > max / 128 {
        } else {
            assert(acc * 128 + 127 <= max) by {
                vstd::arithmetic::div_mod::lemma_fundamental_div_mod(max as int, 128);
                assert(acc * 128 <= (max / 128) * 128) by (nonlinear_arith)
                    requires acc <= max / 128;
            }
            let acc2 = acc * 128 + byte_low(b);
            if byte_cont(b) {
                if acc2 != max {
                    lemma_decode_sound(s.drop_first(), acc2 + 1, max);
                    match decode_spec(s.drop_first(), acc2 + 1, max) {
                        DecodeOutcome::Value { value, used } => {
                            let t = s.take(used as int + 1);
                            assert(t[0] == b);
                            assert(t.drop_first() =~= s.drop_first().take(used as int));
                            assert(valid_wire(t)) by {
                                let u = s.drop_first().take(used as int);
                                assert(forall|i: int| 1 <= i < t.len() - 1
                                    ==> #[trigger] t[i] == u[i - 1]);
                                assert(t[t.len() - 1] == u[u.len() - 1]);
                            }
                            assert(fold_value(acc, t) == fold_value(acc2 + 1, t.drop_first()));
                        },
                        _ => {},
                    }
                }
            } else {
                assert(s.take(1) =~= seq![b]);
                assert(fold_value(acc, s.take(1)) == acc2);
                assert(valid_wire(s.take(1)));
            }
        }
    }
}

/// The continuation part for a value below `128^n` has at most `n` bytes.
proof fn lemma_cont_bytes_len(w: nat, n: nat)
    requires
        n >= 1,
        w < pow128(n),
    ensures
        cont_bytes(w).len() <= n,
    decreases w,
{
    if w >= 128 {
        assert(pow128(0) == 1);
        assert(pow128(1) == 128);
        if n == 1 {
            assert(false);
        }
        let p = pow128((n - 1) as nat);
        assert(pow128(n) == 128 * p);
        assert(w / 128 <= p - 1) by {
            vstd::arithmetic::div_mod::lemma_div_is_ordered(w as int, 128 * p - 1, 128);
            vstd::arithmetic::div_mod::lemma_fundamental_div_mod_converse(
                128 * p - 1,
                128,
                p as int - 1,
                127,
            );
        }
        lemma_cont_bytes_len((w / 128 - 1) as nat, (n - 1) as nat);
    }
}

/// The wire form of any value below `128^n` has at most `n` bytes.
pub proof fn lemma_encoding_len_bound(v: nat, n: nat)
    requires
        n >= 1,
        v < pow128(n),
    ensures
        encoding(v).len() <= n,
{
    if v >= 128 {
        assert(pow128(0) == 1);
        assert(pow128(1) == 128);
        if n == 1 {
            assert(false);
        }
        let p = pow128((n - 1) as nat);
        assert(pow128(n) == 128 * p);
        assert(v / 128 <= p - 1) by {
            vstd::arithmetic::div_mod::lemma_div_is_ordered(v as int, 128 * p - 1, 128);
            vstd::arithmetic::div_mod::lemma_fundamental_div_mod_converse(
                128 * p - 1,
                128,
                p as int - 1,
                127,
            );
        }
        lemma_cont_bytes_len((v / 128 - 1) as nat, (n - 1) as nat);
    }
}

/// Completeness of decoding: a stream that starts with any structurally
/// complete wire form whose value fits under the cap decodes to that value
/// and consumes exactly that form.
pub proof fn lemma_decode_complete(s: Seq<u8>, max: nat, rest: Seq<u8>)
    requires
        valid_wire(s),
        wire_value(s) <= max,
    ensures
        decode_spec(s + rest, 0, max) == (DecodeOutcome::Value {
            value: wire_value(s),
            used: s.len(),
        }),
{
    lemma_wire_canonical(s);
    lemma_round_trip(wire_value(s), max, rest);
}

} // verus!

