//! The advanced PackBits-style scheme. A record starts with one control
//! byte read as a signed two's-complement value: a positive count `2..127`
//! introduces a run record `[count][byte]`, a negative value `-L` with `L`
//! in `1..127` introduces a literal record of `L` verbatim bytes, and `0`
//! never occurs. The encoder classifies the input greedily: a run is only
//! opened once two equal bytes in a row have actually been seen, so a
//! single byte is always part of a literal stretch.

use vstd::prelude::*;

use crate::error::MyError;
use crate::repeat_byte;

verus! {

broadcast use vstd::seq_lib::group_seq_lib_default;

/// The encoder's state between bytes: nothing pending, a candidate
/// literal stretch, or a run of a repeated byte.
pub enum AdvPhase {
    Idle,
    Literal(Seq<u8>),
    Run(u8, nat),
}

/// A pending literal holds 1 to 127 bytes; a pending run counts 2 to 127
/// occurrences.
pub open spec fn phase_wf(p: AdvPhase) -> bool {
    match p {
        AdvPhase::Idle => true,
        AdvPhase::Literal(buf) => 1 <= buf.len() <= 127,
        AdvPhase::Run(_b, c) => 2 <= c <= 127,
    }
}

/// The bytes a state still owes to the output.
pub open spec fn adv_pending(p: AdvPhase) -> Seq<u8> {
    match p {
        AdvPhase::Idle => seq![],
        AdvPhase::Literal(buf) => buf,
        AdvPhase::Run(b, c) => repeat_byte(b, c),
    }
}

/// The serialized form of a literal record: the control byte `-L` as an
/// unsigned value, then the `L` literal bytes.
pub open spec fn lit_record(buf: Seq<u8>) -> Seq<u8> {
    seq![(256 - buf.len()) as u8] + buf
}

/// The serialized form of a run record: the count, then the repeated
/// byte.
pub open spec fn run_record(b: u8, c: nat) -> Seq<u8> {
    seq![c as u8, b]
}

/// One transition of the advanced encoder: the new state, and the record
/// bytes written out, if any.
///
/// - With nothing pending, the byte opens a literal stretch.
/// - A full literal stretch is flushed and the byte starts a new one.
/// - A byte equal to the last of the stretch turns the matching pair
///   into a run of two; the stretch before the pair, if any, is flushed.
/// - Any other byte extends the stretch.
/// - A run grows while the byte matches and the count is below the cap;
///   otherwise the run is flushed and the byte opens a literal stretch.
pub open spec fn adv_step(p: AdvPhase, b: u8) -> (AdvPhase, Seq<u8>) {
    match p {
        AdvPhase::Idle => (AdvPhase::Literal(seq![b]), seq![]),
        AdvPhase::Literal(buf) => if buf.len() >= 127 {
            (AdvPhase::Literal(seq![b]), lit_record(buf))
        } else if b == buf.last() {
            let shrunk = buf.drop_last();
            (
                AdvPhase::Run(b, 2),
                if shrunk.len() == 0 {
                    seq![]
                } else {
                    lit_record(shrunk)
                },
            )
        } else {
            (AdvPhase::Literal(buf.push(b)), seq![])
        },
        AdvPhase::Run(cur, c) => if b == cur && c < 127 {
            (AdvPhase::Run(cur, c + 1), seq![])
        } else {
            (AdvPhase::Literal(seq![b]), run_record(cur, c))
        },
    }
}

/// What the encoder emits when the input ends.
pub open spec fn adv_flush(p: AdvPhase) -> Seq<u8> {
    match p {
        AdvPhase::Idle => seq![],
        AdvPhase::Literal(buf) => lit_record(buf),
        AdvPhase::Run(b, c) => run_record(b, c),
    }
}

/// Folds `adv_step` over a whole byte sequence: the state after all
/// bytes, and everything written along the way.
pub open spec fn adv_steps(p: AdvPhase, s: Seq<u8>) -> (AdvPhase, Seq<u8>)
    decreases s.len(),
{
    if s.len() == 0 {
        (p, seq![])
    } else {
        let first = adv_step(p, s[0]);
        let rest = adv_steps(first.0, s.skip(1));
        (rest.0, first.1 + rest.1)
    }
}

/// The advanced encoding of a byte sequence: run the state machine over
/// the whole input, then flush the pending record.
pub open spec fn adv_encode(s: Seq<u8>) -> Seq<u8> {
    adv_steps(AdvPhase::Idle, s).1 + adv_flush(adv_steps(AdvPhase::Idle, s).0)
}

/// The advanced decoding. One control byte is read per record: `2..127`
/// asks for one further byte repeated that many times, `129..255` (the
/// negated literal length) asks for the literal bytes that follow, and
/// `0`, `1` and `128` are bytes the encoder never writes. A record whose
/// payload runs past the end of the input is truncated.
pub open spec fn adv_decode(s: Seq<u8>) -> Result<Seq<u8>, MyError>
    decreases s.len(),
{
    if s.len() == 0 {
        Ok(seq![])
    } else {
        let c = s[0];
        if c == 0 || c == 1 || c == 128 {
            Err(MyError::InvalidControlByte)
        } else if c <= 127 {
            if s.len() < 2 {
                Err(MyError::TruncatedRecord)
            } else {
                match adv_decode(s.skip(2)) {
                    Ok(rest) => Ok(repeat_byte(s[1], c as nat) + rest),
                    Err(e) => Err(e),
                }
            }
        } else {
            let len = 256 - c as int;
            if s.len() < 1 + len {
                Err(MyError::TruncatedRecord)
            } else {
                match adv_decode(s.skip(1 + len)) {
                    Ok(rest) => Ok(s.subrange(1, 1 + len) + rest),
                    Err(e) => Err(e),
                }
            }
        }
    }
}

/// A step keeps the state well formed.
pub proof fn lemma_adv_step_wf(p: AdvPhase, b: u8)
    requires
        phase_wf(p),
    ensures
        phase_wf(adv_step(p, b).0),
{
}

/// Feeding one more byte at the end of the input extends the fold by one
/// step.
pub proof fn lemma_adv_steps_push(p: AdvPhase, s: Seq<u8>, b: u8)
    ensures
        adv_steps(p, s.push(b)).0 == adv_step(adv_steps(p, s).0, b).0,
        adv_steps(p, s.push(b)).1 == adv_steps(p, s).1 + adv_step(adv_steps(p, s).0, b).1,
    decreases s.len(),
{
    reveal_with_fuel(adv_steps, 3);
    if s.len() == 0 {
        assert(s.push(b)[0] == b);
        assert(s.push(b).skip(1) =~= Seq::<u8>::empty());
    } else {
        assert(s.push(b)[0] == s[0]);
        assert(s.push(b).skip(1) =~= s.skip(1).push(b));
        let p1 = adv_step(p, s[0]).0;
        lemma_adv_steps_push(p1, s.skip(1), b);
        assert(adv_steps(p, s.push(b)).1 =~= adv_steps(p, s).1 + adv_step(
            adv_steps(p, s).0,
            b,
        ).1);
    }
}

/// Putting one complete run record in front of an encoded tail prepends
/// its expansion to the decoded output.
pub proof fn lemma_adv_decode_prepend_run(b: u8, c: nat, rest: Seq<u8>)
    requires
        2 <= c <= 127,
    ensures
        adv_decode(run_record(b, c) + rest) == match adv_decode(rest) {
            Ok(d) => Ok::<Seq<u8>, MyError>(repeat_byte(b, c) + d),
            Err(e) => Err::<Seq<u8>, MyError>(e),
        },
{
    let s = run_record(b, c) + rest;
    assert(s.len() == 2 + rest.len());
    assert(s[0] == c as u8);
    assert(s[1] == b);
    assert(s.skip(2) =~= rest);
}

/// Putting one complete literal record in front of an encoded tail
/// prepends its bytes to the decoded output.
pub proof fn lemma_adv_decode_prepend_lit(buf: Seq<u8>, rest: Seq<u8>)
    requires
        1 <= buf.len() <= 127,
    ensures
        adv_decode(lit_record(buf) + rest) == match adv_decode(rest) {
            Ok(d) => Ok::<Seq<u8>, MyError>(buf + d),
            Err(e) => Err::<Seq<u8>, MyError>(e),
        },
{
    let s = lit_record(buf) + rest;
    let c = (256 - buf.len()) as u8;
    assert(s.len() == 1 + buf.len() + rest.len());
    assert(s[0] == c);
    assert(129 <= c <= 255);
    let len = 256 - c as int;
    assert(len == buf.len());
    assert(s.subrange(1, 1 + len) =~= buf);
    assert(s.skip(1 + len) =~= rest);
}

/// The heart of the advanced round trip: at any point of the encoding
/// run, decoding everything written so far plus a final flush yields the
/// pending bytes followed by the remaining input.
#[verifier::rlimit(60)]
pub proof fn lemma_adv_phase_round_trip(p: AdvPhase, s: Seq<u8>)
    requires
        phase_wf(p),
    ensures
        ({
            let r = adv_steps(p, s);
            adv_decode(r.1 + adv_flush(r.0)) == Ok::<Seq<u8>, MyError>(adv_pending(p) + s)
        }),
    decreases s.len(),
{
    reveal_with_fuel(adv_steps, 2);
    if s.len() == 0 {
        match p {
            AdvPhase::Idle => {
                assert(adv_steps(p, s).1 + adv_flush(p) =~= Seq::<u8>::empty());
                assert(adv_pending(p) + s =~= Seq::<u8>::empty());
            },
            AdvPhase::Literal(buf) => {
                lemma_adv_decode_prepend_lit(buf, Seq::<u8>::empty());
                assert(adv_steps(p, s).1 + adv_flush(p) =~= lit_record(buf) + Seq::<u8>::empty());
                assert(buf + Seq::<u8>::empty() =~= adv_pending(p) + s);
            },
            AdvPhase::Run(b, c) => {
                lemma_adv_decode_prepend_run(b, c, Seq::<u8>::empty());
                assert(adv_steps(p, s).1 + adv_flush(p) =~= run_record(b, c) + Seq::<u8>::empty());
                assert(repeat_byte(b, c) + Seq::<u8>::empty() =~= adv_pending(p) + s);
            },
        }
    } else {
        let b0 = s[0];
        let s1 = s.skip(1);
        let p1 = adv_step(p, b0).0;
        let e1 = adv_step(p, b0).1;
        lemma_adv_step_wf(p, b0);
        lemma_adv_phase_round_trip(p1, s1);
        let r1 = adv_steps(p1, s1);
        assert(adv_steps(p, s).0 == r1.0);
        assert(adv_steps(p, s).1 == e1 + r1.1);
        let tail = r1.1 + adv_flush(r1.0);
        if e1.len() == 0 {
            assert((e1 + r1.1) + adv_flush(r1.0) =~= tail);
            assert(adv_pending(p) + s =~= adv_pending(p1) + s1);
        } else {
            match p {
                AdvPhase::Idle => {
                    assert(false);
                },
                AdvPhase::Literal(buf) => {
                    if buf.len() >= 127 {
                        // the full stretch was flushed and b0 starts a new one
                        lemma_adv_decode_prepend_lit(buf, tail);
                        assert((e1 + r1.1) + adv_flush(r1.0) =~= lit_record(buf) + tail);
                        assert(buf + (adv_pending(p1) + s1) =~= adv_pending(p) + s);
                    } else {
                        // b0 matches the stretch's last byte: the bytes before
                        // the pair were flushed and the pair became a run
                        let shrunk = buf.drop_last();
                        assert(b0 == buf.last());
                        assert(shrunk.len() >= 1);
                        lemma_adv_decode_prepend_lit(shrunk, tail);
                        assert((e1 + r1.1) + adv_flush(r1.0) =~= lit_record(shrunk) + tail);
                        assert(adv_pending(p1) =~= seq![b0, b0]);
                        assert(shrunk + (adv_pending(p1) + s1) =~= adv_pending(p) + s);
                    }
                },
                AdvPhase::Run(cur, c) => {
                    lemma_adv_decode_prepend_run(cur, c, tail);
                    assert((e1 + r1.1) + adv_flush(r1.0) =~= run_record(cur, c) + tail);
                    assert(adv_pending(p1) =~= seq![b0]);
                    assert(repeat_byte(cur, c) + (adv_pending(p1) + s1) =~= adv_pending(p) + s);
                },
            }
        }
    }
}

/// Round trip for the advanced scheme: decoding an encoding gives back
/// the original bytes, whatever they are.
pub proof fn lemma_adv_round_trip(s: Seq<u8>)
    ensures
        adv_decode(adv_encode(s)) == Ok::<Seq<u8>, MyError>(s),
{
    lemma_adv_phase_round_trip(AdvPhase::Idle, s);
    assert(adv_pending(AdvPhase::Idle) + s =~= s);
}

/// Advanced encodings are canonical: re-encoding the decoded output of
/// an encoder-produced stream yields the same stream again.
pub proof fn lemma_adv_reencode_canonical(s: Seq<u8>)
    ensures
        adv_decode(adv_encode(s)) matches Ok(d) && adv_encode(d) == adv_encode(s),
{
    lemma_adv_round_trip(s);
}

/// Empty input encodes to empty output, and empty input decodes to
/// empty output, in the advanced scheme.
pub proof fn lemma_adv_empty()
    ensures
        adv_encode(Seq::<u8>::empty()) == Seq::<u8>::empty(),
        adv_decode(Seq::<u8>::empty()) == Ok::<Seq<u8>, MyError>(Seq::<u8>::empty()),
{
    assert(adv_encode(Seq::<u8>::empty()) =~= Seq::<u8>::empty());
    assert(adv_decode(Seq::<u8>::empty()) == Ok::<Seq<u8>, MyError>(seq![]));
    assert(seq![] =~= Seq::<u8>::empty());
}

/// A run of identical bytes only grows the pending count while the
/// count stays at or below the cap.
pub proof fn lemma_adv_steps_repeat(b: u8, c: nat, m: nat)
    requires
        2 <= c,
        c + m <= 127,
    ensures
        adv_steps(AdvPhase::Run(b, c), repeat_byte(b, m)).0 == AdvPhase::Run(b, c + m),
        adv_steps(AdvPhase::Run(b, c), repeat_byte(b, m)).1 == Seq::<u8>::empty(),
    decreases m,
{
    if m == 0 {
        assert(repeat_byte(b, m).len() == 0);
        assert(adv_steps(AdvPhase::Run(b, c), repeat_byte(b, m)).1 =~= Seq::<u8>::empty());
    } else {
        assert(repeat_byte(b, m)[0] == b);
        assert(repeat_byte(b, m).skip(1) =~= repeat_byte(b, (m - 1) as nat));
        lemma_adv_steps_repeat(b, c + 1, (m - 1) as nat);
        assert(adv_steps(AdvPhase::Run(b, c), repeat_byte(b, m)).1 =~= Seq::<u8>::empty());
    }
}

/// Boundary of the advanced scheme: 127 identical bytes become exactly
/// one run record.
pub proof fn lemma_adv_boundary_127(b: u8)
    ensures
        adv_encode(repeat_byte(b, 127)) == seq![127u8, b],
{
    reveal_with_fuel(adv_steps, 3);
    let s = repeat_byte(b, 127);
    assert(s[0] == b);
    let s1 = s.skip(1);
    assert(s1 =~= repeat_byte(b, 126));
    assert(s1[0] == b);
    assert(s1.skip(1) =~= repeat_byte(b, 125));
    // first byte: Idle -> Literal([b]); second: the pair becomes Run(b, 2)
    assert(seq![b].last() == b);
    assert(seq![b].drop_last().len() == 0);
    assert(adv_step(AdvPhase::Literal(seq![b]), b).0 == AdvPhase::Run(b, 2));
    lemma_adv_steps_repeat(b, 2, 125);
    assert(adv_encode(s) =~= seq![127u8, b]);
}

/// Boundary of the advanced scheme: 128 identical bytes become a full
/// run record followed by a one-byte literal record, since a trailing
/// single byte can never start a new run.
pub proof fn lemma_adv_boundary_128(b: u8)
    ensures
        adv_encode(repeat_byte(b, 128)) == seq![127u8, b, 255u8, b],
{
    reveal_with_fuel(adv_steps, 3);
    let s = repeat_byte(b, 128);
    assert(s[0] == b);
    let s1 = s.skip(1);
    assert(s1 =~= repeat_byte(b, 127));
    assert(s1[0] == b);
    assert(s1.skip(1) =~= repeat_byte(b, 125).push(b));
    assert(seq![b].last() == b);
    assert(seq![b].drop_last().len() == 0);
    assert(adv_step(AdvPhase::Literal(seq![b]), b).0 == AdvPhase::Run(b, 2));
    lemma_adv_steps_repeat(b, 2, 125);
    lemma_adv_steps_push(AdvPhase::Run(b, 2), repeat_byte(b, 125), b);
    // the 128th byte finds the run at its cap: the run is flushed and a
    // fresh literal stretch holds the final byte
    assert(lit_record(seq![b]) =~= seq![255u8, b]);
    assert(adv_encode(s) =~= seq![127u8, b, 255u8, b]);
}

/// What the streaming advanced decoder carries between bytes: it is
/// waiting for the next control byte, for the byte a run repeats, or
/// for so many more literal bytes.
#[derive(Clone, Copy, Debug, PartialEq, Eq, Structural)]
pub enum ExpandState {
    NeedControl,
    NeedRunByte(u8),
    NeedLiteral(u8),
}

/// A pending run count is 2 to 127; a pending literal still owes 1 to
/// 127 bytes.
pub open spec fn expand_wf(st: ExpandState) -> bool {
    match st {
        ExpandState::NeedControl => true,
        ExpandState::NeedRunByte(c) => 2 <= c <= 127,
        ExpandState::NeedLiteral(k) => 1 <= k <= 127,
    }
}

/// The bytes that, put back in front of the remaining input, turn it
/// into a record-aligned stream again: nothing, the run's control byte,
/// or a control byte asking for the still missing literal bytes.
pub open spec fn expand_residue(st: ExpandState) -> Seq<u8> {
    match st {
        ExpandState::NeedControl => seq![],
        ExpandState::NeedRunByte(c) => seq![c],
        ExpandState::NeedLiteral(k) => seq![(256 - k as int) as u8],
    }
}

/// One transition of the streaming advanced decoder: the new state and
/// the bytes written out, or the error this control byte forces.
pub open spec fn expand_step(st: ExpandState, b: u8) -> Result<(ExpandState, Seq<u8>), MyError> {
    match st {
        ExpandState::NeedControl => if b == 0 || b == 1 || b == 128 {
            Err(MyError::InvalidControlByte)
        } else if b <= 127 {
            Ok((ExpandState::NeedRunByte(b), seq![]))
        } else {
            Ok((ExpandState::NeedLiteral((256 - b as int) as u8), seq![]))
        },
        ExpandState::NeedRunByte(c) => Ok((ExpandState::NeedControl, repeat_byte(b, c as nat))),
        ExpandState::NeedLiteral(k) => Ok(
            (
                if k == 1 {
                    ExpandState::NeedControl
                } else {
                    ExpandState::NeedLiteral((k - 1) as u8)
                },
                seq![b],
            ),
        ),
    }
}

/// Folds `expand_step` over a whole byte sequence, stopping at the
/// first error.
pub open spec fn expand_steps(st: ExpandState, s: Seq<u8>) -> Result<
    (ExpandState, Seq<u8>),
    MyError,
>
    decreases s.len(),
{
    if s.len() == 0 {
        Ok((st, seq![]))
    } else {
        match expand_step(st, s[0]) {
            Ok(first) => match expand_steps(first.0, s.skip(1)) {
                Ok(rest) => Ok((rest.0, first.1 + rest.1)),
                Err(e) => Err(e),
            },
            Err(e) => Err(e),
        }
    }
}

/// Splitting the input in two runs the fold over the first part, then
/// over the second from the state reached in between.
pub proof fn lemma_expand_steps_append(st: ExpandState, a: Seq<u8>, b: Seq<u8>)
    ensures
        expand_steps(st, a + b) == match expand_steps(st, a) {
            Ok(n) => match expand_steps(n.0, b) {
                Ok(m) => Ok::<(ExpandState, Seq<u8>), MyError>((m.0, n.1 + m.1)),
                Err(e) => Err::<(ExpandState, Seq<u8>), MyError>(e),
            },
            Err(e) => Err::<(ExpandState, Seq<u8>), MyError>(e),
        },
    decreases a.len(),
{
    if a.len() == 0 {
        assert(a + b =~= b);
        match expand_steps(st, b) {
            Ok(m) => {
                assert(Seq::<u8>::empty() + m.1 =~= m.1);
                assert(seq![] + m.1 =~= m.1);
            },
            Err(_e) => {},
        }
    } else {
        assert((a + b)[0] == a[0]);
        assert((a + b).skip(1) =~= a.skip(1) + b);
        match expand_step(st, a[0]) {
            Ok(first) => {
                lemma_expand_steps_append(first.0, a.skip(1), b);
                match expand_steps(first.0, a.skip(1)) {
                    Ok(n1) => {
                        match expand_steps(n1.0, b) {
                            Ok(m) => {
                                assert(first.1 + (n1.1 + m.1) =~= (first.1 + n1.1) + m.1);
                            },
                            Err(_e) => {},
                        }
                    },
                    Err(_e) => {},
                }
            },
            Err(_e) => {},
        }
    }
}

/// Reading the first byte of a literal record leaves a literal record
/// one shorter, with that byte prepended to the decoded output.
pub proof fn lemma_adv_decode_lit_unroll(k: nat, b: u8, rest: Seq<u8>)
    requires
        1 <= k <= 127,
    ensures
        adv_decode(seq![(256 - k) as u8, b] + rest) == match adv_decode(
            if k == 1 {
                rest
            } else {
                seq![(256 - (k - 1)) as u8] + rest
            },
        ) {
            Ok(d) => Ok::<Seq<u8>, MyError>(seq![b] + d),
            Err(e) => Err::<Seq<u8>, MyError>(e),
        },
{
    let s = seq![(256 - k) as u8, b] + rest;
    let c = (256 - k) as u8;
    assert(s[0] == c);
    assert(129 <= c <= 255);
    let len = 256 - c as int;
    assert(len == k);
    if k == 1 {
        assert(s.len() >= 1 + len);
        assert(s.subrange(1, 1 + len) =~= seq![b]);
        assert(s.skip(1 + len) =~= rest);
    } else {
        let s2 = seq![(256 - (k - 1)) as u8] + rest;
        let c2 = (256 - (k - 1)) as u8;
        assert(s2[0] == c2);
        assert(129 <= c2 <= 255);
        let len2 = 256 - c2 as int;
        assert(len2 == k - 1);
        if s.len() < 1 + len {
            assert(s2.len() < 1 + len2);
        } else {
            assert(s2.len() >= 1 + len2);
            assert(s.subrange(1, 1 + len) =~= seq![b] + s2.subrange(1, 1 + len2));
            assert(s.skip(1 + len) =~= s2.skip(1 + len2));
            match adv_decode(s2.skip(1 + len2)) {
                Ok(d) => {
                    assert((seq![b] + s2.subrange(1, 1 + len2)) + d =~= seq![b] + (s2.subrange(
                        1,
                        1 + len2,
                    ) + d));
                },
                Err(_e) => {},
            }
        }
    }
}

/// The heart of the streaming decoder's correctness: from any well
/// formed state, running the machine over the remaining input agrees
/// with `adv_decode` applied to the state's residue followed by that
/// input. A machine that stops mid-record has found a truncated stream.
#[verifier::rlimit(60)]
pub proof fn lemma_expand_round(st: ExpandState, s: Seq<u8>)
    requires
        expand_wf(st),
    ensures
        match expand_steps(st, s) {
            Ok(n) => expand_wf(n.0) && if n.0 == ExpandState::NeedControl {
                adv_decode(expand_residue(st) + s) == Ok::<Seq<u8>, MyError>(n.1)
            } else {
                adv_decode(expand_residue(st) + s) == Err::<Seq<u8>, MyError>(
                    MyError::TruncatedRecord,
                )
            },
            Err(e) => adv_decode(expand_residue(st) + s) == Err::<Seq<u8>, MyError>(e),
        },
    decreases s.len(),
{
    if s.len() == 0 {
        match st {
            ExpandState::NeedControl => {
                assert(expand_residue(st) + s =~= Seq::<u8>::empty());
                assert(expand_steps(st, s) == Ok::<(ExpandState, Seq<u8>), MyError>((st, seq![])));
                assert(seq![] =~= Seq::<u8>::empty());
            },
            ExpandState::NeedRunByte(c) => {
                assert(expand_residue(st) + s =~= seq![c]);
                assert(adv_decode(seq![c]) == Err::<Seq<u8>, MyError>(MyError::TruncatedRecord));
            },
            ExpandState::NeedLiteral(k) => {
                let ctrl = (256 - k as int) as u8;
                assert(expand_residue(st) + s =~= seq![ctrl]);
                assert(129 <= ctrl <= 255);
                assert(adv_decode(seq![ctrl]) == Err::<Seq<u8>, MyError>(MyError::TruncatedRecord));
            },
        }
    } else {
        let b0 = s[0];
        let s1 = s.skip(1);
        match st {
            ExpandState::NeedControl => {
                assert(expand_residue(st) + s =~= s);
                if b0 == 0 || b0 == 1 || b0 == 128 {
                    assert(adv_decode(s) == Err::<Seq<u8>, MyError>(MyError::InvalidControlByte));
                } else if b0 <= 127 {
                    let st1 = ExpandState::NeedRunByte(b0);
                    lemma_expand_round(st1, s1);
                    assert(expand_residue(st1) + s1 =~= s);
                    match expand_steps(st1, s1) {
                        Ok(n) => {
                            assert(seq![] + n.1 =~= n.1);
                        },
                        Err(_e) => {},
                    }
                } else {
                    let st1 = ExpandState::NeedLiteral((256 - b0 as int) as u8);
                    lemma_expand_round(st1, s1);
                    assert(expand_residue(st1) + s1 =~= s);
                    match expand_steps(st1, s1) {
                        Ok(n) => {
                            assert(seq![] + n.1 =~= n.1);
                        },
                        Err(_e) => {},
                    }
                }
            },
            ExpandState::NeedRunByte(c) => {
                let st1 = ExpandState::NeedControl;
                lemma_expand_round(st1, s1);
                lemma_adv_decode_prepend_run(b0, c as nat, s1);
                assert(expand_residue(st) + s =~= run_record(b0, c as nat) + s1);
                assert(expand_residue(st1) + s1 =~= s1);
                match expand_steps(st1, s1) {
                    Ok(n) => {
                        assert(repeat_byte(b0, c as nat) + n.1 =~= repeat_byte(b0, c as nat)
                            + n.1);
                    },
                    Err(_e) => {},
                }
            },
            ExpandState::NeedLiteral(k) => {
                let st1 = if k == 1 {
                    ExpandState::NeedControl
                } else {
                    ExpandState::NeedLiteral((k - 1) as u8)
                };
                lemma_expand_round(st1, s1);
                lemma_adv_decode_lit_unroll(k as nat, b0, s1);
                assert(expand_residue(st) + s =~= seq![(256 - k as nat) as u8, b0] + s1);
                if k == 1 {
                    assert(expand_residue(st1) + s1 =~= s1);
                } else {
                    assert(expand_residue(st1) + s1 =~= seq![(256 - (k as nat - 1)) as u8] + s1);
                }
                match expand_steps(st1, s1) {
                    Ok(n) => {
                        assert(seq![b0] + n.1 =~= seq![b0] + n.1);
                    },
                    Err(_e) => {},
                }
            },
        }
    }
}

/// Fed a whole encoded stream from a fresh state, the streaming decoder
/// agrees with `adv_decode`: it emits exactly the decoded bytes, stops
/// with the same error on a bad control byte, and is left waiting
/// mid-record exactly on the streams that are truncated.
pub proof fn lemma_expand_matches_decode(s: Seq<u8>)
    ensures
        match expand_steps(ExpandState::NeedControl, s) {
            Ok(n) => if n.0 == ExpandState::NeedControl {
                adv_decode(s) == Ok::<Seq<u8>, MyError>(n.1)
            } else {
                adv_decode(s) == Err::<Seq<u8>, MyError>(MyError::TruncatedRecord)
            },
            Err(e) => adv_decode(s) == Err::<Seq<u8>, MyError>(e),
        },
{
    lemma_expand_round(ExpandState::NeedControl, s);
    assert(expand_residue(ExpandState::NeedControl) + s =~= s);
}

/// Writes a literal record: the negated length as one control byte,
/// then the bytes themselves.
fn write_literal(buf: &Vec<u8>, out: &mut Vec<u8>)
    requires
        1 <= buf@.len() <= 127,
    ensures
        final(out)@ == old(out)@ + lit_record(buf@),
{
    let ctrl: u8 = (256 - buf.len()) as u8;
    out.push(ctrl);
    let ghost out_snap = out@;
    let mut k: usize = 0;
    while k < buf.len()
        invariant
            k <= buf.len(),
            out@ == out_snap + buf@.take(k as int),
        decreases buf.len() - k,
    {
        out.push(buf[k]);
        proof {
            assert(out_snap + buf@.take(k as int + 1) =~= (out_snap + buf@.take(k as int)).push(
                buf@[k as int],
            ));
        }
        k = k + 1;
    }
    proof {
        assert(buf@.take(buf@.len() as int) =~= buf@);
        assert(out_snap + buf@ =~= old(out)@ + lit_record(buf@));
    }
}

/// The encoder's concrete state: nothing pending, a literal stretch
/// collected so far, or a run of a repeated byte.
pub enum AdvState {
    Idle,
    Literal(Vec<u8>),
    Run(u8, u8),
}

/// The streaming advanced encoder: bytes are fed in bounded chunks and
/// each completed record is pushed to the output at once. Only the
/// pending state — at most a 127-byte stretch — is kept across chunks.
pub struct Encoder {
    state: AdvState,
}

impl View for Encoder {
    type V = AdvPhase;

    closed spec fn view(&self) -> AdvPhase {
        match self.state {
            AdvState::Idle => AdvPhase::Idle,
            AdvState::Literal(buf) => AdvPhase::Literal(buf@),
            AdvState::Run(b, c) => AdvPhase::Run(b, c as nat),
        }
    }
}

impl Encoder {
    pub open spec fn wf(&self) -> bool {
        phase_wf(self@)
    }

    pub fn new() -> (r: Encoder)
        ensures
            r@ == AdvPhase::Idle,
            r.wf(),
    {
        Encoder { state: AdvState::Idle }
    }

    /// Feeds one byte; a completed record, if any, is appended to `out`.
    pub fn push(&mut self, b: u8, out: &mut Vec<u8>)
        requires
            old(self).wf(),
        ensures
            final(self).wf(),
            final(self)@ == adv_step(old(self)@, b).0,
            final(out)@ == old(out)@ + adv_step(old(self)@, b).1,
    {
        let mut prev = AdvState::Idle;
        core::mem::swap(&mut prev, &mut self.state);
        match prev {
            AdvState::Idle => {
                let mut nb: Vec<u8> = Vec::new();
                nb.push(b);
                self.state = AdvState::Literal(nb);
                proof {
                    assert(nb@ =~= seq![b]);
                    assert(final(out)@ =~= old(out)@ + adv_step(old(self)@, b).1);
                }
            },
            AdvState::Literal(mut buf) => {
                if buf.len() >= 127 {
                    write_literal(&buf, out);
                    let mut nb: Vec<u8> = Vec::new();
                    nb.push(b);
                    self.state = AdvState::Literal(nb);
                    proof {
                        assert(nb@ =~= seq![b]);
                    }
                } else if b == buf[buf.len() - 1] {
                    let ghost full = buf@;
                    buf.pop();
                    proof {
                        assert(buf@ =~= full.drop_last());
                    }
                    if buf.len() > 0 {
                        write_literal(&buf, out);
                    } else {
                        proof {
                            assert(final(out)@ =~= old(out)@ + adv_step(old(self)@, b).1);
                        }
                    }
                    self.state = AdvState::Run(b, 2);
                } else {
                    buf.push(b);
                    self.state = AdvState::Literal(buf);
                    proof {
                        assert(final(out)@ =~= old(out)@ + adv_step(old(self)@, b).1);
                    }
                }
            },
            AdvState::Run(cur, c) => {
                if b == cur && c < 127 {
                    self.state = AdvState::Run(cur, c + 1);
                    proof {
                        assert(final(out)@ =~= old(out)@ + adv_step(old(self)@, b).1);
                    }
                } else {
                    out.push(c);
                    out.push(cur);
                    let mut nb: Vec<u8> = Vec::new();
                    nb.push(b);
                    self.state = AdvState::Literal(nb);
                    proof {
                        assert(nb@ =~= seq![b]);
                        assert(final(out)@ =~= old(out)@ + adv_step(old(self)@, b).1);
                    }
                }
            },
        }
    }

    /// Feeds a whole chunk, byte by byte, in order.
    pub fn push_chunk(&mut self, chunk: &Vec<u8>, out: &mut Vec<u8>)
        requires
            old(self).wf(),
        ensures
            final(self).wf(),
            final(self)@ == adv_steps(old(self)@, chunk@).0,
            final(out)@ == old(out)@ + adv_steps(old(self)@, chunk@).1,
    {
        let ghost p0 = self@;
        let ghost out0 = out@;
        let mut i: usize = 0;
        while i < chunk.len()
            invariant
                i <= chunk.len(),
                self.wf(),
                self@ == adv_steps(p0, chunk@.take(i as int)).0,
                out@ == out0 + adv_steps(p0, chunk@.take(i as int)).1,
            decreases chunk.len() - i,
        {
            let b = chunk[i];
            self.push(b, out);
            proof {
                lemma_adv_steps_push(p0, chunk@.take(i as int), b);
                assert(chunk@.take(i as int).push(b) =~= chunk@.take(i as int + 1));
                assert(out@ =~= out0 + adv_steps(p0, chunk@.take(i as int + 1)).1);
            }
            i = i + 1;
        }
        proof {
            assert(chunk@.take(chunk@.len() as int) =~= chunk@);
        }
    }

    /// Ends the input: writes the pending record, if any.
    pub fn finish(self, out: &mut Vec<u8>)
        requires
            self.wf(),
        ensures
            final(out)@ == old(out)@ + adv_flush(self@),
    {
        match self.state {
            AdvState::Idle => {
                proof {
                    assert(final(out)@ =~= old(out)@ + adv_flush(self@));
                }
            },
            AdvState::Literal(buf) => {
                write_literal(&buf, out);
            },
            AdvState::Run(cur, c) => {
                out.push(c);
                out.push(cur);
                proof {
                    assert(final(out)@ =~= old(out)@ + adv_flush(self@));
                }
            },
        }
    }
}

/// Advanced encoding of an in-memory byte sequence.
pub fn encode(input: &Vec<u8>) -> (r: Vec<u8>)
    ensures
        r@ == adv_encode(input@),
{
    let mut out: Vec<u8> = Vec::new();
    let mut enc = Encoder::new();
    enc.push_chunk(input, &mut out);
    enc.finish(&mut out);
    proof {
        assert(out@ =~= adv_encode(input@));
    }
    out
}

/// The streaming advanced decoder: encoded bytes are fed in bounded
/// chunks and each record is expanded to the output as soon as its
/// payload arrives; only the missing part of the current record is
/// remembered across chunks.
pub struct Decoder {
    state: ExpandState,
}

impl View for Decoder {
    type V = ExpandState;

    closed spec fn view(&self) -> ExpandState {
        self.state
    }
}

impl Decoder {
    pub open spec fn wf(&self) -> bool {
        expand_wf(self@)
    }

    pub fn new() -> (r: Decoder)
        ensures
            r@ == ExpandState::NeedControl,
            r.wf(),
    {
        Decoder { state: ExpandState::NeedControl }
    }

    /// Feeds one encoded byte; whatever it completes is appended to
    /// `out`. On a bad control byte nothing changes and the error is
    /// returned.
    pub fn push(&mut self, b: u8, out: &mut Vec<u8>) -> (r: Result<(), MyError>)
        requires
            old(self).wf(),
        ensures
            match expand_step(old(self)@, b) {
                Ok(next) => r is Ok && final(self).wf() && final(self)@ == next.0 && final(out)@
                    == old(out)@ + next.1,
                Err(e) => r == Err::<(), MyError>(e) && final(self)@ == old(self)@ && final(out)@
                    == old(out)@,
            },
    {
        match self.state {
            ExpandState::NeedControl => {
                if b == 0 || b == 1 || b == 128 {
                    return Err(MyError::InvalidControlByte);
                } else if b <= 127 {
                    self.state = ExpandState::NeedRunByte(b);
                } else {
                    self.state = ExpandState::NeedLiteral((256 - b as usize) as u8);
                }
                proof {
                    assert(final(out)@ =~= old(out)@ + expand_step(old(self)@, b)->Ok_0.1);
                }
            },
            ExpandState::NeedRunByte(c) => {
                let ghost out_snap = out@;
                let mut k: usize = 0;
                while k < c as usize
                    invariant
                        k <= c as usize,
                        out@ == out_snap + repeat_byte(b, k as nat),
                    decreases c as usize - k,
                {
                    out.push(b);
                    proof {
                        assert(out_snap + repeat_byte(b, k as nat + 1) =~= (out_snap + repeat_byte(
                            b,
                            k as nat,
                        )).push(b));
                    }
                    k = k + 1;
                }
                self.state = ExpandState::NeedControl;
            },
            ExpandState::NeedLiteral(k) => {
                out.push(b);
                self.state = if k == 1 {
                    ExpandState::NeedControl
                } else {
                    ExpandState::NeedLiteral(k - 1)
                };
                proof {
                    assert(final(out)@ =~= old(out)@ + seq![b]);
                }
            },
        }
        Ok(())
    }

    /// Feeds a whole chunk of encoded bytes, stopping at the first bad
    /// control byte.
    pub fn push_chunk(&mut self, chunk: &Vec<u8>, out: &mut Vec<u8>) -> (r: Result<(), MyError>)
        requires
            old(self).wf(),
        ensures
            final(self).wf(),
            match expand_steps(old(self)@, chunk@) {
                Ok(n) => r is Ok && final(self)@ == n.0 && final(out)@ == old(out)@ + n.1,
                Err(e) => r == Err::<(), MyError>(e),
            },
    {
        let ghost st0 = self@;
        let ghost out0 = out@;
        let mut i: usize = 0;
        proof {
            assert(chunk@.take(0) =~= Seq::<u8>::empty());
            assert(out0 + seq![] =~= out0);
        }
        while i < chunk.len()
            invariant
                i <= chunk.len(),
                self.wf(),
                st0 == old(self)@,
                out0 == old(out)@,
                expand_steps(st0, chunk@.take(i as int)) matches Ok(n) && self@ == n.0 && out@
                    == out0 + n.1,
            decreases chunk.len() - i,
        {
            let b = chunk[i];
            let ghost st_pre = self@;
            let ghost done = chunk@.take(i as int);
            let res = self.push(b, out);
            proof {
                reveal_with_fuel(expand_steps, 2);
                lemma_expand_steps_append(st0, done, seq![b]);
                assert(seq![b][0] == b);
                assert(seq![b].skip(1) =~= Seq::<u8>::empty());
                assert(done + seq![b] =~= chunk@.take(i as int + 1));
                match expand_step(st_pre, b) {
                    Ok(next) => {
                        assert(expand_steps(st_pre, seq![b]) == Ok::<
                            (ExpandState, Seq<u8>),
                            MyError,
                        >((next.0, next.1 + seq![])));
                        assert(next.1 + seq![] =~= next.1);
                        assert(out@ =~= out0 + expand_steps(st0, chunk@.take(i as int + 1))->Ok_0.1);
                    },
                    Err(e2) => {
                        assert(expand_steps(st_pre, seq![b]) == Err::<
                            (ExpandState, Seq<u8>),
                            MyError,
                        >(e2));
                        assert(expand_steps(st0, chunk@.take(i as int + 1)) == Err::<
                            (ExpandState, Seq<u8>),
                            MyError,
                        >(e2));
                        lemma_expand_steps_append(st0, chunk@.take(i as int + 1), chunk@.skip(
                            i as int + 1,
                        ));
                        assert(chunk@.take(i as int + 1) + chunk@.skip(i as int + 1) =~= chunk@);
                    },
                }
            }
            if let Err(e) = res {
                return Err(e);
            }
            i = i + 1;
        }
        proof {
            assert(chunk@.take(chunk@.len() as int) =~= chunk@);
        }
        Ok(())
    }

    /// Ends the input: a record still waiting for payload bytes means
    /// the stream was truncated.
    pub fn finish(self) -> (r: Result<(), MyError>)
        ensures
            r is Ok <==> self@ == ExpandState::NeedControl,
            r is Err ==> r == Err::<(), MyError>(MyError::TruncatedRecord),
    {
        match self.state {
            ExpandState::NeedControl => Ok(()),
            _ => Err(MyError::TruncatedRecord),
        }
    }
}

/// Advanced decoding of an in-memory encoded sequence: the original
/// bytes, or the first decoding error. A control byte the encoder never
/// writes is `InvalidControlByte`; a record whose payload runs past the
/// end of the input is `TruncatedRecord`.
pub fn decode(input: &Vec<u8>) -> (r: Result<Vec<u8>, MyError>)
    ensures
        match r {
            Ok(d) => adv_decode(input@) == Ok::<Seq<u8>, MyError>(d@),
            Err(e) => adv_decode(input@) == Err::<Seq<u8>, MyError>(e),
        },
{
    let n = input.len();
    let mut out: Vec<u8> = Vec::new();
    let mut i: usize = 0;
    proof {
        assert(input@.skip(0) =~= input@);
        match adv_decode(input@) {
            Ok(rest) => {
                assert(out@ + rest =~= rest);
            },
            Err(_e) => {},
        }
    }
    while i < n
        invariant
            i <= n,
            n == input@.len(),
            match adv_decode(input@.skip(i as int)) {
                Ok(rest) => adv_decode(input@) == Ok::<Seq<u8>, MyError>(out@ + rest),
                Err(e) => adv_decode(input@) == Err::<Seq<u8>, MyError>(e),
            },
        decreases n - i,
    {
        let c = input[i];
        proof {
            assert(input@.skip(i as int)[0] == input@[i as int]);
        }
        if c == 0 || c == 1 || c == 128 {
            return Err(MyError::InvalidControlByte);
        } else if c <= 127 {
            // a run record: one more byte, repeated c times
            if n - i < 2 {
                return Err(MyError::TruncatedRecord);
            }
            let byte = input[i + 1];
            let ghost out_snap = out@;
            let mut k: usize = 0;
            while k < c as usize
                invariant
                    k <= c as usize,
                    out@ == out_snap + repeat_byte(byte, k as nat),
                decreases c as usize - k,
            {
                out.push(byte);
                proof {
                    assert(out_snap + repeat_byte(byte, k as nat + 1) =~= (out_snap + repeat_byte(
                        byte,
                        k as nat,
                    )).push(byte));
                }
                k = k + 1;
            }
            proof {
                let s_i = input@.skip(i as int);
                assert(s_i[1] == input@[i as int + 1]);
                assert(s_i.skip(2) =~= input@.skip(i as int + 2));
                assert(out@ =~= out_snap + repeat_byte(byte, c as nat));
                match adv_decode(input@.skip(i as int + 2)) {
                    Ok(rest) => {
                        assert(out_snap + (repeat_byte(byte, c as nat) + rest) =~= out@ + rest);
                    },
                    Err(_e) => {},
                }
            }
            i = i + 2;
        } else {
            // a literal record: the negated length, then the bytes
            let len = 256 - c as usize;
            if n - i < 1 + len {
                return Err(MyError::TruncatedRecord);
            }
            let ghost out_snap = out@;
            let mut j: usize = 0;
            while j < len
                invariant
                    j <= len,
                    n == input@.len(),
                    i + 1 + len <= n,
                    out@ == out_snap + input@.subrange(i as int + 1, i as int + 1 + j as int),
                decreases len - j,
            {
                out.push(input[i + 1 + j]);
                proof {
                    assert(out_snap + input@.subrange(i as int + 1, i as int + 1 + j as int + 1)
                        =~= (out_snap + input@.subrange(i as int + 1, i as int + 1 + j as int)).push(
                        input@[i as int + 1 + j as int],
                    ));
                }
                j = j + 1;
            }
            proof {
                let s_i = input@.skip(i as int);
                let l = len as int;
                assert(s_i.subrange(1, 1 + l) =~= input@.subrange(i as int + 1, i as int + 1 + l));
                assert(s_i.skip(1 + l) =~= input@.skip(i as int + 1 + l));
                match adv_decode(input@.skip(i as int + 1 + l)) {
                    Ok(rest) => {
                        assert(out_snap + (s_i.subrange(1, 1 + l) + rest) =~= out@ + rest);
                    },
                    Err(_e) => {},
                }
            }
            i = i + 1 + len;
        }
    }
    proof {
        assert(input@.skip(i as int) =~= Seq::<u8>::empty());
        assert(out@ + Seq::<u8>::empty() =~= out@);
    }
    Ok(out)
}

} // verus!
