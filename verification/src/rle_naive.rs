//! The naive fixed-width scheme: the input is split into maximal runs of
//! identical bytes, each capped at 255 occurrences, and every run becomes
//! one `[count][byte]` pair. Decoding reads the pairs back; a lone
//! trailing byte is a truncated record.

use vstd::prelude::*;

use crate::error::MyError;
use crate::repeat_byte;

verus! {

broadcast use vstd::seq_lib::group_seq_lib_default;

/// What the naive encoder carries between bytes: either nothing has been
/// seen yet, or a run of `count` copies of a byte is still pending.
#[derive(Clone, Copy, Debug, PartialEq, Eq, Structural)]
pub enum PackState {
    Wait,
    Run(u8, u8),
}

/// A pending run always holds at least one byte.
pub open spec fn pack_wf(st: PackState) -> bool {
    st matches PackState::Run(_b, c) ==> c >= 1
}

/// The bytes a state still owes to the output.
pub open spec fn pack_pending(st: PackState) -> Seq<u8> {
    match st {
        PackState::Wait => seq![],
        PackState::Run(b, c) => repeat_byte(b, c as nat),
    }
}

/// One transition of the naive encoder: the new state, and the record
/// bytes written out, if any. A run grows while the next byte matches
/// and the counter is below 255; otherwise the pending pair is emitted
/// and a fresh run starts with the new byte.
pub open spec fn pack_step(st: PackState, b: u8) -> (PackState, Seq<u8>) {
    match st {
        PackState::Wait => (PackState::Run(b, 1), seq![]),
        PackState::Run(cur, c) => if b == cur && c < 255 {
            (PackState::Run(cur, (c + 1) as u8), seq![])
        } else {
            (PackState::Run(b, 1), seq![c, cur])
        },
    }
}

/// What the encoder emits when the input ends.
pub open spec fn pack_flush(st: PackState) -> Seq<u8> {
    match st {
        PackState::Wait => seq![],
        PackState::Run(cur, c) => seq![c, cur],
    }
}

/// Folds `pack_step` over a whole byte sequence: the state after all
/// bytes, and everything written along the way.
pub open spec fn pack_steps(st: PackState, s: Seq<u8>) -> (PackState, Seq<u8>)
    decreases s.len(),
{
    if s.len() == 0 {
        (st, seq![])
    } else {
        let first = pack_step(st, s[0]);
        let rest = pack_steps(first.0, s.skip(1));
        (rest.0, first.1 + rest.1)
    }
}

/// The naive encoding of a byte sequence: run the state machine over the
/// whole input, then flush the pending run.
pub open spec fn naive_encode(s: Seq<u8>) -> Seq<u8> {
    pack_steps(PackState::Wait, s).1 + pack_flush(pack_steps(PackState::Wait, s).0)
}

/// The naive decoding: read two bytes at a time as `(count, byte)` and
/// append `count` copies of `byte`; a lone trailing byte is an error.
pub open spec fn naive_decode(s: Seq<u8>) -> Result<Seq<u8>, MyError>
    decreases s.len(),
{
    if s.len() == 0 {
        Ok(seq![])
    } else if s.len() == 1 {
        Err(MyError::TruncatedRecord)
    } else {
        match naive_decode(s.skip(2)) {
            Ok(rest) => Ok(repeat_byte(s[1], s[0] as nat) + rest),
            Err(e) => Err(e),
        }
    }
}

/// A step keeps the state well formed.
pub proof fn lemma_pack_step_wf(st: PackState, b: u8)
    requires
        pack_wf(st),
    ensures
        pack_wf(pack_step(st, b).0),
{
}

/// Feeding one more byte at the end of the input extends the fold by one
/// step.
pub proof fn lemma_pack_steps_push(st: PackState, s: Seq<u8>, b: u8)
    ensures
        pack_steps(st, s.push(b)).0 == pack_step(pack_steps(st, s).0, b).0,
        pack_steps(st, s.push(b)).1 == pack_steps(st, s).1 + pack_step(pack_steps(st, s).0, b).1,
    decreases s.len(),
{
    reveal_with_fuel(pack_steps, 3);
    if s.len() == 0 {
        assert(s.push(b)[0] == b);
        assert(s.push(b).skip(1) =~= Seq::<u8>::empty());
    } else {
        assert(s.push(b)[0] == s[0]);
        assert(s.push(b).skip(1) =~= s.skip(1).push(b));
        let st1 = pack_step(st, s[0]).0;
        lemma_pack_steps_push(st1, s.skip(1), b);
        assert(pack_steps(st, s.push(b)).1 =~= pack_steps(st, s).1 + pack_step(
            pack_steps(st, s).0,
            b,
        ).1);
    }
}

/// Putting one complete `[count][byte]` pair in front of an encoded tail
/// prepends its expansion to the decoded output.
pub proof fn lemma_naive_decode_prepend(c: u8, cur: u8, rest: Seq<u8>)
    ensures
        naive_decode(seq![c, cur] + rest) == match naive_decode(rest) {
            Ok(d) => Ok::<Seq<u8>, MyError>(repeat_byte(cur, c as nat) + d),
            Err(e) => Err::<Seq<u8>, MyError>(e),
        },
{
    let s = seq![c, cur] + rest;
    assert(s.len() == 2 + rest.len());
    assert(s[0] == c);
    assert(s[1] == cur);
    assert(s.skip(2) =~= rest);
}

/// The heart of the naive round trip: at any point of the encoding run,
/// decoding everything written so far plus a final flush yields the
/// pending bytes followed by the remaining input.
pub proof fn lemma_pack_round_trip(st: PackState, s: Seq<u8>)
    requires
        pack_wf(st),
    ensures
        ({
            let r = pack_steps(st, s);
            naive_decode(r.1 + pack_flush(r.0)) == Ok::<Seq<u8>, MyError>(pack_pending(st) + s)
        }),
    decreases s.len(),
{
    reveal_with_fuel(pack_steps, 2);
    reveal_with_fuel(naive_decode, 2);
    if s.len() == 0 {
        match st {
            PackState::Wait => {
                assert(pack_steps(st, s).1 + pack_flush(st) =~= Seq::<u8>::empty());
                assert(pack_pending(st) + s =~= Seq::<u8>::empty());
            },
            PackState::Run(cur, c) => {
                let enc = pack_steps(st, s).1 + pack_flush(st);
                assert(enc =~= seq![c, cur]);
                assert(enc.skip(2) =~= Seq::<u8>::empty());
                assert(naive_decode(enc) == Ok::<Seq<u8>, MyError>(
                    repeat_byte(cur, c as nat) + Seq::<u8>::empty(),
                ));
                assert(repeat_byte(cur, c as nat) + Seq::<u8>::empty() =~= pack_pending(st) + s);
            },
        }
    } else {
        let b0 = s[0];
        let s1 = s.skip(1);
        let st1 = pack_step(st, b0).0;
        let e1 = pack_step(st, b0).1;
        lemma_pack_step_wf(st, b0);
        lemma_pack_round_trip(st1, s1);
        let r1 = pack_steps(st1, s1);
        assert(pack_steps(st, s).0 == r1.0);
        assert(pack_steps(st, s).1 == e1 + r1.1);
        if e1.len() == 0 {
            assert((e1 + r1.1) + pack_flush(r1.0) =~= r1.1 + pack_flush(r1.0));
            assert(pack_pending(st) + s =~= pack_pending(st1) + s1);
        } else {
            // the pending run was flushed: st is a run and e1 is its pair
            let cur = st->Run_0;
            let c = st->Run_1;
            lemma_naive_decode_prepend(c, cur, r1.1 + pack_flush(r1.0));
            assert((e1 + r1.1) + pack_flush(r1.0) =~= seq![c, cur] + (r1.1 + pack_flush(r1.0)));
            assert(repeat_byte(cur, c as nat) + (pack_pending(st1) + s1) =~= pack_pending(st)
                + s);
        }
    }
}

/// Round trip for the naive scheme: decoding an encoding gives back the
/// original bytes, whatever they are.
pub proof fn lemma_naive_round_trip(s: Seq<u8>)
    ensures
        naive_decode(naive_encode(s)) == Ok::<Seq<u8>, MyError>(s),
{
    lemma_pack_round_trip(PackState::Wait, s);
    assert(pack_pending(PackState::Wait) + s =~= s);
}

/// Naive encodings are canonical: re-encoding the decoded output of an
/// encoder-produced stream yields the same stream again.
pub proof fn lemma_naive_reencode_canonical(s: Seq<u8>)
    ensures
        naive_decode(naive_encode(s)) matches Ok(d) && naive_encode(d) == naive_encode(s),
{
    lemma_naive_round_trip(s);
}

/// Empty input encodes to empty output, and empty input decodes to
/// empty output, in the naive scheme.
pub proof fn lemma_naive_empty()
    ensures
        naive_encode(Seq::<u8>::empty()) == Seq::<u8>::empty(),
        naive_decode(Seq::<u8>::empty()) == Ok::<Seq<u8>, MyError>(Seq::<u8>::empty()),
{
    assert(naive_encode(Seq::<u8>::empty()) =~= Seq::<u8>::empty());
    assert(naive_decode(Seq::<u8>::empty()) == Ok::<Seq<u8>, MyError>(seq![]));
    assert(seq![] =~= Seq::<u8>::empty());
}

/// A run of identical bytes only grows the pending counter while the
/// counter stays at or below the cap.
pub proof fn lemma_pack_steps_repeat(b: u8, c: u8, m: nat)
    requires
        1 <= c,
        c as nat + m <= 255,
    ensures
        pack_steps(PackState::Run(b, c), repeat_byte(b, m)).0 == PackState::Run(
            b,
            (c as nat + m) as u8,
        ),
        pack_steps(PackState::Run(b, c), repeat_byte(b, m)).1 == Seq::<u8>::empty(),
    decreases m,
{
    if m == 0 {
        assert(repeat_byte(b, m).len() == 0);
        assert(pack_steps(PackState::Run(b, c), repeat_byte(b, m)).1 =~= Seq::<u8>::empty());
    } else {
        assert(repeat_byte(b, m)[0] == b);
        assert(repeat_byte(b, m).skip(1) =~= repeat_byte(b, (m - 1) as nat));
        lemma_pack_steps_repeat(b, (c + 1) as u8, (m - 1) as nat);
        assert(pack_steps(PackState::Run(b, c), repeat_byte(b, m)).1 =~= Seq::<u8>::empty());
    }
}

/// Boundary of the naive scheme: a run of exactly 255 identical bytes
/// becomes exactly one pair.
pub proof fn lemma_naive_boundary_255(b: u8)
    ensures
        naive_encode(repeat_byte(b, 255)) == seq![255u8, b],
{
    let s = repeat_byte(b, 255);
    assert(s[0] == b);
    assert(s.skip(1) =~= repeat_byte(b, 254));
    lemma_pack_steps_repeat(b, 1, 254);
    assert(naive_encode(s) =~= seq![255u8, b]);
}

/// Boundary of the naive scheme: a run of 256 identical bytes becomes a
/// full pair followed by a pair counting one.
pub proof fn lemma_naive_boundary_256(b: u8)
    ensures
        naive_encode(repeat_byte(b, 256)) == seq![255u8, b, 1u8, b],
{
    let s = repeat_byte(b, 256);
    assert(s[0] == b);
    assert(s.skip(1) =~= repeat_byte(b, 254).push(b));
    lemma_pack_steps_repeat(b, 1, 254);
    lemma_pack_steps_push(PackState::Run(b, 1), repeat_byte(b, 254), b);
    assert(naive_encode(s) =~= seq![255u8, b, 1u8, b]);
}

/// The streaming naive encoder: bytes are fed in bounded chunks and each
/// completed pair is pushed to the output at once, so a run may span any
/// number of chunks while only the two-byte pending state is kept.
pub struct Packer {
    state: PackState,
}

impl View for Packer {
    type V = PackState;

    closed spec fn view(&self) -> PackState {
        self.state
    }
}

impl Packer {
    pub open spec fn wf(&self) -> bool {
        pack_wf(self@)
    }

    pub fn new() -> (r: Packer)
        ensures
            r@ == PackState::Wait,
            r.wf(),
    {
        Packer { state: PackState::Wait }
    }

    /// Feeds one byte; a completed pair, if any, is appended to `out`.
    pub fn push(&mut self, b: u8, out: &mut Vec<u8>)
        requires
            old(self).wf(),
        ensures
            final(self).wf(),
            final(self)@ == pack_step(old(self)@, b).0,
            final(out)@ == old(out)@ + pack_step(old(self)@, b).1,
    {
        match self.state {
            PackState::Wait => {
                self.state = PackState::Run(b, 1);
            },
            PackState::Run(cur, c) => {
                if b == cur && c < 255 {
                    self.state = PackState::Run(cur, c + 1);
                } else {
                    out.push(c);
                    out.push(cur);
                    self.state = PackState::Run(b, 1);
                }
            },
        }
        proof {
            assert(final(out)@ =~= old(out)@ + pack_step(old(self)@, b).1);
        }
    }

    /// Feeds a whole chunk, byte by byte, in order.
    pub fn push_chunk(&mut self, chunk: &Vec<u8>, out: &mut Vec<u8>)
        requires
            old(self).wf(),
        ensures
            final(self).wf(),
            final(self)@ == pack_steps(old(self)@, chunk@).0,
            final(out)@ == old(out)@ + pack_steps(old(self)@, chunk@).1,
    {
        let ghost st0 = self@;
        let ghost out0 = out@;
        let mut i: usize = 0;
        while i < chunk.len()
            invariant
                i <= chunk.len(),
                self.wf(),
                self@ == pack_steps(st0, chunk@.take(i as int)).0,
                out@ == out0 + pack_steps(st0, chunk@.take(i as int)).1,
            decreases chunk.len() - i,
        {
            let b = chunk[i];
            self.push(b, out);
            proof {
                lemma_pack_steps_push(st0, chunk@.take(i as int), b);
                assert(chunk@.take(i as int).push(b) =~= chunk@.take(i as int + 1));
                assert(out@ =~= out0 + pack_steps(st0, chunk@.take(i as int + 1)).1);
            }
            i = i + 1;
        }
        proof {
            assert(chunk@.take(chunk@.len() as int) =~= chunk@);
        }
    }

    /// Ends the input: writes the pending pair, if any.
    pub fn finish(self, out: &mut Vec<u8>)
        ensures
            final(out)@ == old(out)@ + pack_flush(self@),
    {
        match self.state {
            PackState::Wait => {},
            PackState::Run(cur, c) => {
                out.push(c);
                out.push(cur);
            },
        }
        proof {
            assert(final(out)@ =~= old(out)@ + pack_flush(self@));
        }
    }
}

/// Naive encoding of an in-memory byte sequence.
pub fn encode(input: &Vec<u8>) -> (r: Vec<u8>)
    ensures
        r@ == naive_encode(input@),
{
    let mut out: Vec<u8> = Vec::new();
    let mut packer = Packer::new();
    packer.push_chunk(input, &mut out);
    packer.finish(&mut out);
    proof {
        assert(out@ =~= naive_encode(input@));
    }
    out
}

/// Naive decoding of an in-memory encoded sequence: the decoded bytes,
/// or `TruncatedRecord` exactly when the encoded length is odd.
pub fn decode(input: &Vec<u8>) -> (r: Result<Vec<u8>, MyError>)
    ensures
        match r {
            Ok(d) => naive_decode(input@) == Ok::<Seq<u8>, MyError>(d@),
            Err(e) => naive_decode(input@) == Err::<Seq<u8>, MyError>(e),
        },
        r is Ok <==> input@.len() % 2 == 0,
        input@.len() % 2 != 0 ==> r == Err::<Vec<u8>, MyError>(MyError::TruncatedRecord),
{
    let n = input.len();
    let mut out: Vec<u8> = Vec::new();
    let mut i: usize = 0;
    proof {
        assert(input@.skip(0) =~= input@);
        match naive_decode(input@) {
            Ok(rest) => {
                assert(out@ + rest =~= rest);
            },
            Err(_e) => {},
        }
    }
    while n - i >= 2
        invariant
            i <= n,
            i % 2 == 0,
            n == input@.len(),
            match naive_decode(input@.skip(i as int)) {
                Ok(rest) => naive_decode(input@) == Ok::<Seq<u8>, MyError>(out@ + rest),
                Err(e) => naive_decode(input@) == Err::<Seq<u8>, MyError>(e),
            },
        decreases n - i,
    {
        let count = input[i];
        let byte = input[i + 1];
        let ghost out_snap = out@;
        let mut k: usize = 0;
        while k < count as usize
            invariant
                k <= count as usize,
                out@ == out_snap + repeat_byte(byte, k as nat),
            decreases count as usize - k,
        {
            out.push(byte);
            proof {
                assert(out_snap + repeat_byte(byte, k as nat + 1) =~= (out_snap + repeat_byte(
                    byte,
                    k as nat,
                )).push(byte));
            }
            k = k + 1;
        }
        proof {
            let s_i = input@.skip(i as int);
            assert(s_i[0] == input@[i as int]);
            assert(s_i[1] == input@[i as int + 1]);
            assert(s_i.skip(2) =~= input@.skip(i as int + 2));
            assert(out@ =~= out_snap + repeat_byte(byte, count as nat));
            match naive_decode(input@.skip(i as int + 2)) {
                Ok(rest) => {
                    assert(naive_decode(s_i) == Ok::<Seq<u8>, MyError>(
                        repeat_byte(byte, count as nat) + rest,
                    ));
                    assert(out_snap + (repeat_byte(byte, count as nat) + rest) =~= out@ + rest);
                },
                Err(_e) => {},
            }
        }
        i = i + 2;
    }
    if i < n {
        // exactly one byte is left: a count with no byte to repeat
        proof {
            assert(input@.skip(i as int).len() == 1);
        }
        return Err(MyError::TruncatedRecord);
    }
    proof {
        assert(input@.skip(i as int) =~= Seq::<u8>::empty());
        assert(out@ + Seq::<u8>::empty() =~= out@);
    }
    Ok(out)
}

/// What the streaming naive decoder carries between bytes: it is waiting
/// either for the next count, or for the byte that the count repeats.
#[derive(Clone, Copy, Debug, PartialEq, Eq, Structural)]
pub enum UnpackState {
    NeedCount,
    NeedByte(u8),
}

/// One transition of the streaming naive decoder: the new state and the
/// bytes written out.
pub open spec fn unpack_step(st: UnpackState, b: u8) -> (UnpackState, Seq<u8>) {
    match st {
        UnpackState::NeedCount => (UnpackState::NeedByte(b), seq![]),
        UnpackState::NeedByte(c) => (UnpackState::NeedCount, repeat_byte(b, c as nat)),
    }
}

/// Folds `unpack_step` over a whole byte sequence.
pub open spec fn unpack_steps(st: UnpackState, s: Seq<u8>) -> (UnpackState, Seq<u8>)
    decreases s.len(),
{
    if s.len() == 0 {
        (st, seq![])
    } else {
        let first = unpack_step(st, s[0]);
        let rest = unpack_steps(first.0, s.skip(1));
        (rest.0, first.1 + rest.1)
    }
}

/// Feeding one more byte at the end of the input extends the fold by one
/// step.
pub proof fn lemma_unpack_steps_push(st: UnpackState, s: Seq<u8>, b: u8)
    ensures
        unpack_steps(st, s.push(b)).0 == unpack_step(unpack_steps(st, s).0, b).0,
        unpack_steps(st, s.push(b)).1 == unpack_steps(st, s).1 + unpack_step(
            unpack_steps(st, s).0,
            b,
        ).1,
    decreases s.len(),
{
    reveal_with_fuel(unpack_steps, 3);
    if s.len() == 0 {
        assert(s.push(b)[0] == b);
        assert(s.push(b).skip(1) =~= Seq::<u8>::empty());
    } else {
        assert(s.push(b)[0] == s[0]);
        assert(s.push(b).skip(1) =~= s.skip(1).push(b));
        let st1 = unpack_step(st, s[0]).0;
        lemma_unpack_steps_push(st1, s.skip(1), b);
        assert(unpack_steps(st, s.push(b)).1 =~= unpack_steps(st, s).1 + unpack_step(
            unpack_steps(st, s).0,
            b,
        ).1);
    }
}

/// Run from a fresh state, the streaming decoder agrees with
/// `naive_decode`: on a well-formed stream it has emitted exactly the
/// decoded bytes and waits for a count; a stream with a dangling count
/// is exactly one that `naive_decode` rejects as truncated.
pub proof fn lemma_unpack_matches_decode(s: Seq<u8>)
    ensures
        naive_decode(s) matches Ok(d) ==> unpack_steps(UnpackState::NeedCount, s) == (
        UnpackState::NeedCount,
        d,
        ),
        naive_decode(s) is Err ==> unpack_steps(UnpackState::NeedCount, s).0 is NeedByte,
    decreases s.len(),
{
    reveal_with_fuel(unpack_steps, 3);
    if s.len() == 0 {
    } else if s.len() == 1 {
        assert(s.skip(1) =~= Seq::<u8>::empty());
    } else {
        let s1 = s.skip(1);
        let s2 = s.skip(2);
        assert(s1[0] == s[1]);
        assert(s1.skip(1) =~= s2);
        lemma_unpack_matches_decode(s2);
        let rest = unpack_steps(UnpackState::NeedCount, s2);
        assert(unpack_steps(UnpackState::NeedCount, s).1 == seq![] + (repeat_byte(
            s[1],
            s[0] as nat,
        ) + rest.1));
        match naive_decode(s2) {
            Ok(d2) => {
                assert(seq![] + (repeat_byte(s[1], s[0] as nat) + d2) =~= repeat_byte(
                    s[1],
                    s[0] as nat,
                ) + d2);
            },
            Err(_e) => {},
        }
    }
}

/// The streaming naive decoder: encoded bytes are fed in bounded chunks
/// and each completed pair is expanded to the output at once.
pub struct Unpacker {
    state: UnpackState,
}

impl View for Unpacker {
    type V = UnpackState;

    closed spec fn view(&self) -> UnpackState {
        self.state
    }
}

impl Unpacker {
    pub fn new() -> (r: Unpacker)
        ensures
            r@ == UnpackState::NeedCount,
    {
        Unpacker { state: UnpackState::NeedCount }
    }

    /// Feeds one encoded byte; a completed pair is expanded into `out`.
    pub fn push(&mut self, b: u8, out: &mut Vec<u8>)
        ensures
            final(self)@ == unpack_step(old(self)@, b).0,
            final(out)@ == old(out)@ + unpack_step(old(self)@, b).1,
    {
        match self.state {
            UnpackState::NeedCount => {
                self.state = UnpackState::NeedByte(b);
                proof {
                    assert(final(out)@ =~= old(out)@ + unpack_step(old(self)@, b).1);
                }
            },
            UnpackState::NeedByte(c) => {
                let ghost out_snap = out@;
                let mut k: usize = 0;
                while k < c as usize
                    invariant
                        k <= c as usize,
                        out@ == out_snap + repeat_byte(b, k as nat),
                    decreases c as usize - k,
                {
                    out.push(b);
                    proof {
                        assert(out_snap + repeat_byte(b, k as nat + 1) =~= (out_snap + repeat_byte(
                            b,
                            k as nat,
                        )).push(b));
                    }
                    k = k + 1;
                }
                self.state = UnpackState::NeedCount;
                proof {
                    assert(out@ =~= old(out)@ + unpack_step(old(self)@, b).1);
                }
            },
        }
    }

    /// Feeds a whole chunk of encoded bytes, in order.
    pub fn push_chunk(&mut self, chunk: &Vec<u8>, out: &mut Vec<u8>)
        ensures
            final(self)@ == unpack_steps(old(self)@, chunk@).0,
            final(out)@ == old(out)@ + unpack_steps(old(self)@, chunk@).1,
    {
        let ghost st0 = self@;
        let ghost out0 = out@;
        let mut i: usize = 0;
        while i < chunk.len()
            invariant
                i <= chunk.len(),
                self@ == unpack_steps(st0, chunk@.take(i as int)).0,
                out@ == out0 + unpack_steps(st0, chunk@.take(i as int)).1,
            decreases chunk.len() - i,
        {
            let b = chunk[i];
            self.push(b, out);
            proof {
                lemma_unpack_steps_push(st0, chunk@.take(i as int), b);
                assert(chunk@.take(i as int).push(b) =~= chunk@.take(i as int + 1));
                assert(out@ =~= out0 + unpack_steps(st0, chunk@.take(i as int + 1)).1);
            }
            i = i + 1;
        }
        proof {
            assert(chunk@.take(chunk@.len() as int) =~= chunk@);
        }
    }

    /// Ends the input: a dangling count is a truncated record.
    pub fn finish(self) -> (r: Result<(), MyError>)
        ensures
            r is Ok <==> self@ == UnpackState::NeedCount,
            r is Err ==> r == Err::<(), MyError>(MyError::TruncatedRecord),
    {
        match self.state {
            UnpackState::NeedCount => Ok(()),
            UnpackState::NeedByte(_) => Err(MyError::TruncatedRecord),
        }
    }
}

} // verus!
