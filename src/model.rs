//! The zx0 format as mathematics: what a decode of a byte sequence yields.
use crate::error::Failure;
use crate::Settings;
use vstd::prelude::*;

verus! {

/// The four states of the decoder.
#[derive(PartialEq, Eq, Structural, Clone, Copy, Debug)]
pub enum State {
    CopyLiterals,
    CopyFromLastOffset,
    CopyFromNewOffset,
    Done,
}

/// Where a decode stands in its input.
///
/// `pos` bytes of the input have been consumed. The bit cursor holds `count`
/// unread bits, left-aligned in `bits` (the next bit is bit 15); all lower
/// bits of `bits` are zero.
pub struct Reader {
    pub pos: nat,
    pub count: nat,
    pub bits: u16,
    pub last_offset: usize,
}

/// The reader at the start of a decode: nothing consumed, no buffered bits,
/// last offset 1.
pub open spec fn start_reader() -> Reader {
    Reader { pos: 0, count: 0, bits: 0, last_offset: 1 }
}

/// An upper bound on the bits that remain to be read; every bit read lowers it.
pub open spec fn measure(src: Seq<u8>, r: Reader) -> nat {
    (if r.pos <= src.len() { 8 * (src.len() - r.pos) } else { 0int }) as nat + r.count
}

/// Consumes one raw byte; `None` at the end of the input.
pub open spec fn read_byte(src: Seq<u8>, r: Reader) -> Option<(u8, Reader)> {
    if r.pos < src.len() {
        Some((src[r.pos as int], Reader { pos: r.pos + 1, ..r }))
    } else {
        None
    }
}

/// Consumes the next bit, most significant first, refilling the cursor with
/// the next byte once its bits are used up; `None` at the end of the input.
pub open spec fn read_bit(src: Seq<u8>, r: Reader) -> Option<(bool, Reader)> {
    if r.count == 0 {
        if r.pos < src.len() {
            let bits = (src[r.pos as int] as u16) << 8u16;
            Some((bits & 0x8000 != 0, Reader { pos: r.pos + 1, count: 7, bits: bits << 1u16, ..r }))
        } else {
            None
        }
    } else {
        Some((r.bits & 0x8000 != 0, Reader { count: (r.count - 1) as nat, bits: r.bits << 1u16, ..r }))
    }
}

/// Puts bit 0 of `b` in front of the cursor's unread bits.
pub open spec fn push_bit(r: Reader, b: u8) -> Reader {
    Reader { count: r.count + 1, bits: (r.bits >> 1u16) | ((b as u16) << 15u16), ..r }
}

/// The interlaced Elias-gamma code that continues from the partial `value`:
/// a 1 bit stops; a 0 bit is followed by a data bit (flipped when `inverted`)
/// that is shifted in at the bottom. A value that would pass `usize::MAX` is
/// an invalid length.
pub open spec fn gamma(src: Seq<u8>, r: Reader, inverted: bool, value: usize) -> Result<(usize, Reader), Failure>
    decreases measure(src, r),
{
    match read_bit(src, r) {
        None => Err(Failure::ReadFailure),
        Some((stop, r1)) => {
            if stop {
                Ok((value, r1))
            } else {
                match read_bit(src, r1) {
                    None => Err(Failure::ReadFailure),
                    Some((d, r2)) => {
                        if value > usize::MAX / 2 {
                            Err(Failure::InvalidLength)
                        } else {
                            gamma(src, r2, inverted, (2 * value + (if d != inverted { 1int } else { 0int })) as usize)
                        }
                    },
                }
            }
        }
    }
}

/// The `k` bytes that a copy at distance `offset` appends to `out`: the copy
/// may overlap its own result, so the last `offset` bytes of `out` repeat.
pub open spec fn repeat_tail(out: Seq<u8>, offset: nat, k: nat) -> Seq<u8> {
    Seq::new(k, |i: int| out[out.len() - offset + i % (offset as int)])
}

/// How many of `length` bytes still fit under the cap `max`.
pub open spec fn room(len: nat, length: nat, max: nat) -> nat {
    if len + length <= max { length } else if len <= max { (max - len) as nat } else { 0 }
}

/// A back-reference: `length` bytes from `offset` back, cut at the cap.
pub open spec fn self_copy(out: Seq<u8>, offset: usize, length: usize, max: usize) -> Result<Seq<u8>, Failure> {
    if offset == 0 || offset > out.len() {
        Err(Failure::InvalidOffset)
    } else {
        Ok(out + repeat_tail(out, offset as nat, room(out.len(), length as nat, max as nat)))
    }
}

/// Reads the control bit that ends a copy: 1 picks `CopyFromNewOffset`, 0 picks `other`.
pub open spec fn next_state(src: Seq<u8>, r: Reader, other: State, out: Seq<u8>) -> Result<(Reader, State, Seq<u8>), Failure> {
    match read_bit(src, r) {
        None => Err(Failure::ReadFailure),
        Some((b, r1)) => Ok((r1, if b { State::CopyFromNewOffset } else { other }, out)),
    }
}

/// One step of the decoder from state `st`, with output `out` so far.
///
/// A literal run or a back-reference that would pass the cap is cut there:
/// all of its input is still read, only fewer bytes are appended.
pub open spec fn step(src: Seq<u8>, s: Settings, r: Reader, st: State, out: Seq<u8>) -> Result<(Reader, State, Seq<u8>), Failure> {
    match st {
        State::CopyLiterals => match gamma(src, r, false, 1) {
            Err(f) => Err(f),
            Ok((len, r1)) => {
                if r1.pos + len <= src.len() {
                    let r2 = Reader { pos: r1.pos + len as nat, ..r1 };
                    let k = room(out.len(), len as nat, s.max_output_size as nat);
                    next_state(src, r2, State::CopyFromLastOffset, out + src.subrange(r1.pos as int, r1.pos + k as int))
                } else {
                    Err(Failure::ReadFailure)
                }
            },
        },
        State::CopyFromLastOffset => match gamma(src, r, false, 1) {
            Err(f) => Err(f),
            Ok((len, r1)) => match self_copy(out, r1.last_offset, len, s.max_output_size) {
                Err(f) => Err(f),
                Ok(out2) => next_state(src, r1, State::CopyLiterals, out2),
            },
        },
        State::CopyFromNewOffset => match gamma(src, r, !s.classic_mode, 1) {
            Err(f) => Err(f),
            Ok((high, r1)) => {
                if high == 256 {
                    Ok((r1, State::Done, out))
                } else {
                    match read_byte(src, r1) {
                        None => Err(Failure::ReadFailure),
                        Some((b, r2)) => {
                            let lo = (b >> 1u8) as int;
                            if high > usize::MAX / 128 || high * 128 <= lo {
                                Err(Failure::InvalidOffset)
                            } else {
                                let offset = (high * 128 - lo) as usize;
                                let r3 = push_bit(Reader { last_offset: offset, ..r2 }, b);
                                match gamma(src, r3, false, 1) {
                                    Err(f) => Err(f),
                                    Ok((l, r4)) => {
                                        if l == usize::MAX {
                                            Err(Failure::InvalidLength)
                                        } else {
                                            match self_copy(out, offset, (l + 1) as usize, s.max_output_size) {
                                                Err(f) => Err(f),
                                                Ok(out2) => next_state(src, r4, State::CopyLiterals, out2),
                                            }
                                        }
                                    },
                                }
                            }
                        },
                    }
                }
            },
        },
        State::Done => Ok((r, State::Done, out)),
    }
}

/// Reading a bit lowers the measure by one.
pub proof fn lemma_read_bit_measure(src: Seq<u8>, r: Reader)
    ensures
        read_bit(src, r) matches Some((_, r1)) ==> measure(src, r1) + 1 == measure(src, r),
{
}

/// A gamma code reads at least one bit.
pub proof fn lemma_gamma_measure(src: Seq<u8>, r: Reader, inverted: bool, value: usize)
    ensures
        gamma(src, r, inverted, value) matches Ok((_, r1)) ==> measure(src, r1) < measure(src, r),
    decreases measure(src, r),
{
    lemma_read_bit_measure(src, r);
    if let Some((stop, r1)) = read_bit(src, r) {
        if !stop {
            lemma_read_bit_measure(src, r1);
            if let Some((d, r2)) = read_bit(src, r1) {
                if value <= usize::MAX / 2 {
                    lemma_gamma_measure(src, r2, inverted, (2 * value + (if d != inverted { 1int } else { 0int })) as usize);
                }
            }
        }
    }
}

/// A gamma code never yields less than the value it starts from, so a
/// length or high part read from the start is at least 1.
pub proof fn lemma_gamma_at_least(src: Seq<u8>, r: Reader, inverted: bool, value: usize)
    ensures
        gamma(src, r, inverted, value) matches Ok((v, _)) ==> v >= value,
    decreases measure(src, r),
{
    lemma_read_bit_measure(src, r);
    if let Some((stop, r1)) = read_bit(src, r) {
        if !stop {
            lemma_read_bit_measure(src, r1);
            if let Some((d, r2)) = read_bit(src, r1) {
                if value <= usize::MAX / 2 {
                    lemma_gamma_at_least(src, r2, inverted, (2 * value + (if d != inverted { 1int } else { 0int })) as usize);
                }
            }
        }
    }
}

/// The transitions of the state machine: a literal run leads to a copy, a
/// copy from the last offset to literals or a new offset, a copy from a new
/// offset to literals, a new offset or the end, and the end is final.
pub proof fn lemma_step_transitions(src: Seq<u8>, s: Settings, r: Reader, st: State, out: Seq<u8>)
    ensures
        step(src, s, r, st, out) matches Ok((_, st1, _)) ==> match st {
            State::CopyLiterals => st1 == State::CopyFromNewOffset || st1 == State::CopyFromLastOffset,
            State::CopyFromLastOffset => st1 == State::CopyFromNewOffset || st1 == State::CopyLiterals,
            State::CopyFromNewOffset => st1 != State::CopyFromLastOffset,
            State::Done => st1 == State::Done,
        },
{
}

/// Every step that does not end the decode lowers the measure.
pub proof fn lemma_step_measure(src: Seq<u8>, s: Settings, r: Reader, st: State, out: Seq<u8>)
    ensures
        step(src, s, r, st, out) matches Ok((r1, st1, _)) ==> (st1 == State::Done || measure(src, r1) < measure(src, r)),
{
    lemma_gamma_measure(src, r, false, 1);
    lemma_gamma_measure(src, r, !s.classic_mode, 1);
    if let Ok((len, r1)) = gamma(src, r, false, 1) {
        if r1.pos + len <= src.len() {
            lemma_read_bit_measure(src, Reader { pos: r1.pos + len as nat, ..r1 });
        }
        lemma_read_bit_measure(src, r1);
    }
    if let Ok((high, r1)) = gamma(src, r, !s.classic_mode, 1) {
        if let Some((b, r2)) = read_byte(src, r1) {
            let lo = (b >> 1u8) as int;
            let r3 = push_bit(Reader { last_offset: (high * 128 - lo) as usize, ..r2 }, b);
            lemma_gamma_measure(src, r3, false, 1);
            if let Ok((l, r4)) = gamma(src, r3, false, 1) {
                lemma_read_bit_measure(src, r4);
            }
        }
    }
}

/// Runs the decoder from state `st` until it is done or the output has reached
/// the cap.
pub open spec fn run(src: Seq<u8>, s: Settings, r: Reader, st: State, out: Seq<u8>) -> Result<Seq<u8>, Failure>
    decreases measure(src, r),
    via run_decreases
{
    if out.len() >= s.max_output_size {
        Ok(out)
    } else {
        match step(src, s, r, st, out) {
            Err(f) => Err(f),
            Ok((r1, st1, out1)) => {
                if st1 == State::Done {
                    Ok(out1)
                } else {
                    run(src, s, r1, st1, out1)
                }
            },
        }
    }
}

#[via_fn]
proof fn run_decreases(src: Seq<u8>, s: Settings, r: Reader, st: State, out: Seq<u8>) {
    lemma_step_measure(src, s, r, st, out);
}

/// The result of decoding all of `src` with settings `s`.
pub open spec fn decode(src: Seq<u8>, s: Settings) -> Result<Seq<u8>, Failure> {
    run(src, s, start_reader(), State::CopyLiterals, Seq::empty())
}

/// A step that starts at or below the cap ends at or below it.
proof fn lemma_step_within_cap(src: Seq<u8>, s: Settings, r: Reader, st: State, out: Seq<u8>)
    requires
        out.len() <= s.max_output_size,
    ensures
        step(src, s, r, st, out) matches Ok((_, _, out1)) ==> out1.len() <= s.max_output_size,
{
}

proof fn lemma_run_within_cap(src: Seq<u8>, s: Settings, r: Reader, st: State, out: Seq<u8>)
    requires
        out.len() <= s.max_output_size,
    ensures
        run(src, s, r, st, out) matches Ok(o) ==> o.len() <= s.max_output_size,
    decreases measure(src, r),
{
    if out.len() < s.max_output_size {
        lemma_step_measure(src, s, r, st, out);
        lemma_step_within_cap(src, s, r, st, out);
        if let Ok((r1, st1, out1)) = step(src, s, r, st, out) {
            if st1 != State::Done {
                lemma_run_within_cap(src, s, r1, st1, out1);
            }
        }
    }
}

/// Output bound: a decode never yields more than `max_output_size` bytes,
/// whatever the input.
pub proof fn lemma_output_within_cap(src: Seq<u8>, s: Settings)
    ensures
        decode(src, s) matches Ok(o) ==> o.len() <= s.max_output_size,
{
    lemma_run_within_cap(src, s, start_reader(), State::CopyLiterals, Seq::empty());
}

/// A back-reference at distance 1 repeats the last byte: `k` copies of it,
/// as far as the cap leaves room.
pub proof fn lemma_offset_one_repeats(out: Seq<u8>, k: usize, max: usize)
    requires
        out.len() > 0,
        out.len() + k <= max,
    ensures
        self_copy(out, 1, k, max) == Ok::<Seq<u8>, Failure>(out + Seq::new(k as nat, |i: int| out.last())),
{
    assert forall|i: int| 0 <= i < k implies #[trigger] repeat_tail(out, 1, k as nat)[i] == out.last() by {
        assert(i % 1 == 0);
    }
    assert(repeat_tail(out, 1, k as nat) =~= Seq::new(k as nat, |i: int| out.last()));
}

/// An empty input fails with a read failure whenever the cap leaves room for
/// any output.
pub proof fn lemma_empty_input_fails(s: Settings)
    requires
        s.max_output_size > 0,
    ensures
        decode(Seq::empty(), s) == Err::<Seq<u8>, Failure>(Failure::ReadFailure),
{
    reveal_with_fuel(gamma, 2);
    reveal_with_fuel(run, 2);
}

/// The output of a step extends the output it started from.
proof fn lemma_step_extends(src: Seq<u8>, s: Settings, r: Reader, st: State, out: Seq<u8>)
    ensures
        step(src, s, r, st, out) matches Ok((_, _, o1)) ==> out.len() <= o1.len() && o1.subrange(0, out.len() as int) == out,
{
    if let Ok((_, _, o1)) = step(src, s, r, st, out) {
        assert(o1.subrange(0, out.len() as int) =~= out);
    }
}

/// The output of a run extends the output it started from.
proof fn lemma_run_extends(src: Seq<u8>, s: Settings, r: Reader, st: State, out: Seq<u8>)
    ensures
        run(src, s, r, st, out) matches Ok(v) ==> out.len() <= v.len() && v.subrange(0, out.len() as int) == out,
    decreases measure(src, r),
{
    if out.len() < s.max_output_size {
        lemma_step_measure(src, s, r, st, out);
        lemma_step_extends(src, s, r, st, out);
        if let Ok((r1, st1, o1)) = step(src, s, r, st, out) {
            if st1 != State::Done {
                lemma_run_extends(src, s, r1, st1, o1);
                if let Ok(v) = run(src, s, r1, st1, o1) {
                    assert(v.subrange(0, out.len() as int) =~= o1.subrange(0, out.len() as int));
                }
            }
        }
    }
}

/// A step under a lower cap `t` does what the step under `s` does, cut at
/// the lower cap.
proof fn lemma_step_lower_cap(src: Seq<u8>, s: Settings, t: Settings, r: Reader, st: State, out: Seq<u8>)
    requires
        t.classic_mode == s.classic_mode,
        out.len() < t.max_output_size <= s.max_output_size,
    ensures
        step(src, s, r, st, out) matches Ok((r1, st1, o1)) ==> {
            if o1.len() <= t.max_output_size {
                step(src, t, r, st, out) == step(src, s, r, st, out)
            } else {
                step(src, t, r, st, out) matches Ok((_, _, o2)) && o2 == o1.subrange(0, t.max_output_size as int)
            }
        },
{
    let n = t.max_output_size as int;
    if let Ok((r1, st1, o1)) = step(src, s, r, st, out) {
        if t.max_output_size == s.max_output_size {
            assert(t == s);
        }
        if o1.len() > n {
            match st {
                State::CopyLiterals => {
                    if let Ok((len, ra)) = gamma(src, r, false, 1) {
                        let k = room(out.len(), len as nat, t.max_output_size as nat);
                        assert((out + src.subrange(ra.pos as int, ra.pos + k as int)) =~= o1.subrange(0, n));
                    }
                },
                State::CopyFromLastOffset => {
                    if let Ok((len, ra)) = gamma(src, r, false, 1) {
                        let k = room(out.len(), len as nat, t.max_output_size as nat);
                        assert((out + repeat_tail(out, ra.last_offset as nat, k)) =~= o1.subrange(0, n));
                    }
                },
                State::CopyFromNewOffset => {
                    if let Ok((high, ra)) = gamma(src, r, !s.classic_mode, 1) {
                        if let Some((b, rb)) = read_byte(src, ra) {
                            let offset = (high * 128 - (b >> 1u8) as int) as usize;
                            let rc = push_bit(Reader { last_offset: offset, ..rb }, b);
                            if let Ok((l, rd)) = gamma(src, rc, false, 1) {
                                let k = room(out.len(), (l + 1) as nat, t.max_output_size as nat);
                                assert((out + repeat_tail(out, offset as nat, k)) =~= o1.subrange(0, n));
                            }
                        }
                    }
                },
                State::Done => {},
            }
        }
    }
}

proof fn lemma_run_lower_cap(src: Seq<u8>, s: Settings, t: Settings, r: Reader, st: State, out: Seq<u8>)
    requires
        t.classic_mode == s.classic_mode,
        t.max_output_size <= s.max_output_size,
        out.len() <= t.max_output_size,
    ensures
        run(src, s, r, st, out) matches Ok(v) ==> run(src, t, r, st, out) == Ok::<Seq<u8>, Failure>(
            if v.len() <= t.max_output_size { v } else { v.subrange(0, t.max_output_size as int) }),
    decreases measure(src, r),
{
    let n = t.max_output_size as int;
    lemma_run_extends(src, s, r, st, out);
    if let Ok(v) = run(src, s, r, st, out) {
        if out.len() >= n {
            assert(v.subrange(0, n) =~= out);
            if v.len() <= n {
                assert(v =~= out);
            }
        } else {
            lemma_step_measure(src, s, r, st, out);
            lemma_step_lower_cap(src, s, t, r, st, out);
            if let Ok((r1, st1, o1)) = step(src, s, r, st, out) {
                if o1.len() <= n {
                    if st1 != State::Done {
                        lemma_run_lower_cap(src, s, t, r1, st1, o1);
                    }
                } else {
                    if st1 != State::Done {
                        lemma_run_extends(src, s, r1, st1, o1);
                        assert(v.subrange(0, n) =~= o1.subrange(0, n));
                    }
                    if let Ok((r2, st2, o2)) = step(src, t, r, st, out) {
                        if st2 != State::Done {
                            assert(run(src, t, r2, st2, o2) == Ok::<Seq<u8>, Failure>(o2));
                        }
                    }
                }
            }
        }
    }
}

/// A lower cap only shortens the result: where a decode succeeds, the decode
/// of the same input under a lower cap yields its first `max_output_size` bytes.
pub proof fn lemma_lower_cap_is_prefix(src: Seq<u8>, s: Settings, t: Settings)
    requires
        t.classic_mode == s.classic_mode,
        t.max_output_size <= s.max_output_size,
    ensures
        decode(src, s) matches Ok(v) ==> decode(src, t) == Ok::<Seq<u8>, Failure>(
            if v.len() <= t.max_output_size { v } else { v.subrange(0, t.max_output_size as int) }),
{
    lemma_run_lower_cap(src, s, t, start_reader(), State::CopyLiterals, Seq::empty());
}

} // verus!
