//! Decompress data in zx0 format.
//!
//! `decompress_with_settings` turns a zx0 stream into the bytes it encodes.
//! Its result is, byte for byte and error for error, `model::decode` of the
//! input: the format stated as spec functions.
mod cursor;
mod error;
pub mod model;

use crate::cursor::{aligned, register};
pub use crate::error::{DecompressError, Failure};
use crate::error::unexpected_eof;
use crate::model::{gamma, measure, read_bit, read_byte, repeat_tail, self_copy, step, Reader, State};
use vstd::arithmetic::div_mod::{lemma_mod_add_multiples_vanish, lemma_small_mod};
use vstd::prelude::*;

verus! {

/// Decompression settings
#[derive(Clone, Copy, Debug)]
pub struct Settings {
    /// Decompress classic file format (v1)
    pub classic_mode: bool,
    /// Limit the output to this number of bytes.
    pub max_output_size: usize,
}

/// The settings that apply when none are given: the current file format, no
/// limit on the output.
pub open spec fn default_settings() -> Settings {
    Settings { classic_mode: false, max_output_size: usize::MAX }
}

/// Decoding without settings is decoding with the default settings: the
/// contract of `decompress` and that of `decompress_with_settings` on
/// `Settings::default()` name the same result, for every input.
pub proof fn lemma_default_settings_agree(src: Seq<u8>)
    ensures
        model::decode(src, default_settings())
            == model::decode(src, Settings { classic_mode: false, max_output_size: usize::MAX }),
{
}

impl Default for Settings {
    fn default() -> (s: Self)
        ensures
            s == default_settings(),
    {
        Self { classic_mode: false, max_output_size: usize::MAX }
    }
}

/// The state of one decode: the input and how far it has been read, the
/// settings, and the last offset used.
struct Context<'a> {
    source: &'a [u8],
    pos: usize,
    settings: Settings,
    last_offset: usize,
    /// Current bit data. The most significant bit contains the next bit that will be read.
    /// After the bit data, there is a bit set to 1 which is used as an end marker.
    bit_value: u16,
    /// How many unread bits `bit_value` holds.
    count: Ghost<u16>,
    /// The unread bits of `bit_value`, without the end marker.
    bits: Ghost<u16>,
}

impl<'a> Context<'a> {
    pub closed spec fn wf(&self) -> bool {
        &&& aligned(self.count@, self.bits@)
        &&& self.bit_value == register(self.count@, self.bits@)
        &&& self.pos <= self.source@.len()
    }

    pub closed spec fn reader(&self) -> Reader {
        Reader { pos: self.pos as nat, count: self.count@ as nat, bits: self.bits@, last_offset: self.last_offset }
    }

    pub closed spec fn input(&self) -> Seq<u8> {
        self.source@
    }

    pub closed spec fn config(&self) -> Settings {
        self.settings
    }

    pub closed spec fn same_input(&self, other: &Self) -> bool {
        self.source@ == other.source@ && self.settings == other.settings
    }

    pub fn new(source: &'a [u8], settings: Settings) -> (c: Self)
        ensures
            c.wf(),
            c.reader() == model::start_reader(),
            c.input() == source@,
            c.config() == settings,
    {
        proof {
            assert(0u16 | (0x8000u16 >> 0u16) == 0x8000u16 && 0u16 & (0xffffu16 >> 0u16) == 0) by (bit_vector);
        }
        Self {
            source,
            pos: 0,
            settings,
            last_offset: 1,
            bit_value: 0x8000,
            count: Ghost(0),
            bits: Ghost(0),
        }
    }

    /// Executes the next step of the decompression. Returns the next state.
    fn next_step(&mut self, state: State, output: &mut Vec<u8>) -> (res: Result<State, DecompressError>)
        requires
            old(self).wf(),
            old(output).len() < old(self).settings.max_output_size,
        ensures
            final(self).wf(),
            final(self).same_input(old(self)),
            step(old(self).source@, old(self).settings, old(self).reader(), state, old(output)@) matches Ok((r1, st1, o1))
                ==> (res matches Ok(x) && x == st1 && final(self).reader() == r1 && final(output)@ == o1),
            step(old(self).source@, old(self).settings, old(self).reader(), state, old(output)@) matches Err(f)
                ==> (res matches Err(e) && e.failure() == f),
            state != State::CopyFromNewOffset ==> final(self).last_offset == old(self).last_offset,
    {
        match state {
            State::CopyLiterals => {
                let length = self.read_interlaced_elias_gamma(false)?;
                let ghost r1 = self.reader();
                let ghost out0 = output@;
                // All literals are read; only those that fit under the cap are kept.
                let space = self.settings.max_output_size - output.len();
                let count = if length < space { length } else { space };
                let mut i: usize = 0;
                while i < length
                    invariant
                        self.wf(),
                        self.same_input(old(self)),
                        i <= length,
                        count <= length,
                        count == model::room(out0.len(), length as nat, self.settings.max_output_size as nat),
                        state == State::CopyLiterals,
                        self.last_offset == old(self).last_offset,
                        out0 == old(output)@,
                        gamma(self.source@, old(self).reader(), false, 1) == Ok::<(usize, Reader), Failure>((length, r1)),
                        self.reader() == (Reader { pos: r1.pos + i as nat, ..r1 }),
                        output@ == out0 + self.source@.subrange(r1.pos as int, r1.pos + (if i < count { i } else { count }) as int),
                    decreases length - i,
                {
                    let literal = self.read_byte()?;
                    if i < count {
                        output.push(literal);
                    }
                    assert(output@ =~= out0 + self.source@.subrange(r1.pos as int, r1.pos + (if i + 1 < count { i + 1 } else { count as int })));
                    i = i + 1;
                }
                if self.read_bit()? {
                    Ok(State::CopyFromNewOffset)
                } else {
                    Ok(State::CopyFromLastOffset)
                }
            },
            State::CopyFromLastOffset => {
                let length = self.read_interlaced_elias_gamma(false)?;
                self.write_bytes(self.last_offset, length, output)?;
                if self.read_bit()? {
                    Ok(State::CopyFromNewOffset)
                } else {
                    Ok(State::CopyLiterals)
                }
            },
            State::CopyFromNewOffset => {
                let high = self.read_interlaced_elias_gamma(!self.settings.classic_mode)?;
                if high == 256 {
                    return Ok(State::Done);
                }
                let second_byte = self.read_byte()?;
                if high > usize::MAX / 128 {
                    return Err(DecompressError::InvalidOffset);
                }
                let high_part = high * 128;
                let low_part = (second_byte >> 1) as usize;
                if high_part <= low_part {
                    return Err(DecompressError::InvalidOffset);
                }
                let offset = high_part - low_part;
                self.last_offset = offset;

                // Make the lowest bit in second byte be the next bit to read
                proof { cursor::lemma_register_push(self.count@, self.bits@, second_byte); }
                self.bit_value = (self.bit_value >> 1) | ((second_byte as u16) << 15);
                proof {
                    self.bits = Ghost((self.bits@ >> 1u16) | ((second_byte as u16) << 15u16));
                    self.count = Ghost((self.count@ + 1) as u16);
                }

                let length = self.read_interlaced_elias_gamma(false)?;
                if length == usize::MAX {
                    return Err(DecompressError::InvalidLength);
                }
                self.write_bytes(offset, length + 1, output)?;
                if self.read_bit()? {
                    Ok(State::CopyFromNewOffset)
                } else {
                    Ok(State::CopyLiterals)
                }
            },
            State::Done => Ok(State::Done),
        }
    }

    fn read_byte(&mut self) -> (res: Result<u8, DecompressError>)
        requires
            old(self).wf(),
        ensures
            final(self).wf(),
            final(self).same_input(old(self)),
            final(self).bit_value == old(self).bit_value,
            read_byte(old(self).source@, old(self).reader()) matches Some((b, r1)) ==> (res matches Ok(x) && x == b && final(self).reader() == r1),
            read_byte(old(self).source@, old(self).reader()) is None ==> (res matches Err(e) && e.failure() == Failure::ReadFailure),
            final(self).last_offset == old(self).last_offset,
    {
        if self.pos < self.source.len() {
            let b = self.source[self.pos];
            self.pos = self.pos + 1;
            Ok(b)
        } else {
            Err(DecompressError::ReadFailure(unexpected_eof()))
        }
    }

    fn read_bit(&mut self) -> (res: Result<bool, DecompressError>)
        requires
            old(self).wf(),
        ensures
            final(self).wf(),
            final(self).same_input(old(self)),
            read_bit(old(self).source@, old(self).reader()) matches Some((b, r1)) ==> (res matches Ok(x) && x == b && final(self).reader() == r1),
            read_bit(old(self).source@, old(self).reader()) is None ==> (res matches Err(e) && e.failure() == Failure::ReadFailure),
            res is Ok ==> final(self).count@ <= 7,
            final(self).last_offset == old(self).last_offset,
    {
        proof { cursor::lemma_register_empty(self.count@, self.bits@); }
        if self.bit_value == 0x8000 {
            // All bits have been shifted out, only the end marker is left. Get the next byte:
            let b = self.read_byte()?;
            self.bit_value = ((b as u16) << 8) | 0x80;
            proof {
                cursor::lemma_register_fill(b);
                self.count = Ghost(8);
                self.bits = Ghost(((b as u16) << 8u16) as u16);
            }
        }
        proof { cursor::lemma_register_pop(self.count@, self.bits@); }
        let bit = self.bit_value & 0x8000 != 0;
        self.bit_value = self.bit_value << 1;
        proof {
            self.count = Ghost((self.count@ - 1) as u16);
            self.bits = Ghost(self.bits@ << 1u16);
        }
        Ok(bit)
    }

    fn read_interlaced_elias_gamma(&mut self, inverted: bool) -> (res: Result<usize, DecompressError>)
        requires
            old(self).wf(),
        ensures
            final(self).wf(),
            final(self).same_input(old(self)),
            gamma(old(self).source@, old(self).reader(), inverted, 1) matches Ok((v, r1)) ==> (res matches Ok(x) && x == v && final(self).reader() == r1),
            gamma(old(self).source@, old(self).reader(), inverted, 1) matches Err(f) ==> (res matches Err(e) && e.failure() == f),
            res is Ok ==> final(self).count@ <= 7,
            final(self).last_offset == old(self).last_offset,
    {
        let mut value: usize = 1;
        loop
            invariant
                self.wf(),
                self.same_input(old(self)),
                self.last_offset == old(self).last_offset,
                gamma(self.source@, old(self).reader(), inverted, 1) == gamma(self.source@, self.reader(), inverted, value),
            decreases measure(self.source@, self.reader()),
        {
            proof { model::lemma_read_bit_measure(self.source@, self.reader()); }
            let stop = self.read_bit()?;
            if stop {
                return Ok(value);
            }
            proof { model::lemma_read_bit_measure(self.source@, self.reader()); }
            let d = self.read_bit()?;
            if value > usize::MAX / 2 {
                return Err(DecompressError::InvalidLength);
            }
            value = value * 2 + (if d != inverted { 1 } else { 0 });
        }
    }

    fn write_bytes(&self, offset: usize, length: usize, output: &mut Vec<u8>) -> (res: Result<(), DecompressError>)
        requires
            old(output).len() <= self.settings.max_output_size,
        ensures
            self_copy(old(output)@, offset, length, self.settings.max_output_size) matches Ok(o) ==> (res is Ok && final(output)@ == o),
            self_copy(old(output)@, offset, length, self.settings.max_output_size) matches Err(f) ==> (res matches Err(e) && e.failure() == f),
            res is Err ==> final(output)@ == old(output)@,
    {
        if offset == 0 || offset > output.len() {
            return Err(DecompressError::InvalidOffset);
        }
        let ghost out0 = output@;
        let n = output.len();
        let s = n - offset;
        let space = self.settings.max_output_size - n;
        let length = if length < space { length } else { space };
        let mut i: usize = 0;
        while i < length
            invariant
                i <= length,
                length <= space,
                space == self.settings.max_output_size - n,
                n == out0.len(),
                s == n - offset,
                0 < offset <= n,
                output@ == out0 + repeat_tail(out0, offset as nat, i as nat),
            decreases length - i,
        {
            let b = output[s + i];
            proof {
                if i < offset {
                    lemma_small_mod(i as nat, offset as nat);
                } else {
                    lemma_mod_add_multiples_vanish(i - offset, offset as int);
                }
            }
            output.push(b);
            assert(output@ =~= out0 + repeat_tail(out0, offset as nat, (i + 1) as nat));
            i = i + 1;
        }
        Ok(())
    }
}

/// What a call of `decompress_with_settings` came to: the bytes, or the kind
/// of error.
pub open spec fn outcome(r: Result<Vec<u8>, DecompressError>) -> Result<Seq<u8>, Failure> {
    match r {
        Ok(v) => Ok(v@),
        Err(e) => Err(e.failure()),
    }
}

/// Decompress data using the default settings.
/// Reads the compressed data from `source` and returns it as a `Vec`.
pub fn decompress(source: &[u8]) -> (r: Result<Vec<u8>, DecompressError>)
    ensures
        outcome(r) == model::decode(source@, default_settings()),
{
    decompress_with_settings(source, Settings::default())
}

/// Decompress data using the given settings.
/// Reads the compressed data from `source` and returns it as a `Vec`.
pub fn decompress_with_settings(source: &[u8], settings: Settings) -> (r: Result<Vec<u8>, DecompressError>)
    ensures
        outcome(r) == model::decode(source@, settings),
{
    let mut context = Context::new(source, settings);
    let mut output: Vec<u8> = Vec::new();
    let mut state = State::CopyLiterals;
    loop
        invariant
            context.wf(),
            context.input() == source@,
            context.config() == settings,
            model::run(source@, settings, context.reader(), state, output@) == model::decode(source@, settings),
        decreases measure(source@, context.reader()),
    {
        if output.len() >= settings.max_output_size {
            return Ok(output);
        }
        proof { model::lemma_step_measure(source@, settings, context.reader(), state, output@); }
        state = match context.next_step(state, &mut output) {
            Ok(next) => next,
            Err(e) => return Err(e),
        };
        if state == State::Done {
            return Ok(output);
        }
    }
}

} // verus!
