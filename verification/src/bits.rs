//! Most-significant-bit-first reading of packed fields.

use crate::eac3::{FieldWidth, StreamFault};
use crate::error::{AppError, Reason};
use vstd::arithmetic::power2::{lemma_pow2_pos, lemma_pow2_unfold, pow2};
use vstd::prelude::*;

verus! {

/// Bit `i` of a byte string, counted from the most significant bit of the
/// first byte.
pub open spec fn bit_at(bytes: Seq<u8>, i: int) -> nat {
    ((bytes[i / 8] >> ((7 - i % 8) as u8)) & 1u8) as nat
}

/// The number that `count` consecutive bits spell, first bit highest.
pub open spec fn bits_value(bytes: Seq<u8>, start: int, count: nat) -> nat
    decreases count,
{
    if count == 0 {
        0
    } else {
        2 * bits_value(bytes, start, (count - 1) as nat) + bit_at(bytes, start + count - 1)
    }
}

/// A failure to read a bit field.
pub open spec fn stream_error(fault: StreamFault) -> AppError {
    AppError::Render(Reason::Stream(fault))
}

/// A position in a byte string, with the bit at which reading has to stop.
pub struct Bits {
    pub bytes: Seq<u8>,
    pub position: nat,
    pub limit: nat,
}

impl Bits {
    /// How many bits may still be read.
    pub open spec fn remaining(self) -> nat {
        if self.position <= self.limit {
            (self.limit - self.position) as nat
        } else {
            0
        }
    }

    /// The same string, `count` bits further on.
    pub open spec fn advanced(self, count: nat) -> Bits {
        Bits { position: self.position + count, ..self }
    }

    /// The unsigned field of `count` bits that comes next, and what follows it.
    pub open spec fn field(self, count: nat) -> Result<(nat, Bits), AppError> {
        if count > 64 || count > self.remaining() {
            Err(
                stream_error(
                    StreamFault::Truncated {
                        position: self.position as usize,
                        limit: self.limit as usize,
                        requested: count as usize,
                        remaining: self.remaining() as usize,
                    },
                ),
            )
        } else {
            Ok((bits_value(self.bytes, self.position as int, count), self.advanced(count)))
        }
    }

    /// A field whose value must fit a machine width.
    pub open spec fn narrow(self, count: nat, width: FieldWidth) -> Result<(nat, Bits), AppError> {
        match self.field(count) {
            Err(e) => Err(e),
            Ok((value, rest)) => if value > width.maximum() {
                Err(stream_error(StreamFault::FieldTooWide { width }))
            } else {
                Ok((value, rest))
            },
        }
    }

    /// One bit as a truth value.
    pub open spec fn flag(self) -> Result<(bool, Bits), AppError> {
        match self.field(1) {
            Err(e) => Err(e),
            Ok((value, rest)) => Ok((value != 0, rest)),
        }
    }

    /// Passes over `count` bits.
    pub open spec fn skipped(self, count: nat) -> Result<Bits, AppError> {
        if count > self.remaining() {
            Err(stream_error(StreamFault::SkipPastEnd))
        } else {
            Ok(self.advanced(count))
        }
    }

    /// A two's complement field of `count` bits.
    pub open spec fn signed(self, count: nat) -> Result<(int, Bits), AppError> {
        if count == 0 || count > 32 {
            Err(stream_error(StreamFault::SignedWidth))
        } else {
            match self.field(count) {
                Err(e) => Err(e),
                Ok((value, rest)) => if value < pow2((count - 1) as nat) {
                    Ok((value as int, rest))
                } else {
                    Ok((value - pow2(count), rest))
                },
            }
        }
    }

    /// Whether an extension bit may be followed once more.
    pub open spec fn may_extend(budget: Option<usize>, extension: nat) -> bool {
        match budget {
            None => true,
            Some(maximum) => extension < maximum,
        }
    }

    /// The rest of a variable-length number: `value` was gathered so far in
    /// `extension` extensions. Each chunk is followed by a bit that announces a
    /// further chunk, and every further chunk counts on from one more than the
    /// number before it. The shift drops what 32 bits do not hold; sums beyond
    /// them are refused.
    pub open spec fn variable_from(
        self,
        chunk: nat,
        budget: Option<usize>,
        value: nat,
        extension: nat,
    ) -> (Result<nat, AppError>, Bits)
        decreases self.remaining(),
    {
        match self.field(chunk) {
            Err(e) => (Err(e), self),
            Ok((part, after)) => if value + part > u32::MAX {
                (Err(stream_error(StreamFault::VariableOverflow)), after)
            } else {
                match after.field(1) {
                    Err(e) => (Err(e), after),
                    Ok((more, rest)) => if more == 0 || !Bits::may_extend(budget, extension) {
                        (Ok(value + part), rest)
                    } else if value + part == u32::MAX {
                        (Err(stream_error(StreamFault::VariableOverflow)), rest)
                    } else {
                        rest.variable_from(
                            chunk,
                            budget,
                            ((value + part + 1) * pow2(chunk)) as nat % 0x1_0000_0000,
                            extension + 1,
                        )
                    },
                }
            },
        }
    }

    /// A variable-length number in chunks of `chunk` bits.
    pub open spec fn variable(self, chunk: nat, budget: Option<usize>) -> (Result<nat, AppError>, Bits) {
        if chunk == 0 || chunk > 31 {
            (Err(stream_error(StreamFault::VariableWidth)), self)
        } else {
            self.variable_from(chunk, budget, 0, 0)
        }
    }
}

/// A bit is zero or one.
proof fn lemma_bit_bound(bytes: Seq<u8>, i: int)
    ensures
        bit_at(bytes, i) <= 1,
{
    let byte = bytes[i / 8];
    let shift = (7 - i % 8) as u8;
    assert((byte >> shift) & 1u8 <= 1u8) by (bit_vector);
}

/// A field of `count` bits is below two to the power of `count`.
pub proof fn lemma_bits_value_bound(bytes: Seq<u8>, start: int, count: nat)
    ensures
        bits_value(bytes, start, count) < pow2(count),
    decreases count,
{
    if count == 0 {
        lemma_pow2_pos(0);
    } else {
        lemma_bits_value_bound(bytes, start, (count - 1) as nat);
        lemma_bit_bound(bytes, start + count - 1);
        lemma_pow2_unfold(count);
    }
}

/// Reads compose: a field of `m + n` bits is the field of the first `m` bits
/// followed by the field of the next `n` bits.
pub proof fn law_reads_compose(bytes: Seq<u8>, start: int, m: nat, n: nat)
    ensures
        bits_value(bytes, start, m + n) == bits_value(bytes, start, m) * pow2(n) + bits_value(
            bytes,
            start + m,
            n,
        ),
    decreases n,
{
    if n == 0 {
        vstd::arithmetic::power2::lemma2_to64();
        assert(bits_value(bytes, start, m) * 1 == bits_value(bytes, start, m)) by (nonlinear_arith);
    } else {
        law_reads_compose(bytes, start, m, (n - 1) as nat);
        lemma_pow2_unfold(n);
        let head = bits_value(bytes, start, m);
        let half = pow2((n - 1) as nat);
        assert(head * (2 * half) == 2 * (head * half)) by (nonlinear_arith);
        assert(start + (m + n) - 1 == start + m + n - 1);
        assert((m + n - 1) as nat == m + (n - 1) as nat);
    }
}

/// The largest value of a field of `count` bits, for the widths of small fields.
pub open spec fn small_limit(count: nat) -> nat {
    if count == 0 {
        0
    } else if count == 1 {
        1
    } else if count == 2 {
        3
    } else if count == 3 {
        7
    } else if count == 4 {
        15
    } else if count == 5 {
        31
    } else if count == 6 {
        63
    } else if count == 7 {
        127
    } else if count == 8 {
        255
    } else if count == 10 {
        1023
    } else if count == 11 {
        2047
    } else if count == 12 {
        4095
    } else {
        131_071
    }
}

/// Reads packed fields from a byte slice, up to a bit limit.
#[derive(Clone, Debug)]
pub struct BitReader<'a> {
    bytes: &'a [u8],
    position: usize,
    limit: usize,
}

impl<'a> BitReader<'a> {
    pub closed spec fn view(&self) -> Bits {
        Bits { bytes: self.bytes@, position: self.position as nat, limit: self.limit as nat }
    }

    /// The limit lies within the bytes, and every bit can be addressed.
    pub open spec fn wf(&self) -> bool {
        &&& self@.limit <= 8 * self@.bytes.len()
        &&& 8 * self@.bytes.len() <= usize::MAX
        &&& self@.position <= usize::MAX
    }

    /// A reader over all bits of `bytes`.
    pub fn new(bytes: &'a [u8]) -> (r: Self)
        requires
            8 * bytes@.len() <= usize::MAX,
        ensures
            r.wf(),
            r@ == (Bits { bytes: bytes@, position: 0, limit: 8 * bytes@.len() }),
    {
        BitReader { bytes, position: 0, limit: bytes.len() * 8 }
    }

    /// A reader over the first `bit_len` bits of `bytes`.
    pub fn with_limit(bytes: &'a [u8], bit_len: usize) -> (r: Self)
        requires
            8 * bytes@.len() <= usize::MAX,
            bit_len <= 8 * bytes@.len(),
        ensures
            r.wf(),
            r@ == (Bits { bytes: bytes@, position: 0, limit: bit_len as nat }),
    {
        BitReader { bytes, position: 0, limit: bit_len }
    }

    /// A reader that starts at a bit position.
    pub fn at(bytes: &'a [u8], position: usize) -> (r: Self)
        requires
            8 * bytes@.len() <= usize::MAX,
        ensures
            r.wf(),
            r@ == (Bits { bytes: bytes@, position: position as nat, limit: 8 * bytes@.len() }),
    {
        BitReader { bytes, position, limit: bytes.len() * 8 }
    }

    /// A reader from the current position up to an earlier limit.
    pub fn section(&self, end: usize) -> (r: BitReader<'a>)
        requires
            self.wf(),
            end <= self@.limit,
        ensures
            r.wf(),
            r@ == (Bits { limit: end as nat, ..self@ }),
    {
        BitReader { bytes: self.bytes, position: self.position, limit: end }
    }

    pub fn position(&self) -> (r: usize)
        ensures
            r == self@.position,
    {
        self.position
    }

    pub fn limit(&self) -> (r: usize)
        ensures
            r == self@.limit,
    {
        self.limit
    }

    /// How many bits may still be read.
    pub fn remaining(&self) -> (r: usize)
        ensures
            r == self@.remaining(),
    {
        self.limit.saturating_sub(self.position)
    }

    /// Moves the limit, which must not come before the position nor lie
    /// outside the bytes.
    pub fn set_limit(&mut self, limit: usize) -> (r: Result<(), AppError>)
        requires
            old(self).wf(),
        ensures
            final(self).wf(),
            ({
                let ok = old(self)@.position <= limit <= 8 * old(self)@.bytes.len();
                &&& ok ==> r == Ok::<(), AppError>(()) && final(self)@ == (Bits {
                    limit: limit as nat,
                    ..old(self)@
                })
                &&& !ok ==> r == Err::<(), AppError>(stream_error(StreamFault::InvalidLimit))
                    && final(self)@ == old(self)@
            }),
    {
        if limit < self.position || limit > self.bytes.len() * 8 {
            return Err(AppError::Render(Reason::Stream(StreamFault::InvalidLimit)));
        }
        self.limit = limit;
        Ok(())
    }

    /// Moves the position, which must not pass the limit.
    pub fn set_position(&mut self, position: usize) -> (r: Result<(), AppError>)
        requires
            old(self).wf(),
        ensures
            final(self).wf(),
            position <= old(self)@.limit ==> r == Ok::<(), AppError>(()) && final(self)@ == (Bits {
                position: position as nat,
                ..old(self)@
            }),
            position > old(self)@.limit ==> r == Err::<(), AppError>(
                stream_error(StreamFault::PositionPastLimit),
            ) && final(self)@ == old(self)@,
    {
        if position > self.limit {
            return Err(AppError::Render(Reason::Stream(StreamFault::PositionPastLimit)));
        }
        self.position = position;
        Ok(())
    }

    /// Reads an unsigned field of up to 64 bits.
    pub fn read(&mut self, count: usize) -> (r: Result<u64, AppError>)
        requires
            old(self).wf(),
        ensures
            final(self).wf(),
            match old(self)@.field(count as nat) {
                Ok((value, rest)) => r == Ok::<u64, AppError>(value as u64) && value <= u64::MAX
                    && final(self)@ == rest,
                Err(e) => r == Err::<u64, AppError>(e) && final(self)@ == old(self)@,
            },
    {
        let remaining: usize = self.remaining();
        if count > 64 || count > remaining {
            return Err(
                AppError::Render(
                    Reason::Stream(
                        StreamFault::Truncated {
                            position: self.position,
                            limit: self.limit,
                            requested: count,
                            remaining,
                        },
                    ),
                ),
            );
        }
        let start: usize = self.position;
        let mut value: u64 = 0;
        let mut taken: usize = 0;
        while taken < count
            invariant
                taken <= count <= 64,
                self.bytes == old(self).bytes,
                self.limit == old(self).limit,
                start == old(self).position,
                self.position == start + taken,
                count > 0 ==> start + count <= self.limit,
                self.limit <= 8 * self.bytes@.len() <= usize::MAX,
                value == bits_value(self.bytes@, start as int, taken as nat),
            decreases count - taken,
        {
            let byte: u8 = self.bytes[self.position / 8];
            let shift: u8 = 7 - (self.position % 8) as u8;
            let bit: u8 = (byte >> shift) & 1;
            proof {
                assert(bit == bit_at(self.bytes@, self.position as int));
                lemma_bits_value_bound(self.bytes@, start as int, taken as nat);
                lemma_bits_value_bound(self.bytes@, start as int, (taken + 1) as nat);
                vstd::arithmetic::power2::lemma2_to64();
                if taken + 1 < 64 {
                    vstd::arithmetic::power2::lemma_pow2_strictly_increases((taken + 1) as nat, 64);
                }
            }
            value = value * 2 + bit as u64;
            self.position = self.position + 1;
            taken = taken + 1;
        }
        Ok(value)
    }

    /// Reads one bit.
    pub fn read_bit(&mut self) -> (r: Result<bool, AppError>)
        requires
            old(self).wf(),
        ensures
            final(self).wf(),
            match old(self)@.flag() {
                Ok((value, rest)) => r == Ok::<bool, AppError>(value) && final(self)@ == rest,
                Err(e) => r == Err::<bool, AppError>(e) && final(self)@ == old(self)@,
            },
    {
        let value: u64 = self.read(1)?;
        Ok(value != 0)
    }

    /// Reads a field that has to fit in eight bits; the field is consumed even
    /// where it does not.
    pub fn read_u8(&mut self, count: usize) -> (r: Result<u8, AppError>)
        requires
            old(self).wf(),
        ensures
            final(self).wf(),
            match old(self)@.narrow(count as nat, FieldWidth::Byte) {
                Ok((value, rest)) => r == Ok::<u8, AppError>(value as u8) && value <= u8::MAX
                    && final(self)@ == rest,
                Err(e) => r == Err::<u8, AppError>(e),
            },
            old(self)@.field(count as nat) is Ok ==> final(self)@ == old(self)@.advanced(count as nat),
            old(self)@.field(count as nat) is Err ==> final(self)@ == old(self)@,
    {
        let value: u64 = self.read(count)?;
        if value > 0xff {
            return Err(AppError::Render(Reason::Stream(StreamFault::FieldTooWide { width: FieldWidth::Byte })));
        }
        Ok(value as u8)
    }

    /// Reads a field that has to fit in sixteen bits.
    pub fn read_u16(&mut self, count: usize) -> (r: Result<u16, AppError>)
        requires
            old(self).wf(),
        ensures
            final(self).wf(),
            match old(self)@.narrow(count as nat, FieldWidth::Short) {
                Ok((value, rest)) => r == Ok::<u16, AppError>(value as u16) && value <= u16::MAX
                    && final(self)@ == rest,
                Err(e) => r == Err::<u16, AppError>(e),
            },
            old(self)@.field(count as nat) is Ok ==> final(self)@ == old(self)@.advanced(count as nat),
            old(self)@.field(count as nat) is Err ==> final(self)@ == old(self)@,
    {
        let value: u64 = self.read(count)?;
        if value > 0xffff {
            return Err(AppError::Render(Reason::Stream(StreamFault::FieldTooWide { width: FieldWidth::Short })));
        }
        Ok(value as u16)
    }

    /// Reads a field that has to fit in thirty-two bits.
    pub fn read_u32(&mut self, count: usize) -> (r: Result<u32, AppError>)
        requires
            old(self).wf(),
        ensures
            final(self).wf(),
            match old(self)@.narrow(count as nat, FieldWidth::Word) {
                Ok((value, rest)) => r == Ok::<u32, AppError>(value as u32) && value <= u32::MAX
                    && final(self)@ == rest,
                Err(e) => r == Err::<u32, AppError>(e),
            },
            old(self)@.field(count as nat) is Ok ==> final(self)@ == old(self)@.advanced(count as nat),
            old(self)@.field(count as nat) is Err ==> final(self)@ == old(self)@,
    {
        let value: u64 = self.read(count)?;
        if value > 0xffff_ffff {
            return Err(
                AppError::Render(Reason::Stream(StreamFault::FieldTooWide { width: FieldWidth::Word })),
            );
        }
        Ok(value as u32)
    }

    /// Reads a field that has to fit in the machine's address width.
    pub fn read_usize(&mut self, count: usize) -> (r: Result<usize, AppError>)
        requires
            old(self).wf(),
        ensures
            final(self).wf(),
            match old(self)@.narrow(count as nat, FieldWidth::Address) {
                Ok((value, rest)) => r == Ok::<usize, AppError>(value as usize) && value <= usize::MAX
                    && final(self)@ == rest,
                Err(e) => r == Err::<usize, AppError>(e),
            },
            old(self)@.field(count as nat) is Ok ==> final(self)@ == old(self)@.advanced(count as nat),
            old(self)@.field(count as nat) is Err ==> final(self)@ == old(self)@,
    {
        let value: u64 = self.read(count)?;
        if value > usize::MAX as u64 {
            return Err(
                AppError::Render(
                    Reason::Stream(StreamFault::FieldTooWide { width: FieldWidth::Address }),
                ),
            );
        }
        Ok(value as usize)
    }

    /// Reads a field of at most seventeen bits, which always fits.
    pub fn read_small(&mut self, count: usize) -> (r: Result<usize, AppError>)
        requires
            old(self).wf(),
            count <= 17,
        ensures
            final(self).wf(),
            match old(self)@.field(count as nat) {
                Ok((value, rest)) => r == Ok::<usize, AppError>(value as usize) && value < pow2(
                    count as nat,
                ) && value <= small_limit(count as nat) && final(self)@ == rest,
                Err(e) => r == Err::<usize, AppError>(e) && final(self)@ == old(self)@,
            },
    {
        proof {
            vstd::arithmetic::power2::lemma2_to64();
            lemma_bits_value_bound(self@.bytes, self@.position as int, count as nat);
            lemma_pow2_unfold(17);
        }
        let value: u64 = self.read(count)?;
        Ok(value as usize)
    }

    /// Reads a two's complement field of one to thirty-two bits.
    pub fn read_signed(&mut self, count: usize) -> (r: Result<i32, AppError>)
        requires
            old(self).wf(),
        ensures
            final(self).wf(),
            match old(self)@.signed(count as nat) {
                Ok((value, rest)) => r == Ok::<i32, AppError>(value as i32) && i32::MIN <= value
                    <= i32::MAX && final(self)@ == rest,
                Err(e) => r == Err::<i32, AppError>(e) && final(self)@ == old(self)@,
            },
    {
        if count == 0 || count > 32 {
            return Err(AppError::Render(Reason::Stream(StreamFault::SignedWidth)));
        }
        let unsigned: u64 = self.read(count)?;
        proof {
            lemma_bits_value_bound(old(self).bytes@, old(self).position as int, count as nat);
            lemma_pow2_unfold(count as nat);
            vstd::arithmetic::power2::lemma2_to64();
            if count < 32 {
                vstd::arithmetic::power2::lemma_pow2_strictly_increases(count as nat, 32);
            }
            lemma_pow2_pos((count - 1) as nat);
            vstd::bits::lemma_u64_pow2_no_overflow((count - 1) as nat);
            vstd::bits::lemma_u64_shl_is_mul(1, (count - 1) as u64);
        }
        let half: u64 = 1u64 << (count as u64 - 1);
        if unsigned < half {
            Ok(unsigned as i32)
        } else {
            let value: i64 = unsigned as i64 - 2 * half as i64;
            Ok(value as i32)
        }
    }

    /// Passes over `count` bits.
    pub fn skip(&mut self, count: usize) -> (r: Result<(), AppError>)
        requires
            old(self).wf(),
        ensures
            final(self).wf(),
            match old(self)@.skipped(count as nat) {
                Ok(rest) => r == Ok::<(), AppError>(()) && final(self)@ == rest,
                Err(e) => r == Err::<(), AppError>(e) && final(self)@ == old(self)@,
            },
    {
        if count > self.remaining() {
            return Err(AppError::Render(Reason::Stream(StreamFault::SkipPastEnd)));
        }
        self.position = self.position + count;
        Ok(())
    }

    /// Reads a variable-length number: chunks of `chunk_bits` bits, each followed
    /// by a bit that announces another chunk. At most `limit` extensions are
    /// followed.
    pub fn variable(&mut self, chunk_bits: usize, limit: Option<usize>) -> (r: Result<u32, AppError>)
        requires
            old(self).wf(),
        ensures
            final(self).wf(),
            final(self)@ == old(self)@.variable(chunk_bits as nat, limit).1,
            match old(self)@.variable(chunk_bits as nat, limit).0 {
                Ok(value) => r == Ok::<u32, AppError>(value as u32) && value <= u32::MAX,
                Err(e) => r == Err::<u32, AppError>(e),
            },
    {
        if chunk_bits == 0 || chunk_bits > 31 {
            return Err(AppError::Render(Reason::Stream(StreamFault::VariableWidth)));
        }
        let mut value: u32 = 0;
        let mut extension: usize = 0;
        loop
            invariant
                0 < chunk_bits <= 31,
                self.wf(),
                extension <= self@.position,
                self@.variable_from(chunk_bits as nat, limit, value as nat, extension as nat)
                    == old(self)@.variable(chunk_bits as nat, limit),
            decreases self@.remaining(),
        {
            let ghost before = self@;
            let part: u64 = self.read(chunk_bits)?;
            proof {
                lemma_bits_value_bound(before.bytes, before.position as int, chunk_bits as nat);
                vstd::arithmetic::power2::lemma2_to64();
                vstd::arithmetic::power2::lemma_pow2_strictly_increases(chunk_bits as nat, 32);
            }
            let sum: u64 = value as u64 + part;
            if sum > 0xffff_ffff {
                return Err(AppError::Render(Reason::Stream(StreamFault::VariableOverflow)));
            }
            let read_more: bool = self.read_bit()?;
            let stop: bool = match limit {
                None => false,
                Some(maximum) => extension >= maximum,
            };
            if !read_more || stop {
                return Ok(sum as u32);
            }
            if sum == 0xffff_ffff {
                return Err(AppError::Render(Reason::Stream(StreamFault::VariableOverflow)));
            }
            proof {
                vstd::bits::lemma_u64_pow2_no_overflow(chunk_bits as nat);
                assert((sum + 1) * pow2(chunk_bits as nat) < 0x1_0000_0000 * 0x1_0000_0000)
                    by (nonlinear_arith)
                    requires
                        sum + 1 < 0x1_0000_0000,
                        0 < pow2(chunk_bits as nat) < 0x1_0000_0000,
                ;
                vstd::bits::lemma_u64_shl_is_mul((sum + 1) as u64, chunk_bits as u64);
            }
            let shifted: u64 = (sum + 1) << chunk_bits as u64;
            value = (shifted % 0x1_0000_0000) as u32;
            extension = extension + 1;
        }
    }

    /// Copies whole bytes from the current position, which need not be aligned.
    pub fn copy_bytes(&mut self, count: usize) -> (r: Vec<u8>)
        requires
            old(self).wf(),
            8 * count <= old(self)@.remaining(),
        ensures
            final(self).wf(),
            final(self)@ == old(self)@.advanced((8 * count) as nat),
            r@ == bytes_at(old(self)@.bytes, old(self)@.position as int, count as nat),
    {
        let mut data: Vec<u8> = Vec::new();
        let mut copied: usize = 0;
        while copied < count
            invariant
                copied <= count,
                self.wf(),
                8 * count <= old(self)@.remaining(),
                self@ == old(self)@.advanced((8 * copied) as nat),
                data@ =~= bytes_at(old(self)@.bytes, old(self)@.position as int, copied as nat),
            decreases count - copied,
        {
            proof {
                lemma_bits_value_bound(self@.bytes, self@.position as int, 8);
                vstd::arithmetic::power2::lemma2_to64();
            }
            match self.read(8) {
                Ok(byte) => data.push(byte as u8),
                Err(_) => {},
            }
            copied = copied + 1;
        }
        data
    }
}

/// The `count` bytes that start at a bit position.
pub open spec fn bytes_at(bytes: Seq<u8>, start: int, count: nat) -> Seq<u8> {
    Seq::new(count, |k: int| bits_value(bytes, start + 8 * k, 8) as u8)
}

/// Eight bits at the start of a byte spell that byte: the highest bit comes first.
pub proof fn law_aligned_bits_spell_their_byte(bytes: Seq<u8>, place: int)
    requires
        0 <= place < bytes.len(),
    ensures
        bits_value(bytes, 8 * place, 8) == bytes[place],
{
    let byte = bytes[place];
    reveal_with_fuel(bits_value, 9);
    assert(forall|k: int| 0 <= k < 8 ==> #[trigger] ((8 * place + k) / 8) == place && (8 * place
        + k) % 8 == k);
    let b0 = (byte >> 7u8) & 1u8;
    let b1 = (byte >> 6u8) & 1u8;
    let b2 = (byte >> 5u8) & 1u8;
    let b3 = (byte >> 4u8) & 1u8;
    let b4 = (byte >> 3u8) & 1u8;
    let b5 = (byte >> 2u8) & 1u8;
    let b6 = (byte >> 1u8) & 1u8;
    let b7 = (byte >> 0u8) & 1u8;
    assert(bit_at(bytes, 8 * place + 0) == b0);
    assert(bit_at(bytes, 8 * place + 1) == b1);
    assert(bit_at(bytes, 8 * place + 2) == b2);
    assert(bit_at(bytes, 8 * place + 3) == b3);
    assert(bit_at(bytes, 8 * place + 4) == b4);
    assert(bit_at(bytes, 8 * place + 5) == b5);
    assert(bit_at(bytes, 8 * place + 6) == b6);
    assert(bit_at(bytes, 8 * place + 7) == b7);
    assert(byte == 128 * ((byte >> 7u8) & 1u8) + 64 * ((byte >> 6u8) & 1u8) + 32 * ((byte >> 5u8)
        & 1u8) + 16 * ((byte >> 4u8) & 1u8) + 8 * ((byte >> 3u8) & 1u8) + 4 * ((byte >> 2u8) & 1u8)
        + 2 * ((byte >> 1u8) & 1u8) + ((byte >> 0u8) & 1u8)) by (bit_vector);
}

/// A signed field lies in the middle: it differs from the unsigned one by nothing or
/// by the whole range, and at most half of the range is on either side of zero.
pub proof fn law_signed_fields_lie_around_zero(b: Bits, count: nat)
    requires
        1 <= count <= 32,
        count <= b.remaining(),
    ensures
        b.signed(count) is Ok,
        ({
            let value = b.signed(count)->Ok_0.0;
            let half = pow2((count - 1) as nat);
            &&& -half <= value < half
            &&& value >= 0 ==> value == bits_value(b.bytes, b.position as int, count)
            &&& value < 0 ==> value + 2 * half == bits_value(b.bytes, b.position as int, count)
            &&& b.signed(count)->Ok_0.1 == b.advanced(count)
        }),
{
    lemma_bits_value_bound(b.bytes, b.position as int, count);
    lemma_pow2_unfold(count);
}

/// A variable-length number of one chunk is that chunk, and one of two chunks counts
/// on behind all numbers of one chunk: no number has two spellings.
pub proof fn law_longer_numbers_count_on(b: Bits, chunk: nat)
    requires
        1 <= chunk <= 15,
        2 * (chunk + 1) <= b.remaining(),
    ensures
        ({
            let first = bits_value(b.bytes, b.position as int, chunk);
            let more = bits_value(b.bytes, (b.position + chunk) as int, 1);
            let second = bits_value(b.bytes, (b.position + chunk + 1) as int, chunk);
            let again = bits_value(b.bytes, (b.position + 2 * chunk + 1) as int, 1);
            &&& more == 0 ==> b.variable(chunk, None) == (
                Ok::<nat, AppError>(first),
                b.advanced(chunk + 1),
            )
            &&& more == 1 && again == 0 ==> b.variable(chunk, None) == (
                Ok::<nat, AppError>((first * pow2(chunk) + pow2(chunk) + second) as nat),
                b.advanced(2 * chunk + 2),
            )
        }),
{
    let first = bits_value(b.bytes, b.position as int, chunk);
    let second = bits_value(b.bytes, (b.position + chunk + 1) as int, chunk);
    lemma_bits_value_bound(b.bytes, b.position as int, chunk);
    lemma_bits_value_bound(b.bytes, (b.position + chunk + 1) as int, chunk);
    lemma_bits_value_bound(b.bytes, (b.position + chunk) as int, 1);
    lemma_bits_value_bound(b.bytes, (b.position + 2 * chunk + 1) as int, 1);
    vstd::arithmetic::power2::lemma2_to64();
    if chunk < 15 {
        vstd::arithmetic::power2::lemma_pow2_strictly_increases(chunk, 15);
    }
    let range = pow2(chunk);
    assert(range <= 32768);
    assert((first + 1) * range == first * range + range) by (nonlinear_arith);
    assert((first + 1) * range <= 32768 * 32768) by (nonlinear_arith)
        requires
            first + 1 <= range,
            range <= 32768,
    ;
    reveal_with_fuel(Bits::variable_from, 3);
    let b1 = b.advanced(chunk);
    let b2 = b1.advanced(1);
    assert(b2.position == b.position + chunk + 1);
    let b3 = b2.advanced(chunk);
    assert(b3.position == b.position + 2 * chunk + 1);
    assert(b3.advanced(1) == b.advanced(2 * chunk + 2));
    assert(b2 == b.advanced(chunk + 1));
}

/// A field is accepted exactly where it can be read and its value fits the width that it is
/// wanted in: eight, sixteen or thirty-two bits, or an address.
pub proof fn law_fields_fit_their_width(b: Bits, count: nat, width: FieldWidth)
    ensures
        b.narrow(count, width) is Ok <==> (b.field(count) matches Ok((value, rest)) && value
            <= width.maximum()),
        b.narrow(count, width) is Ok ==> b.narrow(count, width) == b.field(count),
        width is Byte ==> width.maximum() == 256 - 1,
        width is Short ==> width.maximum() == 256 * 256 - 1,
        width is Word ==> width.maximum() == 65536 * 65536 - 1,
        width is Address ==> width.maximum() == usize::MAX,
{
}

/// The largest number of some bits is one less than the power of two with that exponent.
pub proof fn law_limits_are_powers_of_two(count: nat)
    requires
        count <= 8 || count == 10 || count == 11 || count == 12 || count == 17,
    ensures
        small_limit(count) + 1 == vstd::arithmetic::power2::pow2(count),
{
    vstd::arithmetic::power2::lemma2_to64();
}

} // verus!
