//! Reading encoded values out of byte buffers.
//!
//! Fixed-width integers are stored big-endian; variable-sized values
//! (strings and decimals) are stored as UTF-8 text.
use vstd::prelude::*;
use byteorder::ByteOrder;
use vstd::utf8::*;
use vstd::string::StringSliceAdditionalSpecFns;
use core::str::FromStr;

verus! {

/// `256^n`, the number of distinct values of `n` bytes.
pub open spec fn byte_radix(n: nat) -> nat
    decreases n,
{
    if n == 0 {
        1
    } else {
        256 * byte_radix((n - 1) as nat)
    }
}

/// The unsigned integer whose big-endian encoding is `bytes`.
pub open spec fn be_unsigned(bytes: Seq<u8>) -> nat
    decreases bytes.len(),
{
    if bytes.len() == 0 {
        0
    } else {
        be_unsigned(bytes.drop_last()) * 256 + bytes.last() as nat
    }
}

/// The two's-complement signed integer whose big-endian encoding is `bytes`.
pub open spec fn be_signed(bytes: Seq<u8>) -> int {
    let u = be_unsigned(bytes);
    let m = byte_radix(bytes.len());
    if 2 * u >= m {
        u - m
    } else {
        u as int
    }
}

/// The two's-complement value of the first two bytes of `buf`, big-endian
/// (`byteorder::BigEndian::read_i16`, which panics on fewer bytes).
#[verifier::external_body]
fn be_read_i16(buf: &[u8]) -> (r: i16)
    requires
        buf@.len() >= 2,
    ensures
        r as int == be_signed(buf@.take(2)),
{
    byteorder::BigEndian::read_i16(buf)
}


/// The two's-complement value of the first four bytes of `buf`, big-endian
/// (`byteorder::BigEndian::read_i32`, which panics on fewer bytes).
#[verifier::external_body]
fn be_read_i32(buf: &[u8]) -> (r: i32)
    requires
        buf@.len() >= 4,
    ensures
        r as int == be_signed(buf@.take(4)),
{
    byteorder::BigEndian::read_i32(buf)
}

/// The two's-complement value of the first eight bytes of `buf`, big-endian
/// (`byteorder::BigEndian::read_i64`, which panics on fewer bytes).
#[verifier::external_body]
fn be_read_i64(buf: &[u8]) -> (r: i64)
    requires
        buf@.len() >= 8,
    ensures
        r as int == be_signed(buf@.take(8)),
{
    byteorder::BigEndian::read_i64(buf)
}

/// Why a value could not be read.
#[derive(Debug, Clone, Copy, PartialEq, Eq, Structural)]
pub enum ValueReadError {
    /// The buffer ended before the value was complete.
    UnexpectedEof,
    /// The bytes are not UTF-8; the first `valid_up_to` bytes are.
    InvalidUtf8 { valid_up_to: usize },
    /// The text does not denote a decimal number.
    InvalidDecimal,
}

/// A read position over a borrowed byte buffer.
///
/// The position may lie beyond the end of the buffer, in which case no bytes
/// remain to be read.
pub struct ValueCursor<'a> {
    buf: &'a [u8],
    pos: usize,
}

impl<'a> ValueCursor<'a> {
    /// The whole buffer.
    pub closed spec fn data(&self) -> Seq<u8> {
        self.buf@
    }

    /// The read position.
    pub closed spec fn pos(&self) -> nat {
        self.pos as nat
    }

    /// The bytes from the read position to the end (empty past the end).
    pub open spec fn rest(&self) -> Seq<u8> {
        if self.pos() <= self.data().len() {
            self.data().subrange(self.pos() as int, self.data().len() as int)
        } else {
            Seq::empty()
        }
    }

    /// A cursor at the start of `buf`.
    pub fn new(buf: &'a [u8]) -> (c: Self)
        ensures
            c.data() == buf@,
            c.pos() == 0,
    {
        ValueCursor { buf, pos: 0 }
    }

    /// The read position.
    pub fn position(&self) -> (p: usize)
        ensures
            p as nat == self.pos(),
    {
        self.pos
    }

    /// Moves the read position to `pos`.
    pub fn set_position(&mut self, pos: usize)
        ensures
            final(self).data() == old(self).data(),
            final(self).pos() == pos as nat,
    {
        self.pos = pos;
    }

    /// The whole buffer.
    pub fn get_ref(&self) -> (b: &'a [u8])
        ensures
            b@ == self.data(),
    {
        self.buf
    }

    /// Takes the next `n` bytes and moves past them.  When fewer than `n`
    /// bytes remain, fails with `UnexpectedEof` and leaves the cursor as it was.
    pub fn read_exact(&mut self, n: usize) -> (r: Result<&'a [u8], ValueReadError>)
        ensures
            final(self).data() == old(self).data(),
            match r {
                Ok(bytes) => {
                    &&& n <= old(self).rest().len()
                    &&& bytes@ == old(self).rest().take(n as int)
                    &&& final(self).pos() == old(self).pos() + n
                },
                Err(e) => {
                    &&& old(self).rest().len() < n
                    &&& e == ValueReadError::UnexpectedEof
                    &&& final(self).pos() == old(self).pos()
                },
            },
    {
        let len = self.buf.len();
        let remaining: usize = if self.pos > len { 0 } else { len - self.pos };
        if remaining < n {
            return Err(ValueReadError::UnexpectedEof);
        }
        let bytes = if n == 0 {
            vstd::slice::slice_subrange(self.buf, 0, 0)
        } else {
            vstd::slice::slice_subrange(self.buf, self.pos, self.pos + n)
        };
        self.pos = self.pos + n;
        assert(bytes@ =~= old(self).rest().take(n as int));
        Ok(bytes)
    }
}

/// Reads one fixed-width value of type `T` from a cursor.
pub trait PrimitiveValueReader<T> {
    fn read(cur: &mut ValueCursor<'_>) -> Result<T, ValueReadError>;
}

/// Reads big-endian `i16` values.
pub struct I16ValueReader {}

/// Reads big-endian `i32` values.
pub struct I32ValueReader {}

/// Reads big-endian `i64` values.
pub struct I64ValueReader {}

/// Reads big-endian `f32` values; floating point is decoded outside the
/// verified library, from the four bytes that `ValueCursor::read_exact` gives.
pub struct F32ValueReader {}

/// Reads big-endian `f64` values; floating point is decoded outside the
/// verified library, from the eight bytes that `ValueCursor::read_exact` gives.
pub struct F64ValueReader {}

/// What reading a `width`-byte big-endian integer from `cur` gives: the
/// two's-complement value of the next `width` bytes, or `UnexpectedEof` when
/// fewer remain.
pub open spec fn be_read_result(cur: ValueCursor, width: nat) -> Result<int, ValueReadError> {
    if cur.rest().len() >= width {
        Ok(be_signed(cur.rest().take(width as int)))
    } else {
        Err(ValueReadError::UnexpectedEof)
    }
}

/// The cursor after such a read: moved past the value, or unchanged on failure.
pub open spec fn be_read_moves(before: ValueCursor, after: ValueCursor, width: nat) -> bool {
    &&& after.data() == before.data()
    &&& after.pos() == if before.rest().len() >= width {
        before.pos() + width
    } else {
        before.pos()
    }
}

impl PrimitiveValueReader<i16> for I16ValueReader {
    fn read(cur: &mut ValueCursor<'_>) -> (r: Result<i16, ValueReadError>)
        ensures
            be_read_moves(*old(cur), *final(cur), 2),
            match (r, be_read_result(*old(cur), 2)) {
                (Ok(v), Ok(w)) => v as int == w,
                (Err(e), Err(f)) => e == f,
                _ => false,
            },
    {
        match cur.read_exact(2) {
            Ok(bytes) => {
                assert(bytes@.take(2) =~= old(cur).rest().take(2));
                Ok(be_read_i16(bytes))
            },
            Err(e) => Err(e),
        }
    }
}

impl PrimitiveValueReader<i32> for I32ValueReader {
    fn read(cur: &mut ValueCursor<'_>) -> (r: Result<i32, ValueReadError>)
        ensures
            be_read_moves(*old(cur), *final(cur), 4),
            match (r, be_read_result(*old(cur), 4)) {
                (Ok(v), Ok(w)) => v as int == w,
                (Err(e), Err(f)) => e == f,
                _ => false,
            },
    {
        match cur.read_exact(4) {
            Ok(bytes) => {
                assert(bytes@.take(4) =~= old(cur).rest().take(4));
                Ok(be_read_i32(bytes))
            },
            Err(e) => Err(e),
        }
    }
}

impl PrimitiveValueReader<i64> for I64ValueReader {
    fn read(cur: &mut ValueCursor<'_>) -> (r: Result<i64, ValueReadError>)
        ensures
            be_read_moves(*old(cur), *final(cur), 8),
            match (r, be_read_result(*old(cur), 8)) {
                (Ok(v), Ok(w)) => v as int == w,
                (Err(e), Err(f)) => e == f,
                _ => false,
            },
    {
        match cur.read_exact(8) {
            Ok(bytes) => {
                assert(bytes@.take(8) =~= old(cur).rest().take(8));
                Ok(be_read_i64(bytes))
            },
            Err(e) => Err(e),
        }
    }
}


/// `n` is the length of the longest prefix of `bytes` that is valid UTF-8.
pub open spec fn longest_utf8_prefix(bytes: Seq<u8>, n: nat) -> bool {
    &&& n <= bytes.len()
    &&& valid_utf8(bytes.take(n as int))
    &&& forall|j: int| n < j <= bytes.len() ==> !valid_utf8(#[trigger] bytes.take(j))
}

/// `buf` as a string slice whose UTF-8 bytes are exactly `buf`; where `buf`
/// is not UTF-8, the length of its longest valid prefix
/// (`core::str::from_utf8` and `Utf8Error::valid_up_to`).
#[verifier::external_body]
fn str_from_utf8(buf: &[u8]) -> (r: Result<&str, usize>)
    ensures
        match r {
            Ok(s) => s.spec_bytes() == buf@,
            Err(n) => !valid_utf8(buf@) && longest_utf8_prefix(buf@, n as nat),
        },
{
    match core::str::from_utf8(buf) {
        Ok(s) => Ok(s),
        Err(e) => Err(e.valid_up_to()),
    }
}

/// What `rust_decimal::Decimal::from_str` gives for the text `s`, as the
/// decimal's signed mantissa and scale, or `None` where it fails.
pub uninterp spec fn decimal_from_str(s: Seq<char>) -> Option<(i128, u32)>;

/// The signed mantissa and the scale of the decimal that `s` denotes, or
/// `None` where `s` is no decimal (`rust_decimal::Decimal::from_str`, then
/// `Decimal::mantissa` and `Decimal::scale`).  The result is named by
/// `decimal_from_str`; the parser's grammar (digits, sign, point, exponent,
/// rounding of long fractions) is not written out here.
#[verifier::external_body]
fn decimal_parts_from_str(s: &str) -> (r: Option<(i128, u32)>)
    ensures
        r == decimal_from_str(s@),
{
    match rust_decimal::Decimal::from_str(s) {
        Ok(d) => Some((d.mantissa(), d.scale())),
        Err(_) => None,
    }
}

/// Reads one variable-sized value from the whole of a buffer.
pub trait VarSizedValueReader<'a, T> {
    fn read(buf: &'a [u8]) -> Result<T, ValueReadError>;
}

/// Reads UTF-8 strings.
pub struct Utf8ValueReader {}

/// Reads decimals written as UTF-8 text.
pub struct DecimalValueReader {}

/// A decimal number `mantissa * 10^(-scale)`.
#[derive(Debug, Clone, Copy, PartialEq, Eq, Structural)]
pub struct DecimalValue {
    pub mantissa: i128,
    pub scale: u32,
}

/// The outcome of reading UTF-8 text from `bytes`: the decoded characters, or
/// `InvalidUtf8` with the length of the longest valid prefix.
pub open spec fn utf8_read_ok(bytes: Seq<u8>, r: Result<Seq<char>, ValueReadError>) -> bool {
    match r {
        Ok(chars) => valid_utf8(bytes) && chars == decode_utf8(bytes),
        Err(ValueReadError::InvalidUtf8 { valid_up_to }) => !valid_utf8(bytes) && longest_utf8_prefix(
            bytes,
            valid_up_to as nat,
        ),
        Err(_) => false,
    }
}

impl<'a> VarSizedValueReader<'a, &'a str> for Utf8ValueReader {
    fn read(buf: &'a [u8]) -> (r: Result<&'a str, ValueReadError>)
        ensures
            match r {
                Ok(s) => s.spec_bytes() == buf@ && utf8_read_ok(buf@, Ok(s@)),
                Err(e) => utf8_read_ok(buf@, Err(e)),
            },
    {
        match str_from_utf8(buf) {
            Ok(s) => {
                proof {
                    encode_utf8_valid_utf8(s@);
                    encode_utf8_decode_utf8(s@);
                }
                Ok(s)
            },
            Err(n) => Err(ValueReadError::InvalidUtf8 { valid_up_to: n }),
        }
    }
}

/// Turns what the decimal parser gave into a read result.
pub fn decimal_from_parts(parsed: Option<(i128, u32)>) -> (r: Result<DecimalValue, ValueReadError>)
    ensures
        match parsed {
            Some((m, sc)) => r == Ok::<DecimalValue, ValueReadError>(
                DecimalValue { mantissa: m, scale: sc },
            ),
            None => r == Err::<DecimalValue, ValueReadError>(ValueReadError::InvalidDecimal),
        },
{
    match parsed {
        Some((mantissa, scale)) => Ok(DecimalValue { mantissa, scale }),
        None => Err(ValueReadError::InvalidDecimal),
    }
}

impl<'a> VarSizedValueReader<'a, DecimalValue> for DecimalValueReader {
    fn read(buf: &'a [u8]) -> (r: Result<DecimalValue, ValueReadError>)
        ensures
            match r {
                Ok(d) => valid_utf8(buf@) && decimal_from_str(decode_utf8(buf@)) == Some(
                    (d.mantissa, d.scale),
                ),
                Err(ValueReadError::InvalidDecimal) => valid_utf8(buf@) && decimal_from_str(
                    decode_utf8(buf@),
                ) is None,
                Err(e) => utf8_read_ok(buf@, Err(e)),
            },
    {
        let s = match Utf8ValueReader::read(buf) {
            Ok(s) => s,
            Err(e) => {
                return Err(e);
            },
        };
        decimal_from_parts(decimal_parts_from_str(s))
    }
}

} // verus!
