//! Reading a request body front to back.
//!
//! Each `read_*` function says what one step of reading does: from the bytes
//! that are left it gives a value and the bytes left after it, or the reason
//! for refusing the request. [`Reader`] carries the steps out.

use crate::bytes::{of16, of32, of64, signed32, signed64, to_signed32, to_signed64, u16_at, u32_at, u64_at};
use crate::text::{contains_control, has_control, utf8_fault, utf8_text, Utf8Fault};
use vstd::prelude::*;
use vstd::slice::slice_subrange;
use vstd::string::StringExecFns;
use vstd::utf8::{decode_utf8, valid_utf8};

verus! {

/// A text field of a request.
#[derive(Clone, Copy, Debug, PartialEq, Eq, Structural)]
pub enum TextField {
    ModelContract,
    QuantizationContract,
    SchedulerTenant,
    TensorReference,
    TensorChecksum,
}

/// Why a request is refused.
#[derive(Clone, Copy, Debug, PartialEq, Eq, Structural)]
pub enum ProtocolError {
    TruncatedHeader,
    InvalidMagic,
    UnsupportedProtocol,
    BodyLengthMismatch,
    TruncatedRequest,
    TrailingBytes,
    UnsupportedProfile,
    ReservedBits,
    UnsupportedScoring,
    TooManyCandidates,
    PriorityOutOfRange,
    TimeoutOutOfRange,
    TopKOutOfRange,
    TextLength(TextField),
    NotUtf8(Utf8Fault),
    ControlCharacters(TextField),
    InvalidQuantizationContract,
    ProfileContractMismatch,
    UnsupportedDtype,
    InvalidTensorShape,
    TensorTooLarge,
    NonFiniteQuery,
    CatalogMode,
    SelectionReferenceMode,
    VarintOverflow,
    NonCanonicalVarint,
    PublicIdOrder,
    PublicIdOverflow,
    ScopedCount,
    ScopedOrder,
    ScopedOverflow,
    ScopedOutside,
    RegisteredIdOrder,
    DuplicateCandidate,
    TokenOverflow,
    ByteOverflow,
    UnsupportedTensorReference,
    InvalidTensorDescriptor,
    TensorLimits,
}

impl TextField {
    /// The name of the field in error messages.
    pub open spec fn name_text(self) -> Seq<char> {
        match self {
            TextField::ModelContract => "model contract"@,
            TextField::QuantizationContract => "quantization contract"@,
            TextField::SchedulerTenant => "scheduler tenant"@,
            TextField::TensorReference => "tensor reference"@,
            TextField::TensorChecksum => "tensor checksum"@,
        }
    }

    /// The name of the field in error messages.
    pub fn name(self) -> (name: &'static str)
        ensures
            name@ == self.name_text(),
    {
        match self {
            TextField::ModelContract => "model contract",
            TextField::QuantizationContract => "quantization contract",
            TextField::SchedulerTenant => "scheduler tenant",
            TextField::TensorReference => "tensor reference",
            TextField::TensorChecksum => "tensor checksum",
        }
    }
}

impl ProtocolError {
    /// The message that goes back to the client.
    pub open spec fn message_text(self) -> Seq<char> {
        match self {
            ProtocolError::TruncatedHeader => "truncated request header"@,
            ProtocolError::InvalidMagic => "invalid protocol magic"@,
            ProtocolError::UnsupportedProtocol =>
                "Rust daemon requires TileMaxSim external protocol v2 through v14"@,
            ProtocolError::BodyLengthMismatch => "request body length mismatch"@,
            ProtocolError::TruncatedRequest => "truncated request"@,
            ProtocolError::TrailingBytes => "trailing request bytes"@,
            ProtocolError::UnsupportedProfile => "unsupported TileMaxSim scoring profile"@,
            ProtocolError::ReservedBits => "unsupported reserved bits"@,
            ProtocolError::UnsupportedScoring => "unsupported scoring function or reserved bits"@,
            ProtocolError::TooManyCandidates => "too many candidates"@,
            ProtocolError::PriorityOutOfRange => "scheduler priority must be between -100 and 100"@,
            ProtocolError::TimeoutOutOfRange =>
                "scheduler timeout must be between 1 and 600000 milliseconds"@,
            ProtocolError::TopKOutOfRange => "logical top-k must be between 1 and candidate count"@,
            ProtocolError::TextLength(field) => "invalid "@ + field.name_text() + " length"@,
            ProtocolError::NotUtf8(fault) => fault.message_text(),
            ProtocolError::ControlCharacters(field) => field.name_text()
                + " contains control characters"@,
            ProtocolError::InvalidQuantizationContract => "invalid quantization contract ID"@,
            ProtocolError::ProfileContractMismatch =>
                "PQ-family profile and quantization contract must be supplied together"@,
            ProtocolError::UnsupportedDtype => "unsupported tensor dtype"@,
            ProtocolError::InvalidTensorShape => "invalid tensor shape"@,
            ProtocolError::TensorTooLarge => "tensor shape is too large"@,
            ProtocolError::NonFiniteQuery => "query contains a non-finite value"@,
            ProtocolError::CatalogMode => "invalid descriptor catalog frame mode"@,
            ProtocolError::SelectionReferenceMode =>
                "invalid descriptor catalog selection reference mode"@,
            ProtocolError::VarintOverflow => "catalog public ID varint overflow"@,
            ProtocolError::NonCanonicalVarint => "non-canonical catalog public ID varint"@,
            ProtocolError::PublicIdOrder => "catalog public IDs must be strictly increasing"@,
            ProtocolError::PublicIdOverflow => "catalog public ID overflow"@,
            ProtocolError::ScopedCount =>
                "scoped candidate count must be between 1 and candidate count"@,
            ProtocolError::ScopedOrder => "scoped candidate ordinals must be strictly increasing"@,
            ProtocolError::ScopedOverflow => "scoped candidate ordinal overflow"@,
            ProtocolError::ScopedOutside =>
                "scoped candidate ordinal is outside the candidate set"@,
            ProtocolError::RegisteredIdOrder =>
                "catalog public IDs must be positive and strictly increasing"@,
            ProtocolError::DuplicateCandidate => "duplicate candidate ID"@,
            ProtocolError::TokenOverflow => "token overflow"@,
            ProtocolError::ByteOverflow => "byte overflow"@,
            ProtocolError::UnsupportedTensorReference => "unsupported tensor reference"@,
            ProtocolError::InvalidTensorDescriptor =>
                "invalid content-addressed tensor descriptor"@,
            ProtocolError::TensorLimits => "request exceeds tensor limits"@,
        }
    }

    /// The message that goes back to the client.
    pub fn message(self) -> (text: String)
        ensures
            text@ == self.message_text(),
    {
        let plain: &str = match self {
            ProtocolError::TruncatedHeader => "truncated request header",
            ProtocolError::InvalidMagic => "invalid protocol magic",
            ProtocolError::UnsupportedProtocol =>
                "Rust daemon requires TileMaxSim external protocol v2 through v14",
            ProtocolError::BodyLengthMismatch => "request body length mismatch",
            ProtocolError::TruncatedRequest => "truncated request",
            ProtocolError::TrailingBytes => "trailing request bytes",
            ProtocolError::UnsupportedProfile => "unsupported TileMaxSim scoring profile",
            ProtocolError::ReservedBits => "unsupported reserved bits",
            ProtocolError::UnsupportedScoring => "unsupported scoring function or reserved bits",
            ProtocolError::TooManyCandidates => "too many candidates",
            ProtocolError::PriorityOutOfRange => "scheduler priority must be between -100 and 100",
            ProtocolError::TimeoutOutOfRange =>
                "scheduler timeout must be between 1 and 600000 milliseconds",
            ProtocolError::TopKOutOfRange => "logical top-k must be between 1 and candidate count",
            ProtocolError::TextLength(field) => {
                let mut text: String = "invalid ".to_owned();
                text.append(field.name());
                text.append(" length");
                return text;
            },
            ProtocolError::NotUtf8(fault) => {
                return fault.message();
            },
            ProtocolError::ControlCharacters(field) => {
                let mut text: String = field.name().to_owned();
                text.append(" contains control characters");
                return text;
            },
            ProtocolError::InvalidQuantizationContract => "invalid quantization contract ID",
            ProtocolError::ProfileContractMismatch =>
                "PQ-family profile and quantization contract must be supplied together",
            ProtocolError::UnsupportedDtype => "unsupported tensor dtype",
            ProtocolError::InvalidTensorShape => "invalid tensor shape",
            ProtocolError::TensorTooLarge => "tensor shape is too large",
            ProtocolError::NonFiniteQuery => "query contains a non-finite value",
            ProtocolError::CatalogMode => "invalid descriptor catalog frame mode",
            ProtocolError::SelectionReferenceMode =>
                "invalid descriptor catalog selection reference mode",
            ProtocolError::VarintOverflow => "catalog public ID varint overflow",
            ProtocolError::NonCanonicalVarint => "non-canonical catalog public ID varint",
            ProtocolError::PublicIdOrder => "catalog public IDs must be strictly increasing",
            ProtocolError::PublicIdOverflow => "catalog public ID overflow",
            ProtocolError::ScopedCount =>
                "scoped candidate count must be between 1 and candidate count",
            ProtocolError::ScopedOrder => "scoped candidate ordinals must be strictly increasing",
            ProtocolError::ScopedOverflow => "scoped candidate ordinal overflow",
            ProtocolError::ScopedOutside => "scoped candidate ordinal is outside the candidate set",
            ProtocolError::RegisteredIdOrder =>
                "catalog public IDs must be positive and strictly increasing",
            ProtocolError::DuplicateCandidate => "duplicate candidate ID",
            ProtocolError::TokenOverflow => "token overflow",
            ProtocolError::ByteOverflow => "byte overflow",
            ProtocolError::UnsupportedTensorReference => "unsupported tensor reference",
            ProtocolError::InvalidTensorDescriptor => "invalid content-addressed tensor descriptor",
            ProtocolError::TensorLimits => "request exceeds tensor limits",
        };
        plain.to_owned()
    }
}

/// The next `count` bytes.
pub open spec fn read_bytes(rest: Seq<u8>, count: nat) -> Result<(Seq<u8>, Seq<u8>), ProtocolError> {
    if count > rest.len() {
        Err(ProtocolError::TruncatedRequest)
    } else {
        Ok((rest.take(count as int), rest.skip(count as int)))
    }
}

pub open spec fn read_u8(rest: Seq<u8>) -> Result<(u8, Seq<u8>), ProtocolError> {
    match read_bytes(rest, 1) {
        Ok((part, rest)) => Ok((part[0], rest)),
        Err(error) => Err(error),
    }
}

pub open spec fn read_u16(rest: Seq<u8>) -> Result<(u16, Seq<u8>), ProtocolError> {
    match read_bytes(rest, 2) {
        Ok((part, rest)) => Ok((of16(part), rest)),
        Err(error) => Err(error),
    }
}

pub open spec fn read_u32(rest: Seq<u8>) -> Result<(u32, Seq<u8>), ProtocolError> {
    match read_bytes(rest, 4) {
        Ok((part, rest)) => Ok((of32(part), rest)),
        Err(error) => Err(error),
    }
}

pub open spec fn read_i32(rest: Seq<u8>) -> Result<(i32, Seq<u8>), ProtocolError> {
    match read_bytes(rest, 4) {
        Ok((part, rest)) => Ok((signed32(of32(part)), rest)),
        Err(error) => Err(error),
    }
}

pub open spec fn read_i64(rest: Seq<u8>) -> Result<(i64, Seq<u8>), ProtocolError> {
    match read_bytes(rest, 8) {
        Ok((part, rest)) => Ok((signed64(of64(part)), rest)),
        Err(error) => Err(error),
    }
}

/// What is left of a variable-length integer after its first `index` bytes:
/// seven bits in each byte, the low ones first, and the top bit set on every
/// byte but the last. At most ten bytes, of which the tenth holds one bit; the
/// last of several bytes is not zero.
pub open spec fn read_varint_from(rest: Seq<u8>, index: nat) -> Result<(nat, Seq<u8>), ProtocolError>
    decreases 10 - index,
{
    match read_u8(rest) {
        Err(error) => Err(error),
        Ok((byte, rest)) => if index >= 9 && byte > 1 {
            Err(ProtocolError::VarintOverflow)
        } else if byte < 0x80 {
            if index > 0 && byte == 0 {
                Err(ProtocolError::NonCanonicalVarint)
            } else {
                Ok((byte as nat, rest))
            }
        } else {
            match read_varint_from(rest, index + 1) {
                Err(error) => Err(error),
                Ok((high, rest)) => Ok(((byte - 0x80 + 0x80 * high) as nat, rest)),
            }
        },
    }
}

/// A variable-length integer.
pub open spec fn read_varint(rest: Seq<u8>) -> Result<(nat, Seq<u8>), ProtocolError> {
    read_varint_from(rest, 0)
}

/// The bytes of a text of `count` bytes, which is neither empty nor longer
/// than `maximum`, is UTF-8, and holds no control code.
pub open spec fn read_text(
    rest: Seq<u8>,
    count: nat,
    maximum: nat,
    field: TextField,
) -> Result<(Seq<u8>, Seq<u8>), ProtocolError> {
    if count == 0 || count > maximum {
        Err(ProtocolError::TextLength(field))
    } else {
        match read_bytes(rest, count) {
            Err(error) => Err(error),
            Ok((part, rest)) => if !valid_utf8(part) {
                Err(ProtocolError::NotUtf8(utf8_fault(part)))
            } else if has_control(decode_utf8(part)) {
                Err(ProtocolError::ControlCharacters(field))
            } else {
                Ok((part, rest))
            },
        }
    }
}

/// What `index` bytes of seven bits leave of sixty-four bits.
pub open spec fn varint_limit(index: nat) -> nat
    decreases index,
{
    if index == 0 {
        0x1_0000_0000_0000_0000
    } else {
        varint_limit((index - 1) as nat) / 128
    }
}

/// The remainder of a variable-length integer after `index` bytes fits in what
/// those bytes leave of sixty-four bits.
proof fn lemma_varint_fits(rest: Seq<u8>, index: nat)
    requires
        index <= 9,
    ensures
        match read_varint_from(rest, index) {
            Ok((value, _)) => value < varint_limit(index),
            Err(_) => true,
        },
    decreases 10 - index,
{
    lemma_varint_limits();
    if index < 9 && rest.len() > 0 {
        lemma_varint_fits(rest.skip(1), index + 1);
    }
}

/// The ten values of [`varint_limit`] that matter.
pub(crate) proof fn lemma_varint_limits()
    ensures
        varint_limit(0) == 0x1_0000_0000_0000_0000,
        varint_limit(1) == 0x200_0000_0000_0000,
        varint_limit(2) == 0x4_0000_0000_0000,
        varint_limit(3) == 0x800_0000_0000,
        varint_limit(4) == 0x10_0000_0000,
        varint_limit(5) == 0x2000_0000,
        varint_limit(6) == 0x40_0000,
        varint_limit(7) == 0x8000,
        varint_limit(8) == 0x100,
        varint_limit(9) == 2,
{
    reveal_with_fuel(varint_limit, 10);
}

/// A position in a request body.
pub struct Reader<'a> {
    bytes: &'a [u8],
    offset: usize,
}

impl<'a> Reader<'a> {
    /// The bytes that are left.
    pub closed spec fn rest(&self) -> Seq<u8> {
        self.bytes@.skip(self.offset as int)
    }

    #[verifier::type_invariant]
    spec fn inside(self) -> bool {
        self.offset <= self.bytes@.len()
    }

    pub fn new(bytes: &'a [u8]) -> (reader: Self)
        ensures
            reader.rest() == bytes@,
    {
        let reader = Reader { bytes, offset: 0 };
        assert(bytes@.skip(0) =~= bytes@);
        reader
    }

    pub fn take(&mut self, count: usize) -> (result: Result<&'a [u8], ProtocolError>)
        ensures
            match read_bytes(old(self).rest(), count as nat) {
                Ok((part, rest)) => result is Ok && result->Ok_0@ == part && final(self).rest()
                    == rest,
                Err(error) => result == Err::<&'a [u8], ProtocolError>(error),
            },
    {
        proof {
            use_type_invariant(&*self);
        }
        if count > self.bytes.len() - self.offset {
            return Err(ProtocolError::TruncatedRequest);
        }
        let end: usize = self.offset + count;
        let part: &'a [u8] = slice_subrange(self.bytes, self.offset, end);
        self.offset = end;
        assert(part@ =~= old(self).rest().take(count as int));
        assert(self.rest() =~= old(self).rest().skip(count as int));
        Ok(part)
    }

    pub fn u8(&mut self) -> (result: Result<u8, ProtocolError>)
        ensures
            match read_u8(old(self).rest()) {
                Ok((value, rest)) => result == Ok::<u8, ProtocolError>(value)
                    && final(self).rest() == rest,
                Err(error) => result == Err::<u8, ProtocolError>(error),
            },
    {
        let part = self.take(1)?;
        Ok(part[0])
    }

    pub fn u16(&mut self) -> (result: Result<u16, ProtocolError>)
        ensures
            match read_u16(old(self).rest()) {
                Ok((value, rest)) => result == Ok::<u16, ProtocolError>(value)
                    && final(self).rest() == rest,
                Err(error) => result == Err::<u16, ProtocolError>(error),
            },
    {
        let part = self.take(2)?;
        assert(part@.subrange(0, 2) =~= part@);
        Ok(u16_at(part, 0))
    }

    pub fn u32(&mut self) -> (result: Result<u32, ProtocolError>)
        ensures
            match read_u32(old(self).rest()) {
                Ok((value, rest)) => result == Ok::<u32, ProtocolError>(value)
                    && final(self).rest() == rest,
                Err(error) => result == Err::<u32, ProtocolError>(error),
            },
    {
        let part = self.take(4)?;
        assert(part@.subrange(0, 4) =~= part@);
        Ok(u32_at(part, 0))
    }

    pub fn i32(&mut self) -> (result: Result<i32, ProtocolError>)
        ensures
            match read_i32(old(self).rest()) {
                Ok((value, rest)) => result == Ok::<i32, ProtocolError>(value)
                    && final(self).rest() == rest,
                Err(error) => result == Err::<i32, ProtocolError>(error),
            },
    {
        let part = self.take(4)?;
        assert(part@.subrange(0, 4) =~= part@);
        Ok(to_signed32(u32_at(part, 0)))
    }

    pub fn i64(&mut self) -> (result: Result<i64, ProtocolError>)
        ensures
            match read_i64(old(self).rest()) {
                Ok((value, rest)) => result == Ok::<i64, ProtocolError>(value)
                    && final(self).rest() == rest,
                Err(error) => result == Err::<i64, ProtocolError>(error),
            },
    {
        let part = self.take(8)?;
        assert(part@.subrange(0, 8) =~= part@);
        Ok(to_signed64(u64_at(part, 0)))
    }

    fn varint_from(&mut self, index: usize) -> (result: Result<u64, ProtocolError>)
        requires
            index <= 9,
        ensures
            match read_varint_from(old(self).rest(), index as nat) {
                Ok((value, rest)) => result is Ok && result->Ok_0 == value && final(self).rest()
                    == rest,
                Err(error) => result == Err::<u64, ProtocolError>(error),
            },
        decreases 10 - index,
    {
        let byte: u8 = self.u8()?;
        if index == 9 && byte > 1 {
            return Err(ProtocolError::VarintOverflow);
        }
        if byte < 0x80 {
            if index > 0 && byte == 0 {
                return Err(ProtocolError::NonCanonicalVarint);
            }
            return Ok(byte as u64);
        }
        proof {
            lemma_varint_limits();
            lemma_varint_fits(self.rest(), index as nat + 1);
        }
        let high: u64 = self.varint_from(index + 1)?;
        Ok((byte - 0x80) as u64 + 0x80 * high)
    }

    pub fn varint_u64(&mut self) -> (result: Result<u64, ProtocolError>)
        ensures
            match read_varint(old(self).rest()) {
                Ok((value, rest)) => result is Ok && result->Ok_0 == value && final(self).rest()
                    == rest,
                Err(error) => result == Err::<u64, ProtocolError>(error),
            },
    {
        self.varint_from(0)
    }

    pub fn text(&mut self, count: usize, maximum: usize, field: TextField) -> (result: Result<
        (&'a [u8], &'a str),
        ProtocolError,
    >)
        ensures
            match read_text(old(self).rest(), count as nat, maximum as nat, field) {
                Ok((part, rest)) => {
                    &&& result is Ok
                    &&& result->Ok_0.0@ == part
                    &&& result->Ok_0.1@ == decode_utf8(part)
                    &&& final(self).rest() == rest
                },
                Err(error) => result == Err::<(&'a [u8], &'a str), ProtocolError>(error),
            },
    {
        if count == 0 || count > maximum {
            return Err(ProtocolError::TextLength(field));
        }
        let part = self.take(count)?;
        match utf8_text(part) {
            Err(fault) => Err(ProtocolError::NotUtf8(fault)),
            Ok(text) => if contains_control(text) {
                Err(ProtocolError::ControlCharacters(field))
            } else {
                Ok((part, text))
            },
        }
    }

    pub fn finish(self) -> (result: Result<(), ProtocolError>)
        ensures
            result == if self.rest().len() == 0 {
                Ok::<(), ProtocolError>(())
            } else {
                Err(ProtocolError::TrailingBytes)
            },
    {
        proof {
            use_type_invariant(&self);
        }
        if self.offset != self.bytes.len() {
            Err(ProtocolError::TrailingBytes)
        } else {
            Ok(())
        }
    }
}

} // verus!
