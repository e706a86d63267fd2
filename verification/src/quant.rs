//! Immutable formats for quantizers and codes, and the registry that says which
//! quantizer is active.

use crate::bytes::{of16, of32, of64, u16_at, u32_at, u64_at};
use crate::digest::{
    hex_bytes, hex_decode, hex_encode, hex_fault, hex_text, is_digest_text, lower_hex, sha256,
    sha256_digest, HexFault,
};
use crate::protocol::{finite32, same_bytes, ScoringProfile};
use crate::table::Table;
use crate::text::{contract_prefix, path_text, join_path, same_text};
use vstd::arithmetic::power2::pow2;
use vstd::prelude::*;
use vstd::slice::{slice_subrange, slice_to_vec};
use vstd::string::{StrSliceExecFns, StringExecFns};
use vstd::utf8::encode_utf8;

verus! {

pub const HEADER_BYTES: usize = 128;

pub const VERSION: u16 = 1;

/// Where the checksum of a quantizer stands.
pub const QUANTIZER_SEAL: usize = 60;

/// Where the checksum of codes stands.
pub const CODES_SEAL: usize = 92;

/// The bytes that begin a quantizer: `VCTQ`.
pub open spec fn quantizer_magic() -> Seq<u8> {
    seq![86u8, 67u8, 84u8, 81u8]
}

/// The bytes that begin codes: `VCTC`.
pub open spec fn codes_magic() -> Seq<u8> {
    seq![86u8, 67u8, 84u8, 67u8]
}

/// Why an artifact, a registry or a request for a quantizer is refused.
#[derive(Clone, Copy, Debug, PartialEq, Eq, Structural)]
pub enum QuantError {
    Header,
    ReservedBytes,
    PayloadTooLarge,
    LengthOverflow,
    LengthMismatch,
    Checksum,
    QuantizerShape,
    QuantizerSize,
    QuantizerPayload,
    CodesShape,
    RegistryRoot,
    ProfileNotQuantized,
    StateSchema,
    RegistrySchema,
    NotActive,
    RecordMismatch,
    RecordLink,
    ProfileMismatch,
    ArtifactRoot,
    QuantizerLink,
    CodesLink,
    ContractId,
    ContractHex(HexFault),
    QuantizerIdentity,
    QuantizerChecksum,
    SourceDigest,
    CodesMismatch,
}

impl QuantError {
    pub open spec fn message_text(self) -> Seq<char> {
        match self {
            QuantError::Header => "invalid quantization artifact header"@,
            QuantError::ReservedBytes =>
                "unsupported quantization artifact flags or reserved bytes"@,
            QuantError::PayloadTooLarge => "payload too large"@,
            QuantError::LengthOverflow => "length overflow"@,
            QuantError::LengthMismatch => "quantization artifact length mismatch"@,
            QuantError::Checksum => "quantization artifact checksum mismatch"@,
            QuantError::QuantizerShape => "invalid quantizer shape"@,
            QuantError::QuantizerSize => "quantizer size overflow"@,
            QuantError::QuantizerPayload =>
                "quantizer payload disagrees with its shape or contains non-finite values"@,
            QuantError::CodesShape => "invalid PQ code artifact shape"@,
            QuantError::RegistryRoot =>
                "quantization registry root must be an absolute, non-symlink directory"@,
            QuantError::ProfileNotQuantized =>
                "quantization registry is only valid for PQ-family profiles"@,
            QuantError::StateSchema =>
                "quantization registry must be migrated to state schema v2"@,
            QuantError::RegistrySchema => "quantization registry must use state schema v2"@,
            QuantError::NotActive =>
                "requested quantization contract is not active for this model and encoding"@,
            QuantError::RecordMismatch =>
                "quantization contract record disagrees with the active request"@,
            QuantError::ProfileMismatch =>
                "PQ scoring profile disagrees with contract rotation/residual stages"@,
            QuantError::RecordLink => "quantization contract record must not be a symlink"@,
            QuantError::ArtifactRoot =>
                "quantization artifact root must be absolute and must not be a symlink"@,
            QuantError::QuantizerLink => "quantizer artifact must not be a symlink"@,
            QuantError::CodesLink => "PQ code artifact must not be a symlink"@,
            QuantError::ContractId => "invalid contract ID"@,
            QuantError::ContractHex(fault) => fault.message_text(),
            QuantError::QuantizerIdentity =>
                "quantizer artifact shape or identity disagrees with its contract"@,
            QuantError::QuantizerChecksum =>
                "quantizer payload checksum disagrees with its contract identity"@,
            QuantError::SourceDigest => "invalid source tensor digest"@,
            QuantError::CodesMismatch =>
                "PQ code artifact disagrees with the active quantizer or source tensor"@,
        }
    }

    /// The error in words.
    pub fn message(self) -> (text: String)
        ensures
            text@ == self.message_text(),
    {
        match self {
            QuantError::Header => "invalid quantization artifact header".to_owned(),
            QuantError::ReservedBytes =>
                "unsupported quantization artifact flags or reserved bytes".to_owned(),
            QuantError::PayloadTooLarge => "payload too large".to_owned(),
            QuantError::LengthOverflow => "length overflow".to_owned(),
            QuantError::LengthMismatch => "quantization artifact length mismatch".to_owned(),
            QuantError::Checksum => "quantization artifact checksum mismatch".to_owned(),
            QuantError::QuantizerShape => "invalid quantizer shape".to_owned(),
            QuantError::QuantizerSize => "quantizer size overflow".to_owned(),
            QuantError::QuantizerPayload =>
                "quantizer payload disagrees with its shape or contains non-finite values".to_owned(),
            QuantError::CodesShape => "invalid PQ code artifact shape".to_owned(),
            QuantError::RegistryRoot =>
                "quantization registry root must be an absolute, non-symlink directory".to_owned(),
            QuantError::ProfileNotQuantized =>
                "quantization registry is only valid for PQ-family profiles".to_owned(),
            QuantError::StateSchema => "quantization registry must be migrated to state schema v2".to_owned(),
            QuantError::RegistrySchema => "quantization registry must use state schema v2".to_owned(),
            QuantError::NotActive =>
                "requested quantization contract is not active for this model and encoding".to_owned(),
            QuantError::RecordMismatch =>
                "quantization contract record disagrees with the active request".to_owned(),
            QuantError::ProfileMismatch =>
                "PQ scoring profile disagrees with contract rotation/residual stages".to_owned(),
            QuantError::RecordLink => "quantization contract record must not be a symlink".to_owned(),
            QuantError::ArtifactRoot =>
                "quantization artifact root must be absolute and must not be a symlink".to_owned(),
            QuantError::QuantizerLink => "quantizer artifact must not be a symlink".to_owned(),
            QuantError::CodesLink => "PQ code artifact must not be a symlink".to_owned(),
            QuantError::ContractId => "invalid contract ID".to_owned(),
            QuantError::ContractHex(fault) => fault.message(),
            QuantError::QuantizerIdentity =>
                "quantizer artifact shape or identity disagrees with its contract".to_owned(),
            QuantError::QuantizerChecksum =>
                "quantizer payload checksum disagrees with its contract identity".to_owned(),
            QuantError::SourceDigest => "invalid source tensor digest".to_owned(),
            QuantError::CodesMismatch =>
                "PQ code artifact disagrees with the active quantizer or source tensor".to_owned(),
        }
    }
}

/// A trained quantizer.
#[derive(Clone, Debug)]
pub struct QuantizerArtifact {
    pub contract_digest: [u8; 32],
    pub dimension: u32,
    pub stages: u16,
    pub subspaces: u16,
    pub centroids: u16,
    pub rotation_mask: u16,
    /// Stage-major rotations, then the vectors of stages, subspaces and
    /// centroids, all as little-endian 32-bit floats.
    pub payload: Vec<u8>,
}

pub struct QuantizerView {
    pub contract_digest: Seq<u8>,
    pub dimension: u32,
    pub stages: u16,
    pub subspaces: u16,
    pub centroids: u16,
    pub rotation_mask: u16,
    pub payload: Seq<u8>,
}

impl View for QuantizerArtifact {
    type V = QuantizerView;

    open spec fn view(&self) -> QuantizerView {
        QuantizerView {
            contract_digest: self.contract_digest@,
            dimension: self.dimension,
            stages: self.stages,
            subspaces: self.subspaces,
            centroids: self.centroids,
            rotation_mask: self.rotation_mask,
            payload: self.payload@,
        }
    }
}

/// The codes of a tensor.
#[derive(Clone, Debug)]
pub struct CodesArtifact {
    pub contract_digest: [u8; 32],
    pub source_digest: [u8; 32],
    pub rows: u32,
    pub dimension: u32,
    pub stages: u16,
    pub subspaces: u16,
    /// One byte for each row, stage and subspace.
    pub codes: Vec<u8>,
}

pub struct CodesView {
    pub contract_digest: Seq<u8>,
    pub source_digest: Seq<u8>,
    pub rows: u32,
    pub dimension: u32,
    pub stages: u16,
    pub subspaces: u16,
    pub codes: Seq<u8>,
}

impl View for CodesArtifact {
    type V = CodesView;

    open spec fn view(&self) -> CodesView {
        CodesView {
            contract_digest: self.contract_digest@,
            source_digest: self.source_digest@,
            rows: self.rows,
            dimension: self.dimension,
            stages: self.stages,
            subspaces: self.subspaces,
            codes: self.codes@,
        }
    }
}

/// Whether all bytes of a range are zero.
pub open spec fn all_zero(bytes: Seq<u8>, from: int, to: int) -> bool {
    forall|i: int| from <= i < to ==> #[trigger] bytes[i] == 0
}

/// What is wrong with the frame of an artifact, its checksum aside. Bytes six
/// and seven and those from `reserved` to the end of the header are reserved.
pub open spec fn frame_fault(bytes: Seq<u8>, magic: Seq<u8>, reserved: int) -> Option<QuantError> {
    if bytes.len() < HEADER_BYTES || bytes.subrange(0, 4) != magic || of16(bytes.subrange(4, 6))
        != VERSION {
        Some(QuantError::Header)
    } else if !all_zero(bytes, 6, 8) || !all_zero(bytes, reserved, HEADER_BYTES as int) {
        Some(QuantError::ReservedBytes)
    } else {
        let length = of64(bytes.subrange(16, 24));
        if length > usize::MAX {
            Some(QuantError::PayloadTooLarge)
        } else if HEADER_BYTES + length > usize::MAX {
            Some(QuantError::LengthOverflow)
        } else if bytes.len() != HEADER_BYTES + length {
            Some(QuantError::LengthMismatch)
        } else {
            None
        }
    }
}

/// What the checksum at `seal` covers: the header before it, and the payload.
pub open spec fn sealed(bytes: Seq<u8>, seal: int) -> Seq<u8> {
    bytes.take(seal) + bytes.skip(HEADER_BYTES as int)
}

fn zero_between(bytes: &[u8], from: usize, to: usize) -> (result: bool)
    requires
        from <= to <= bytes@.len(),
    ensures
        result == all_zero(bytes@, from as int, to as int),
{
    let mut i: usize = from;
    while i < to
        invariant
            from <= i <= to <= bytes@.len(),
            all_zero(bytes@, from as int, i as int),
        decreases to - i,
    {
        if bytes[i] != 0 {
            return false;
        }
        i += 1;
    }
    true
}

fn check_frame(bytes: &[u8], last: u8, reserved: usize) -> (result: Result<(), QuantError>)
    requires
        reserved <= HEADER_BYTES,
    ensures
        match frame_fault(bytes@, seq![86u8, 67u8, 84u8, last], reserved as int) {
            Some(error) => result == Err::<(), QuantError>(error),
            None => result is Ok,
        },
{
    if bytes.len() < HEADER_BYTES {
        return Err(QuantError::Header);
    }
    let marked: bool = bytes[0] == 86 && bytes[1] == 67 && bytes[2] == 84 && bytes[3] == last;
    assert(marked == (bytes@.subrange(0, 4) == seq![86u8, 67u8, 84u8, last])) by {
        let head = bytes@.subrange(0, 4);
        let magic = seq![86u8, 67u8, 84u8, last];
        if marked {
            assert(head =~= magic);
        } else if head == magic {
            assert(head[0] == 86 && head[1] == 67 && head[2] == 84 && head[3] == last);
        }
    }
    if !marked || u16_at(bytes, 4) != VERSION {
        return Err(QuantError::Header);
    }
    if !zero_between(bytes, 6, 8) || !zero_between(bytes, reserved, HEADER_BYTES) {
        return Err(QuantError::ReservedBytes);
    }
    let length: u64 = u64_at(bytes, 16);
    if length > usize::MAX as u64 {
        return Err(QuantError::PayloadTooLarge);
    }
    match HEADER_BYTES.checked_add(length as usize) {
        None => Err(QuantError::LengthOverflow),
        Some(expected) => if bytes.len() != expected {
            Err(QuantError::LengthMismatch)
        } else {
            Ok(())
        },
    }
}

/// The digest of what the checksum at `seal` covers.
fn seal_digest(bytes: &[u8], seal: usize) -> (digest: [u8; 32])
    requires
        seal <= HEADER_BYTES <= bytes@.len(),
    ensures
        digest@ == sha256(sealed(bytes@, seal as int)),
{
    let mut data: Vec<u8> = slice_to_vec(slice_subrange(bytes, 0, seal));
    crate::bytes::put_bytes(&mut data, slice_subrange(bytes, HEADER_BYTES, bytes.len()));
    assert(data@ =~= sealed(bytes@, seal as int));
    sha256_digest(&data)
}

/// The number of bits that are set.
pub open spec fn ones(mask: nat) -> nat
    decreases mask,
{
    if mask == 0 {
        0
    } else {
        mask % 2 + ones(mask / 2)
    }
}

fn count_ones(mask: u16) -> (count: u32)
    ensures
        count == ones(mask as nat),
        count <= 16,
{
    let mut left: u16 = mask;
    let mut count: u32 = 0;
    let mut round: u32 = 0;
    proof {
        vstd::arithmetic::power2::lemma2_to64();
    }
    while left > 0
        invariant
            count + ones(left as nat) == ones(mask as nat),
            count <= round <= 16,
            left < pow2((16 - round) as nat),
        decreases left,
    {
        proof {
            if round == 16 {
                vstd::arithmetic::power2::lemma2_to64();
            } else {
                vstd::arithmetic::power2::lemma_pow2_unfold((16 - round) as nat);
            }
        }
        if left % 2 == 1 {
            count += 1;
        }
        left = left / 2;
        round += 1;
    }
    count
}

/// Whether a mask has no bit for a stage that does not exist.
fn mask_within(mask: u16, stages: u16) -> (result: bool)
    requires
        stages <= 16,
    ensures
        result == (mask < pow2(stages as nat)),
{
    let mut limit: u32 = 1;
    let mut i: u16 = 0;
    proof {
        vstd::arithmetic::power2::lemma2_to64();
    }
    while i < stages
        invariant
            i <= stages <= 16,
            limit == pow2(i as nat),
        decreases stages - i,
    {
        proof {
            vstd::arithmetic::power2::lemma_pow2_unfold((i + 1) as nat);
            vstd::arithmetic::power2::lemma_pow2_strictly_increases(i as nat, 17);
            vstd::arithmetic::power2::lemma2_to64();
        }
        limit = limit * 2;
        i += 1;
    }
    (mask as u32) < limit
}

/// Whether the shape of a quantizer is allowed.
pub open spec fn shape_allowed(q: QuantizerView) -> bool {
    &&& q.dimension != 0
    &&& q.stages != 0
    &&& q.subspaces != 0
    &&& 2 <= q.centroids <= 256
    &&& q.dimension % q.subspaces as u32 == 0
    &&& q.stages <= 16
    &&& q.rotation_mask < pow2(q.stages as nat)
}

/// The bytes of a quantizer's payload: a square matrix for each rotation, and a
/// vector for each stage, subspace and centroid.
pub open spec fn quantizer_size(q: QuantizerView) -> int {
    4 * (ones(q.rotation_mask as nat) * q.dimension * q.dimension + q.stages * q.subspaces
        * q.centroids * (q.dimension / q.subspaces as u32))
}

/// The fields of a quantizer.
pub open spec fn quantizer_fields(bytes: Seq<u8>) -> QuantizerView {
    QuantizerView {
        contract_digest: bytes.subrange(28, 60),
        dimension: of32(bytes.subrange(8, 12)),
        stages: of16(bytes.subrange(12, 14)),
        subspaces: of16(bytes.subrange(14, 16)),
        centroids: of16(bytes.subrange(24, 26)),
        rotation_mask: of16(bytes.subrange(26, 28)),
        payload: bytes.skip(HEADER_BYTES as int),
    }
}

/// Whether a payload is all finite 32-bit floats.
pub open spec fn finite_floats(payload: Seq<u8>) -> bool {
    forall|i: int|
        0 <= i < payload.len() / 4 ==> finite32(of32(#[trigger] payload.subrange(4 * i, 4 * i + 4)))
}

/// The quantizer in an artifact, where `digest` is that of what its checksum
/// covers.
pub open spec fn quantizer_of(bytes: Seq<u8>, digest: Seq<u8>) -> Result<QuantizerView, QuantError> {
    match frame_fault(bytes, quantizer_magic(), 92) {
        Some(error) => Err(error),
        None => {
            let q = quantizer_fields(bytes);
            if digest != bytes.subrange(60, 92) {
                Err(QuantError::Checksum)
            } else if !shape_allowed(q) {
                Err(QuantError::QuantizerShape)
            } else if quantizer_size(q) > usize::MAX {
                Err(QuantError::QuantizerSize)
            } else if q.payload.len() != quantizer_size(q) || !finite_floats(q.payload) {
                Err(QuantError::QuantizerPayload)
            } else {
                Ok(q)
            }
        },
    }
}

/// Thirty-two bytes as an array.
fn digest_at(bytes: &[u8], offset: usize) -> (digest: [u8; 32])
    requires
        offset + 32 <= bytes@.len(),
    ensures
        digest@ == bytes@.subrange(offset as int, offset + 32),
{
    let mut digest: [u8; 32] = [0; 32];
    let mut i: usize = 0;
    while i < 32
        invariant
            i <= 32,
            offset + 32 <= bytes@.len(),
            bytes.len() == bytes@.len(),
            forall|j: int| 0 <= j < i ==> digest@[j] == bytes@[offset + j],
        decreases 32 - i,
    {
        digest[i] = bytes[offset + i];
        i += 1;
    }
    assert(digest@ =~= bytes@.subrange(offset as int, offset + 32));
    digest
}

/// The bytes of a quantizer's payload, where they fit in a machine word.
fn payload_size(q: &QuantizerArtifact) -> (size: Option<usize>)
    requires
        shape_allowed(q@),
    ensures
        match size {
            Some(size) => size == quantizer_size(q@),
            None => quantizer_size(q@) > usize::MAX,
        },
{
    let rotations: u128 = count_ones(q.rotation_mask) as u128;
    let dimension: u128 = q.dimension as u128;
    let stages: u128 = q.stages as u128;
    let subspaces: u128 = q.subspaces as u128;
    let centroids: u128 = q.centroids as u128;
    let width: u128 = (q.dimension / q.subspaces as u32) as u128;
    proof {
        assert(rotations * dimension <= 16 * 0xffff_ffff) by (nonlinear_arith)
            requires
                0 <= rotations <= 16,
                0 <= dimension <= 0xffff_ffff,
        ;
        assert(rotations * dimension * dimension <= 16 * 0xffff_ffff * 0xffff_ffff) by (nonlinear_arith)
            requires
                0 <= rotations * dimension <= 16 * 0xffff_ffff,
                0 <= dimension <= 0xffff_ffff,
        ;
        assert(stages * subspaces <= 16 * 0xffff) by (nonlinear_arith)
            requires
                0 <= stages <= 16,
                0 <= subspaces <= 0xffff,
        ;
        assert(stages * subspaces * centroids <= 16 * 0xffff * 256) by (nonlinear_arith)
            requires
                0 <= stages * subspaces <= 16 * 0xffff,
                0 <= centroids <= 256,
        ;
        assert(stages * subspaces * centroids * width <= 16 * 0xffff * 256 * 0xffff_ffff)
            by (nonlinear_arith)
            requires
                0 <= stages * subspaces * centroids <= 16 * 0xffff * 256,
                0 <= width <= 0xffff_ffff,
        ;
    }
    let size: u128 = 4 * (rotations * dimension * dimension + stages * subspaces * centroids * width);
    if size > usize::MAX as u128 {
        None
    } else {
        Some(size as usize)
    }
}

fn all_finite(payload: &[u8]) -> (result: bool)
    ensures
        result == finite_floats(payload@),
{
    let count: usize = payload.len() / 4;
    let mut i: usize = 0;
    while i < count
        invariant
            i <= count == payload@.len() / 4,
            payload.len() == payload@.len(),
            forall|j: int|
                0 <= j < i ==> finite32(of32(#[trigger] payload@.subrange(4 * j, 4 * j + 4))),
        decreases count - i,
    {
        if u32_at(payload, 4 * i) / 0x80_0000 % 256 == 255 {
            assert(!finite32(of32(payload@.subrange(4 * (i as int), 4 * i + 4))));
            return false;
        }
        i += 1;
    }
    true
}

/// Reads a quantizer whose digest is known.
pub fn read_quantizer(bytes: &[u8], digest: &[u8; 32]) -> (result: Result<
    QuantizerArtifact,
    QuantError,
>)
    ensures
        match quantizer_of(bytes@, digest@) {
            Ok(quantizer) => result is Ok && result->Ok_0@ == quantizer,
            Err(error) => result == Err::<QuantizerArtifact, QuantError>(error),
        },
{
    assert(quantizer_magic() =~= seq![86u8, 67u8, 84u8, 81u8]);
    check_frame(bytes, 81, 92)?;
    if !same_bytes(digest.as_slice(), slice_subrange(bytes, 60, 92)) {
        return Err(QuantError::Checksum);
    }
    let payload: &[u8] = slice_subrange(bytes, HEADER_BYTES, bytes.len());
    assert(payload@ =~= bytes@.skip(HEADER_BYTES as int));
    let quantizer = QuantizerArtifact {
        contract_digest: digest_at(bytes, 28),
        dimension: u32_at(bytes, 8),
        stages: u16_at(bytes, 12),
        subspaces: u16_at(bytes, 14),
        centroids: u16_at(bytes, 24),
        rotation_mask: u16_at(bytes, 26),
        payload: slice_to_vec(payload),
    };
    if quantizer.dimension == 0 || quantizer.stages == 0 || quantizer.subspaces == 0
        || quantizer.centroids < 2 || quantizer.centroids > 256 || quantizer.dimension
        % quantizer.subspaces as u32 != 0 || quantizer.stages > 16 || !mask_within(
        quantizer.rotation_mask,
        quantizer.stages,
    ) {
        return Err(QuantError::QuantizerShape);
    }
    let expected: usize = match payload_size(&quantizer) {
        Some(expected) => expected,
        None => return Err(QuantError::QuantizerSize),
    };
    if payload.len() != expected || !all_finite(payload) {
        return Err(QuantError::QuantizerPayload);
    }
    Ok(quantizer)
}

/// Parses a quantizer.
pub fn parse_quantizer(bytes: &[u8]) -> (result: Result<QuantizerArtifact, QuantError>)
    ensures
        match quantizer_of(bytes@, sha256(sealed(bytes@, QUANTIZER_SEAL as int))) {
            Ok(quantizer) => result is Ok && result->Ok_0@ == quantizer,
            Err(error) => result == Err::<QuantizerArtifact, QuantError>(error),
        },
{
    assert(quantizer_magic() =~= seq![86u8, 67u8, 84u8, 81u8]);
    check_frame(bytes, 81, 92)?;
    read_quantizer(bytes, &seal_digest(bytes, QUANTIZER_SEAL))
}

/// The fields of codes.
pub open spec fn codes_fields(bytes: Seq<u8>) -> CodesView {
    CodesView {
        contract_digest: bytes.subrange(28, 60),
        source_digest: bytes.subrange(60, 92),
        rows: of32(bytes.subrange(8, 12)),
        dimension: of32(bytes.subrange(12, 16)),
        stages: of16(bytes.subrange(24, 26)),
        subspaces: of16(bytes.subrange(26, 28)),
        codes: bytes.skip(HEADER_BYTES as int),
    }
}

/// The codes in an artifact, where `digest` is that of what its checksum covers.
pub open spec fn codes_of(bytes: Seq<u8>, digest: Seq<u8>) -> Result<CodesView, QuantError> {
    match frame_fault(bytes, codes_magic(), 124) {
        Some(error) => Err(error),
        None => {
            let c = codes_fields(bytes);
            if digest != bytes.subrange(92, 124) {
                Err(QuantError::Checksum)
            } else if c.rows == 0 || c.dimension == 0 || c.stages == 0 || c.subspaces == 0
                || c.codes.len() != c.rows * c.stages * c.subspaces {
                Err(QuantError::CodesShape)
            } else {
                Ok(c)
            }
        },
    }
}

/// Reads codes whose digest is known.
pub fn read_codes(bytes: &[u8], digest: &[u8; 32]) -> (result: Result<CodesArtifact, QuantError>)
    ensures
        match codes_of(bytes@, digest@) {
            Ok(codes) => result is Ok && result->Ok_0@ == codes,
            Err(error) => result == Err::<CodesArtifact, QuantError>(error),
        },
{
    assert(codes_magic() =~= seq![86u8, 67u8, 84u8, 67u8]);
    check_frame(bytes, 67, 124)?;
    if !same_bytes(digest.as_slice(), slice_subrange(bytes, 92, 124)) {
        return Err(QuantError::Checksum);
    }
    let codes: &[u8] = slice_subrange(bytes, HEADER_BYTES, bytes.len());
    assert(codes@ =~= bytes@.skip(HEADER_BYTES as int));
    let rows: u32 = u32_at(bytes, 8);
    let dimension: u32 = u32_at(bytes, 12);
    let stages: u16 = u16_at(bytes, 24);
    let subspaces: u16 = u16_at(bytes, 26);
    proof {
        assert(rows * stages <= 0xffff_ffff * 0xffff) by (nonlinear_arith)
            requires
                0 <= rows <= 0xffff_ffff,
                0 <= stages <= 0xffff,
        ;
        assert(rows * stages * subspaces <= 0xffff_ffff * 0xffff * 0xffff) by (nonlinear_arith)
            requires
                0 <= rows * stages <= 0xffff_ffff * 0xffff,
                0 <= subspaces <= 0xffff,
        ;
    }
    let expected: u64 = rows as u64 * stages as u64 * subspaces as u64;
    if rows == 0 || dimension == 0 || stages == 0 || subspaces == 0 || codes.len() as u64 != expected {
        return Err(QuantError::CodesShape);
    }
    Ok(
        CodesArtifact {
            contract_digest: digest_at(bytes, 28),
            source_digest: digest_at(bytes, 60),
            rows,
            dimension,
            stages,
            subspaces,
            codes: slice_to_vec(codes),
        },
    )
}

/// Parses codes.
pub fn parse_codes(bytes: &[u8]) -> (result: Result<CodesArtifact, QuantError>)
    ensures
        match codes_of(bytes@, sha256(sealed(bytes@, CODES_SEAL as int))) {
            Ok(codes) => result is Ok && result->Ok_0@ == codes,
            Err(error) => result == Err::<CodesArtifact, QuantError>(error),
        },
{
    assert(codes_magic() =~= seq![86u8, 67u8, 84u8, 67u8]);
    check_frame(bytes, 67, 124)?;
    read_codes(bytes, &seal_digest(bytes, CODES_SEAL))
}

/// Which contracts are active: for each scope, the contract of it, if any.
pub struct RegistryState {
    pub version: u32,
    pub generation: u64,
    pub scopes: Table<Option<String>>,
}

/// What a contract says of its quantizer.
pub struct ContractBody {
    pub model_contract: String,
    pub encoding: String,
    pub dimension: u32,
    pub subspaces: u16,
    pub centroids: u16,
    pub residual_stages: u16,
    pub opq_iterations: u16,
    pub quantizer_checksum: String,
}

/// The record of a contract.
pub struct ContractRecord {
    pub version: u32,
    pub contract_id: String,
    pub contract: ContractBody,
    pub artifact_root: String,
}

/// The quantizer that a request may use.
pub struct ActiveQuantizer {
    pub generation: u64,
    /// All contracts active in the same registry snapshot that authorized this
    /// request. Keeping these together prevents a rollback between two state
    /// reads from reclaiming the request's quantizer.
    pub active_contract_ids: Vec<String>,
    pub contract_id: String,
    pub artifact_root: String,
    pub quantizer: QuantizerArtifact,
}

impl RegistryState {
    /// The contract that is active for a scope.
    pub open spec fn active(&self, scope: Seq<char>) -> Option<Seq<char>> {
        if self.scopes@.contains_key(scope) {
            match self.scopes@[scope] {
                Some(contract) => Some(contract@),
                None => None,
            }
        } else {
            None
        }
    }

    /// Whether a contract is active for some scope.
    pub open spec fn is_active(&self, contract: Seq<char>) -> bool {
        exists|scope: Seq<char>| #[trigger]
            self.scopes@.contains_key(scope) && self.active(scope) == Some(contract)
    }
}

/// The scope of a model: its name and the encoding, with a unit separator
/// between them.
pub open spec fn scope_text(model: Seq<char>) -> Seq<char> {
    model + "\u{1f}"@ + "pq"@
}

/// The scope that a request asks about.
pub fn scope_of(model_contract: &str, profile: ScoringProfile) -> (result: Result<String, QuantError>)
    ensures
        match result {
            Ok(scope) => profile.is_quantized() && scope@ == scope_text(model_contract@),
            Err(error) => !profile.is_quantized() && error == QuantError::ProfileNotQuantized,
        },
{
    match profile {
        ScoringProfile::Pq => {},
        ScoringProfile::OpqRpq => {},
        _ => return Err(QuantError::ProfileNotQuantized),
    }
    let mut scope: String = model_contract.to_owned();
    scope.append("\u{1f}");
    scope.append("pq");
    Ok(scope)
}

/// What is wrong with asking a registry for a contract.
pub open spec fn state_fault(
    state: &RegistryState,
    contract_id: Seq<char>,
    model: Seq<char>,
    profile: ScoringProfile,
) -> Option<QuantError> {
    if !profile.is_quantized() {
        Some(QuantError::ProfileNotQuantized)
    } else if state.version != 2 {
        Some(QuantError::StateSchema)
    } else if state.active(scope_text(model)) != Some(contract_id) {
        Some(QuantError::NotActive)
    } else {
        None
    }
}

/// Refuses a contract that is not active.
pub fn check_state(
    state: &RegistryState,
    contract_id: &str,
    model_contract: &str,
    profile: ScoringProfile,
) -> (result: Result<(), QuantError>)
    requires
        state.scopes.wf(),
    ensures
        match state_fault(state, contract_id@, model_contract@, profile) {
            Some(error) => result == Err::<(), QuantError>(error),
            None => result is Ok,
        },
{
    let scope: String = scope_of(model_contract, profile)?;
    if state.version != 2 {
        return Err(QuantError::StateSchema);
    }
    let matching: bool = match state.scopes.get(scope.as_str()) {
        Some(active) => match active {
            Some(active) => same_text(active.as_str(), contract_id),
            None => false,
        },
        None => false,
    };
    if !matching {
        return Err(QuantError::NotActive);
    }
    Ok(())
}

/// What is wrong with the record of a contract.
pub open spec fn record_fault(
    record: &ContractRecord,
    contract_id: Seq<char>,
    model: Seq<char>,
    profile: ScoringProfile,
) -> Option<QuantError> {
    if record.version != 1 || record.contract_id@ != contract_id || record.contract.model_contract@
        != model || record.contract.encoding@ != "pq"@ {
        Some(QuantError::RecordMismatch)
    } else if (profile == ScoringProfile::OpqRpq) != (record.contract.opq_iterations > 0
        || record.contract.residual_stages > 1) {
        Some(QuantError::ProfileMismatch)
    } else {
        None
    }
}

/// Refuses a record that is not that of the contract, or of another profile.
pub fn check_record(
    record: &ContractRecord,
    contract_id: &str,
    model_contract: &str,
    profile: ScoringProfile,
) -> (result: Result<(), QuantError>)
    ensures
        match record_fault(record, contract_id@, model_contract@, profile) {
            Some(error) => result == Err::<(), QuantError>(error),
            None => result is Ok,
        },
{
    if record.version != 1 || !same_text(record.contract_id.as_str(), contract_id) || !same_text(
        record.contract.model_contract.as_str(),
        model_contract,
    ) || !same_text(record.contract.encoding.as_str(), "pq") {
        return Err(QuantError::RecordMismatch);
    }
    let rotated: bool = record.contract.opq_iterations > 0 || record.contract.residual_stages > 1;
    let wanted: bool = match profile {
        ScoringProfile::OpqRpq => true,
        _ => false,
    };
    if wanted != rotated {
        return Err(QuantError::ProfileMismatch);
    }
    Ok(())
}

/// What is wrong with a quantizer under a contract, where `digest` is that of
/// its payload.
pub open spec fn quantizer_fault(
    record: &ContractRecord,
    contract_id: Seq<char>,
    quantizer: QuantizerView,
    digest: Seq<u8>,
) -> Option<QuantError> {
    let id = encode_utf8(contract_id);
    if !contract_prefix().is_prefix_of(id) {
        Some(QuantError::ContractId)
    } else if hex_fault(id.skip(5)) is Some {
        Some(QuantError::ContractHex(hex_fault(id.skip(5))->0))
    } else if hex_bytes(id.skip(5)) != quantizer.contract_digest || quantizer.dimension
        != record.contract.dimension || quantizer.subspaces != record.contract.subspaces
        || quantizer.centroids != record.contract.centroids || quantizer.stages
        != record.contract.residual_stages {
        Some(QuantError::QuantizerIdentity)
    } else if encode_utf8(record.contract.quantizer_checksum@).len() != 64 || hex_text(digest)
        != record.contract.quantizer_checksum@ {
        Some(QuantError::QuantizerChecksum)
    } else {
        None
    }
}

/// Refuses a quantizer that is not that of the contract, where `digest` is that
/// of its payload.
pub fn check_quantizer(
    record: &ContractRecord,
    contract_id: &str,
    quantizer: &QuantizerArtifact,
    digest: &[u8; 32],
) -> (result: Result<(), QuantError>)
    ensures
        match quantizer_fault(record, contract_id@, quantizer@, digest@) {
            Some(error) => result == Err::<(), QuantError>(error),
            None => result is Ok,
        },
{
    let id: &[u8] = contract_id.as_bytes();
    let prefixed: bool = id.len() >= 5 && id[0] == 113 && id[1] == 116 && id[2] == 99 && id[3] == 49
        && id[4] == 45;
    proof {
        if prefixed {
            assert(id@.subrange(0, 5) =~= contract_prefix());
        } else if contract_prefix().is_prefix_of(id@) {
            let head = id@.subrange(0, 5);
            assert(head =~= contract_prefix());
            assert(head[0] == 113 && head[1] == 116 && head[2] == 99 && head[3] == 49 && head[4] == 45);
        }
    }
    if !prefixed {
        return Err(QuantError::ContractId);
    }
    let digits: &[u8] = slice_subrange(id, 5, id.len());
    assert(digits@ =~= id@.skip(5));
    let identity: Vec<u8> = match hex_decode(digits) {
        Ok(identity) => identity,
        Err(fault) => return Err(QuantError::ContractHex(fault)),
    };
    if !same_bytes(&identity, quantizer.contract_digest.as_slice()) || quantizer.dimension
        != record.contract.dimension || quantizer.subspaces != record.contract.subspaces
        || quantizer.centroids != record.contract.centroids || quantizer.stages
        != record.contract.residual_stages {
        return Err(QuantError::QuantizerIdentity);
    }
    let checksum: &str = record.contract.quantizer_checksum.as_str();
    if checksum.as_bytes().len() != 64 || !same_text(hex_encode(digest).as_str(), checksum) {
        return Err(QuantError::QuantizerChecksum);
    }
    Ok(())
}

/// Whether a list holds the contracts that are active in a state, each once.
pub open spec fn lists_active(ids: Seq<String>, state: &RegistryState) -> bool {
    &&& forall|i: int, j: int|
        0 <= i < j < ids.len() ==> (#[trigger] ids[i])@ != (#[trigger] ids[j])@
    &&& forall|contract: Seq<char>| #[trigger]
        listed(ids, contract) <==> state.is_active(contract)
}

/// The contracts that are active, each once.
pub fn active_ids(state: &RegistryState) -> (ids: Vec<String>)
    requires
        state.scopes.wf(),
    ensures
        lists_active(ids@, state),
{
    let mut ids: Vec<String> = Vec::new();
    let mut slot: usize = 0;
    while slot < state.scopes.len()
        invariant
            state.scopes.wf(),
            slot <= state.scopes.slots().len(),
            forall|i: int, j: int|
                0 <= i < j < ids@.len() ==> (#[trigger] ids@[i])@ != (#[trigger] ids@[j])@,
            forall|contract: Seq<char>| #[trigger]
                listed(ids@, contract) <==> exists|k: int|
                    0 <= k < slot && holds_contract(#[trigger] state.scopes.slots()[k], contract),
        decreases state.scopes.slots().len() - slot,
    {
        let ghost before = ids@;
        match state.scopes.value(slot) {
            None => {},
            Some(contract) => {
                let mut known: bool = false;
                let mut i: usize = 0;
                while i < ids.len()
                    invariant
                        i <= ids@.len(),
                        ids@ == before,
                        known == exists|k: int| 0 <= k < i && (#[trigger] ids@[k])@ == contract@,
                    decreases ids@.len() - i,
                {
                    if same_text(ids[i].as_str(), contract.as_str()) {
                        known = true;
                    }
                    i += 1;
                }
                if !known {
                    ids.push(contract.clone());
                }
            },
        }
        proof {
            let value = state.scopes.slots()[slot as int];
            assert forall|contract: Seq<char>| #[trigger] listed(ids@, contract) <==> exists|k: int|
                0 <= k < slot + 1 && holds_contract(
                    #[trigger] state.scopes.slots()[k],
                    contract,
                ) by {
                assert(listed(before, contract) <==> exists|k: int|
                    0 <= k < slot && holds_contract(
                        #[trigger] state.scopes.slots()[k],
                        contract,
                    ));
                if listed(before, contract) {
                    let i = choose|i: int| 0 <= i < before.len() && (#[trigger] before[i])@ == contract;
                    assert(ids@[i]@ == contract);
                }
                if holds_contract(value, contract) {
                    if ids@.len() > before.len() {
                        assert(ids@[before.len() as int]@ == contract);
                    }
                    assert(holds_contract(state.scopes.slots()[slot as int], contract));
                }
                if listed(ids@, contract) && !listed(before, contract) {
                    let i = choose|i: int| 0 <= i < ids@.len() && (#[trigger] ids@[i])@ == contract;
                    if i < before.len() {
                        assert(before[i]@ == contract);
                    }
                    assert(holds_contract(state.scopes.slots()[slot as int], contract));
                }
            }
        }
        slot += 1;
    }
    proof {
        state.scopes.lemma_slots();
        assert forall|contract: Seq<char>| #[trigger] listed(ids@, contract) <==> state.is_active(
            contract,
        ) by {
            if listed(ids@, contract) {
                let k = choose|k: int|
                    0 <= k < slot && holds_contract(#[trigger] state.scopes.slots()[k], contract);
                assert(state.scopes@.contains_key(state.scopes.names()[k]));
            }
            if state.is_active(contract) {
                let scope = choose|scope: Seq<char>| #[trigger]
                    state.scopes@.contains_key(scope) && state.active(scope) == Some(contract);
                let k = state.scopes.slot_of(scope);
                assert(holds_contract(state.scopes.slots()[k], contract));
            }
        }
    }
    ids
}

/// Whether a list holds a text.
pub open spec fn listed(list: Seq<String>, text: Seq<char>) -> bool {
    exists|i: int| 0 <= i < list.len() && (#[trigger] list[i])@ == text
}

/// Whether a scope has the given contract.
pub open spec fn holds_contract(scope: Option<String>, contract: Seq<char>) -> bool {
    scope is Some && scope->0@ == contract
}

/// Which of the paths that lead to a quantizer are symbolic links. None may be.
#[derive(Clone, Copy, Debug, PartialEq, Eq, Structural)]
pub struct Links {
    pub record: bool,
    pub artifact_root: bool,
    pub quantizer: bool,
}

/// Whether a path is absolute.
pub open spec fn is_absolute(path: Seq<char>) -> bool {
    path.len() > 0 && path[0] == '/'
}

fn absolute(path: &str) -> (result: bool)
    ensures
        result == is_absolute(path@),
{
    !path.is_empty() && path.get_char(0) == '/'
}

/// Refuses a record that is reached through a symbolic link.
pub fn check_record_path(is_symlink: bool) -> (result: Result<(), QuantError>)
    ensures
        result == if is_symlink {
            Err::<(), QuantError>(QuantError::RecordLink)
        } else {
            Ok(())
        },
{
    if is_symlink {
        Err(QuantError::RecordLink)
    } else {
        Ok(())
    }
}

/// Refuses a directory of artifacts that is not absolute, or a symbolic link.
pub fn check_artifact_root(record: &ContractRecord, is_symlink: bool) -> (result: Result<
    (),
    QuantError,
>)
    ensures
        result == if !is_absolute(record.artifact_root@) || is_symlink {
            Err::<(), QuantError>(QuantError::ArtifactRoot)
        } else {
            Ok(())
        },
{
    if !absolute(record.artifact_root.as_str()) || is_symlink {
        Err(QuantError::ArtifactRoot)
    } else {
        Ok(())
    }
}

/// Refuses a quantizer that is reached through a symbolic link.
pub fn check_quantizer_path(is_symlink: bool) -> (result: Result<(), QuantError>)
    ensures
        result == if is_symlink {
            Err::<(), QuantError>(QuantError::QuantizerLink)
        } else {
            Ok(())
        },
{
    if is_symlink {
        Err(QuantError::QuantizerLink)
    } else {
        Ok(())
    }
}

/// The registry of contracts below a directory.
pub struct QuantizationRegistry {
    pub root: String,
}

impl QuantizationRegistry {
    /// A registry, where its root is an absolute path and no symbolic link.
    pub fn open(root: String, is_symlink: bool) -> (result: Result<Self, QuantError>)
        ensures
            match result {
                Ok(registry) => registry.root == root && !is_symlink && is_absolute(root@),
                Err(error) => error == QuantError::RegistryRoot && (is_symlink || !is_absolute(root@)),
            },
    {
        if is_symlink || !absolute(root.as_str()) {
            return Err(QuantError::RegistryRoot);
        }
        Ok(QuantizationRegistry { root })
    }

    /// Where the state of the registry stands.
    pub fn state_path(&self) -> (path: String)
        ensures
            path@ == path_text(self.root@, "state.json"@),
    {
        join_path(self.root.as_str(), "state.json")
    }

    /// Where the record of a contract stands.
    pub fn record_path(&self, contract_id: &str) -> (path: String)
        ensures
            path@ == path_text(
                path_text(self.root@, "contracts"@),
                contract_id@ + ".json"@,
            ),
    {
        let mut name: String = contract_id.to_owned();
        name.append(".json");
        join_path(join_path(self.root.as_str(), "contracts").as_str(), name.as_str())
    }

    /// Where the quantizer of a record stands.
    pub fn quantizer_path(&self, record: &ContractRecord) -> (path: String)
        ensures
            path@ == path_text(record.artifact_root@, "quantizer.vctq"@),
    {
        join_path(record.artifact_root.as_str(), "quantizer.vctq")
    }

    /// The quantizer that a request may use: its contract is active in the
    /// state, the record is that of the contract, the artifact is that of the
    /// record, and no symbolic link leads to any of them.
    pub fn resolve_active(
        &self,
        state: &RegistryState,
        links: Links,
        record: &ContractRecord,
        artifact: &[u8],
        contract_id: &str,
        model_contract: &str,
        profile: ScoringProfile,
    ) -> (result: Result<ActiveQuantizer, QuantError>)
        requires
            state.scopes.wf(),
        ensures
            match active_of(
                state,
                links,
                record,
                quantizer_of(artifact@, sha256(sealed(artifact@, QUANTIZER_SEAL as int))),
                contract_id@,
                model_contract@,
                profile,
                sha256(artifact@.skip(HEADER_BYTES as int)),
            ) {
                Ok(quantizer) => {
                    &&& result is Ok
                    &&& result->Ok_0.generation == state.generation
                    &&& result->Ok_0.contract_id@ == contract_id@
                    &&& result->Ok_0.artifact_root@ == record.artifact_root@
                    &&& result->Ok_0.quantizer@ == quantizer
                    &&& lists_active(result->Ok_0.active_contract_ids@, state)
                },
                Err(error) => result is Err && result->Err_0 == error,
            },
    {
        check_state(state, contract_id, model_contract, profile)?;
        check_record_path(links.record)?;
        check_record(record, contract_id, model_contract, profile)?;
        check_artifact_root(record, links.artifact_root)?;
        check_quantizer_path(links.quantizer)?;
        let quantizer: QuantizerArtifact = parse_quantizer(artifact)?;
        let digest: [u8; 32] = sha256_digest(&quantizer.payload);
        check_quantizer(record, contract_id, &quantizer, &digest)?;
        Ok(
            ActiveQuantizer {
                generation: state.generation,
                active_contract_ids: active_ids(state),
                contract_id: contract_id.to_owned(),
                artifact_root: record.artifact_root.clone(),
                quantizer,
            },
        )
    }

    /// The contracts that are active, each once.
    pub fn active_contract_ids(&self, state: &RegistryState) -> (result: Result<Vec<String>, QuantError>)
        requires
            state.scopes.wf(),
        ensures
            match result {
                Ok(ids) => state.version == 2 && lists_active(ids@, state),
                Err(error) => state.version != 2 && error == QuantError::RegistrySchema,
            },
    {
        if state.version != 2 {
            return Err(QuantError::RegistrySchema);
        }
        Ok(active_ids(state))
    }

    /// Where the codes of a tensor stand: below the first two digits of its
    /// digest.
    pub fn codes_path(&self, active: &ActiveQuantizer, source_digest: &str) -> (result: Result<
        String,
        QuantError,
    >)
        ensures
            match result {
                Ok(path) => {
                    &&& is_digest_text(encode_utf8(source_digest@))
                    &&& path@ == path_text(
                        path_text(
                            path_text(active.artifact_root@, "codes"@),
                            source_digest@.subrange(0, 2),
                        ),
                        source_digest@ + ".vctc"@,
                    )
                },
                Err(error) => !is_digest_text(encode_utf8(source_digest@)) && error
                    == QuantError::SourceDigest,
            },
    {
        let bytes: &[u8] = source_digest.as_bytes();
        if bytes.len() != 64 || !lower_hex(bytes) {
            return Err(QuantError::SourceDigest);
        }
        proof {
            assert forall|i: int| 0 <= i < bytes@.len() implies #[trigger] bytes@[i] < 128 by {
                assert(crate::digest::is_lower_hex(bytes@[i]));
            }
            crate::text::lemma_ascii_is_utf8(bytes@);
            vstd::utf8::encode_utf8_decode_utf8(source_digest@);
            assert(source_digest@.len() == 64);
        }
        let folder: &str = source_digest.substring_char(0, 2);
        let mut name: String = source_digest.to_owned();
        name.append(".vctc");
        let codes: String = join_path(active.artifact_root.as_str(), "codes");
        let below: String = join_path(codes.as_str(), folder);
        Ok(join_path(below.as_str(), name.as_str()))
    }

    /// The codes of a tensor under an active quantizer.
    pub fn load_codes(
        &self,
        active: &ActiveQuantizer,
        source_digest: &str,
        is_symlink: bool,
        artifact: &[u8],
    ) -> (result: Result<CodesArtifact, QuantError>)
        ensures
            match loaded_codes(
                active.quantizer@,
                source_digest@,
                is_symlink,
                codes_of(artifact@, sha256(sealed(artifact@, CODES_SEAL as int))),
            ) {
                Ok(codes) => result is Ok && result->Ok_0@ == codes,
                Err(error) => result is Err && result->Err_0 == error,
            },
    {
        let bytes: &[u8] = source_digest.as_bytes();
        if bytes.len() != 64 || !lower_hex(bytes) {
            return Err(QuantError::SourceDigest);
        }
        if is_symlink {
            return Err(QuantError::CodesLink);
        }
        let codes: CodesArtifact = parse_codes(artifact)?;
        if !same_bytes(
            codes.contract_digest.as_slice(),
            active.quantizer.contract_digest.as_slice(),
        ) || !same_text(hex_encode(&codes.source_digest).as_str(), source_digest) || codes.dimension
            != active.quantizer.dimension || codes.stages != active.quantizer.stages || codes.subspaces
            != active.quantizer.subspaces {
            return Err(QuantError::CodesMismatch);
        }
        Ok(codes)
    }
}

/// The quantizer that a request may use, given what its artifact parses to and
/// the digest of its payload.
pub open spec fn active_of(
    state: &RegistryState,
    links: Links,
    record: &ContractRecord,
    artifact: Result<QuantizerView, QuantError>,
    contract_id: Seq<char>,
    model: Seq<char>,
    profile: ScoringProfile,
    digest: Seq<u8>,
) -> Result<QuantizerView, QuantError> {
    if state_fault(state, contract_id, model, profile) is Some {
        Err(state_fault(state, contract_id, model, profile)->0)
    } else if links.record {
        Err(QuantError::RecordLink)
    } else if record_fault(record, contract_id, model, profile) is Some {
        Err(record_fault(record, contract_id, model, profile)->0)
    } else if !is_absolute(record.artifact_root@) || links.artifact_root {
        Err(QuantError::ArtifactRoot)
    } else if links.quantizer {
        Err(QuantError::QuantizerLink)
    } else {
        match artifact {
            Err(error) => Err(error),
            Ok(quantizer) => match quantizer_fault(record, contract_id, quantizer, digest) {
                Some(error) => Err(error),
                None => Ok(quantizer),
            },
        }
    }
}

/// The codes of a tensor under a quantizer, given what their artifact parses to.
pub open spec fn loaded_codes(
    quantizer: QuantizerView,
    source_digest: Seq<char>,
    is_symlink: bool,
    artifact: Result<CodesView, QuantError>,
) -> Result<CodesView, QuantError> {
    if !is_digest_text(encode_utf8(source_digest)) {
        Err(QuantError::SourceDigest)
    } else if is_symlink {
        Err(QuantError::CodesLink)
    } else {
        match artifact {
            Err(error) => Err(error),
            Ok(codes) => if codes.contract_digest != quantizer.contract_digest || hex_text(
                codes.source_digest,
            ) != source_digest || codes.dimension != quantizer.dimension || codes.stages
                != quantizer.stages || codes.subspaces != quantizer.subspaces {
                Err(QuantError::CodesMismatch)
            } else {
                Ok(codes)
            },
        }
    }
}

/// An artifact is accepted only under the digest that stands in it: other
/// contents under the same checksum are refused unless they have the same
/// digest.
pub proof fn tampering_is_refused(bytes: Seq<u8>, other: Seq<u8>)
    requires
        quantizer_of(bytes, sha256(sealed(bytes, QUANTIZER_SEAL as int))) is Ok,
        other.len() == bytes.len(),
        other.subrange(60, 92) == bytes.subrange(60, 92),
        sha256(sealed(other, QUANTIZER_SEAL as int)) != sha256(sealed(bytes, QUANTIZER_SEAL as int)),
    ensures
        quantizer_of(other, sha256(sealed(other, QUANTIZER_SEAL as int))) is Err,
{
}

/// Codes are accepted only under the digest that stands in them.
pub proof fn tampered_codes_are_refused(bytes: Seq<u8>, other: Seq<u8>)
    requires
        codes_of(bytes, sha256(sealed(bytes, CODES_SEAL as int))) is Ok,
        other.len() == bytes.len(),
        other.subrange(92, 124) == bytes.subrange(92, 124),
        sha256(sealed(other, CODES_SEAL as int)) != sha256(sealed(bytes, CODES_SEAL as int)),
    ensures
        codes_of(other, sha256(sealed(other, CODES_SEAL as int))) is Err,
{
}

/// A contract that is rolled back is refused at once: whatever its record and
/// its artifact say, only the state decides.
pub proof fn rollback_is_observed(
    state: &RegistryState,
    links: Links,
    record: &ContractRecord,
    artifact: Result<QuantizerView, QuantError>,
    contract_id: Seq<char>,
    model: Seq<char>,
    profile: ScoringProfile,
    digest: Seq<u8>,
)
    requires
        state.active(scope_text(model)) != Some(contract_id),
    ensures
        active_of(state, links, record, artifact, contract_id, model, profile, digest) is Err,
{
}

/// The bits that are set are counted one by one.
pub proof fn every_set_bit_counts(mask: nat, bit: nat)
    requires
        bit <= 1,
    ensures
        ones(2 * mask + bit) == ones(mask) + bit,
        ones(0) == 0,
{
    if 2 * mask + bit > 0 {
        assert((2 * mask + bit) / 2 == mask);
        assert((2 * mask + bit) % 2 == bit);
    }
}

/// A quantizer that is read has the artifact's checksum, a shape that is allowed, a square
/// matrix for each rotation and a vector for each stage, subspace and centroid, all finite;
/// its numbers stand at their places in the header, the least significant byte first.
pub proof fn quantizers_are_read_from_their_header(
    bytes: Seq<u8>,
    digest: Seq<u8>,
    q: QuantizerView,
)
    requires
        bytes.len() >= 128,
        quantizer_of(bytes, digest) == Ok::<QuantizerView, QuantError>(q),
    ensures
        bytes.subrange(60, 92) == digest,
        q.contract_digest == bytes.subrange(28, 60),
        q.dimension == bytes[8] + 0x100 * bytes[9] + 0x1_0000 * bytes[10] + 0x100_0000 * bytes[11],
        q.stages == bytes[12] + 0x100 * bytes[13],
        q.subspaces == bytes[14] + 0x100 * bytes[15],
        q.centroids == bytes[24] + 0x100 * bytes[25],
        q.rotation_mask == bytes[26] + 0x100 * bytes[27],
        q.payload == bytes.skip(128),
        q.dimension > 0,
        q.subspaces > 0,
        q.dimension % q.subspaces as u32 == 0,
        2 <= q.centroids <= 256,
        1 <= q.stages <= 16,
        q.rotation_mask < pow2(q.stages as nat),
        q.payload.len() == 4 * (ones(q.rotation_mask as nat) * q.dimension * q.dimension + q.stages
            * q.subspaces * q.centroids * (q.dimension / q.subspaces as u32)),
        finite_floats(q.payload),
{
    let dimension = bytes.subrange(8, 12);
    assert(dimension[0] == bytes[8] && dimension[1] == bytes[9] && dimension[2] == bytes[10]
        && dimension[3] == bytes[11]);
    let stages = bytes.subrange(12, 14);
    assert(stages[0] == bytes[12] && stages[1] == bytes[13]);
    let subspaces = bytes.subrange(14, 16);
    assert(subspaces[0] == bytes[14] && subspaces[1] == bytes[15]);
    let centroids = bytes.subrange(24, 26);
    assert(centroids[0] == bytes[24] && centroids[1] == bytes[25]);
    let mask = bytes.subrange(26, 28);
    assert(mask[0] == bytes[26] && mask[1] == bytes[27]);
}

} // verus!
