//! Immutable shards of tensors: their index, and what to read for a request.

use crate::digest::{all_lower_hex, lower_hex, sha256};
use crate::protocol::{Descriptor, DescriptorView};
use crate::table::Table;
use crate::text::{
    append_decimal, decimal_text, join_path, lemma_decimal_digits, lemma_decimal_injective, path_text,
    quote, quoted, same_text,
};
use vstd::prelude::*;
use vstd::string::{StrSliceExecFns, StringExecFns};
use vstd::utf8::encode_utf8;

verus! {

/// The name of the index of a shard directory.
pub const INDEX_NAME: &'static str = "tilemaxsim-shards-v1.json";

/// Why a shard index or a tensor in it is refused.
#[derive(Clone, Copy, Debug, PartialEq, Eq, Structural)]
pub enum ShardError {
    /// The index is no document of its form.
    InvalidIndex,
    UnsupportedIndex,
    Alignment,
    ShardChecksum,
    ShardName,
    ShardSize,
    DuplicateShard,
    EntryDtype,
    UnknownShard,
    EntryRange,
    DuplicateEntry,
    UnsupportedDtype,
    ShapeOverflow,
    UnknownContract,
    MissingTensor,
    DescriptorMismatch,
    TensorChecksum,
    ShardMismatch,
    NoPayload,
}

impl ShardError {
    pub open spec fn message_text(self) -> Seq<char> {
        match self {
            ShardError::InvalidIndex => "invalid immutable shard index"@,
            ShardError::UnsupportedIndex => "unsupported immutable shard index"@,
            ShardError::Alignment => "invalid immutable shard alignment"@,
            ShardError::ShardChecksum => "invalid immutable shard checksum"@,
            ShardError::ShardName => "invalid immutable shard name"@,
            ShardError::ShardSize => "immutable shard size mismatch"@,
            ShardError::DuplicateShard => "duplicate immutable shard"@,
            ShardError::EntryDtype => "invalid shard tensor dtype"@,
            ShardError::UnknownShard => "shard tensor references an unknown file"@,
            ShardError::EntryRange => "invalid shard tensor range"@,
            ShardError::DuplicateEntry => "duplicate tensor digest in shard index"@,
            ShardError::UnsupportedDtype => "unsupported tensor dtype"@,
            ShardError::ShapeOverflow => "tensor shape overflow"@,
            ShardError::UnknownContract => "model contract has no immutable shard root"@,
            ShardError::MissingTensor => "tensor is missing from the immutable shard index"@,
            ShardError::DescriptorMismatch =>
                "tensor descriptor disagrees with the immutable shard index"@,
            ShardError::TensorChecksum => "tensor checksum mismatch inside immutable shard"@,
            ShardError::ShardMismatch => "immutable shard checksum mismatch"@,
            ShardError::NoPayload => "tensor resolution produced no payload"@,
        }
    }

    /// The error in words.
    pub fn message(self) -> (text: &'static str)
        ensures
            text@ == self.message_text(),
    {
        match self {
            ShardError::InvalidIndex => "invalid immutable shard index",
            ShardError::UnsupportedIndex => "unsupported immutable shard index",
            ShardError::Alignment => "invalid immutable shard alignment",
            ShardError::ShardChecksum => "invalid immutable shard checksum",
            ShardError::ShardName => "invalid immutable shard name",
            ShardError::ShardSize => "immutable shard size mismatch",
            ShardError::DuplicateShard => "duplicate immutable shard",
            ShardError::EntryDtype => "invalid shard tensor dtype",
            ShardError::UnknownShard => "shard tensor references an unknown file",
            ShardError::EntryRange => "invalid shard tensor range",
            ShardError::DuplicateEntry => "duplicate tensor digest in shard index",
            ShardError::UnsupportedDtype => "unsupported tensor dtype",
            ShardError::ShapeOverflow => "tensor shape overflow",
            ShardError::UnknownContract => "model contract has no immutable shard root",
            ShardError::MissingTensor => "tensor is missing from the immutable shard index",
            ShardError::DescriptorMismatch =>
                "tensor descriptor disagrees with the immutable shard index",
            ShardError::TensorChecksum => "tensor checksum mismatch inside immutable shard",
            ShardError::ShardMismatch => "immutable shard checksum mismatch",
            ShardError::NoPayload => "tensor resolution produced no payload",
        }
    }
}

/// Why the shards of a contract, or of all contracts, cannot be opened.
#[derive(Clone, Debug, PartialEq, Eq)]
pub enum StoreError {
    /// The contract has no name, or the name of another.
    InvalidContract(String),
    NoContract,
    /// The file at a path cannot be opened.
    Unreadable(String),
    /// The system refused to read, in its own words.
    System(String),
    Shard(ShardError),
}

pub enum StoreErrorView {
    InvalidContract(Seq<char>),
    NoContract,
    Unreadable(Seq<char>),
    System(Seq<char>),
    Shard(ShardError),
}

impl View for StoreError {
    type V = StoreErrorView;

    open spec fn view(&self) -> StoreErrorView {
        match self {
            StoreError::InvalidContract(name) => StoreErrorView::InvalidContract(name@),
            StoreError::NoContract => StoreErrorView::NoContract,
            StoreError::Unreadable(path) => StoreErrorView::Unreadable(path@),
            StoreError::System(words) => StoreErrorView::System(words@),
            StoreError::Shard(error) => StoreErrorView::Shard(*error),
        }
    }
}

impl StoreErrorView {
    pub open spec fn message_text(self) -> Seq<char> {
        match self {
            StoreErrorView::InvalidContract(name) => "invalid or duplicate model contract "@ + quoted(
                name,
            ),
            StoreErrorView::NoContract => "at least one immutable shard contract is required"@,
            StoreErrorView::Unreadable(path) => "cannot open immutable shard path "@ + path,
            StoreErrorView::System(words) => words,
            StoreErrorView::Shard(error) => error.message_text(),
        }
    }
}

impl StoreError {
    /// The error in words.
    pub fn message(&self) -> (text: String)
        ensures
            text@ == self@.message_text(),
    {
        match self {
            StoreError::InvalidContract(name) => {
                let mut text: String = "invalid or duplicate model contract ".to_owned();
                text.append(quote(name.as_str()).as_str());
                text
            },
            StoreError::NoContract =>
                "at least one immutable shard contract is required".to_owned(),
            StoreError::Unreadable(path) => {
                let mut text: String = "cannot open immutable shard path ".to_owned();
                text.append(path.as_str());
                text
            },
            StoreError::System(words) => words.clone(),
            StoreError::Shard(error) => error.message().to_owned(),
        }
    }
}

/// The bytes of a tensor of four-byte or two-byte numbers.
pub open spec fn tensor_size(rows: u32, dimension: u32, dtype: u8) -> Result<int, ShardError> {
    if dtype != 1 && dtype != 2 {
        Err(ShardError::UnsupportedDtype)
    } else {
        let bytes = rows * dimension * (if dtype == 1 {
            4int
        } else {
            2int
        });
        if bytes > usize::MAX {
            Err(ShardError::ShapeOverflow)
        } else {
            Ok(bytes)
        }
    }
}

/// The bytes of a tensor.
pub fn tensor_bytes(rows: u32, dimension: u32, dtype: u8) -> (result: Result<usize, ShardError>)
    ensures
        match result {
            Ok(bytes) => tensor_size(rows, dimension, dtype) == Ok::<int, ShardError>(bytes as int),
            Err(error) => tensor_size(rows, dimension, dtype) == Err::<int, ShardError>(error),
        },
{
    if dtype != 1 && dtype != 2 {
        return Err(ShardError::UnsupportedDtype);
    }
    let scalar: usize = if dtype == 1 {
        4
    } else {
        2
    };
    assert(rows * dimension * scalar >= rows * dimension) by (nonlinear_arith)
        requires
            scalar >= 1,
    ;
    let numbers: usize = match (rows as usize).checked_mul(dimension as usize) {
        Some(numbers) => numbers,
        None => {
            return Err(ShardError::ShapeOverflow);
        },
    };
    match numbers.checked_mul(scalar) {
        Some(bytes) => Ok(bytes),
        None => Err(ShardError::ShapeOverflow),
    }
}

/// The key of a tensor: its contract, its digest and its shape.
pub open spec fn key_text(descriptor: DescriptorView) -> Seq<char> {
    descriptor.contract + ":"@ + descriptor.digest + ":"@ + decimal_text(descriptor.rows as nat)
        + ":"@ + decimal_text(descriptor.dimension as nat) + ":"@ + decimal_text(
        descriptor.dtype as nat,
    )
}

/// The key of a tensor.
pub fn cache_key(descriptor: &Descriptor) -> (key: String)
    ensures
        key@ == key_text(descriptor@),
{
    let mut key: String = descriptor.contract.clone();
    key.append(":");
    key.append(descriptor.digest.as_str());
    key.append(":");
    append_decimal(&mut key, descriptor.rows as u64);
    key.append(":");
    append_decimal(&mut key, descriptor.dimension as u64);
    key.append(":");
    append_decimal(&mut key, descriptor.dtype as u64);
    key
}

/// Whether a text has no colon.
pub open spec fn colon_free(text: Seq<char>) -> bool {
    forall|i: int| 0 <= i < text.len() ==> #[trigger] text[i] != ':'
}

/// A text is split at its last colon in one way.
proof fn lemma_last_colon(left: Seq<char>, tail: Seq<char>, other: Seq<char>, last: Seq<char>)
    requires
        left + ":"@ + tail == other + ":"@ + last,
        colon_free(tail),
        colon_free(last),
    ensures
        left == other,
        tail == last,
{
    reveal_strlit(":");
    let whole = left + ":"@ + tail;
    let again = other + ":"@ + last;
    assert(":"@.len() == 1);
    assert(whole.len() == left.len() + 1 + tail.len());
    assert(again.len() == other.len() + 1 + last.len());
    assert(whole[left.len() as int] == ':');
    assert(again[other.len() as int] == ':');
    if left.len() < other.len() {
        assert(whole[other.len() as int] == tail[other.len() - (left + ":"@).len()]);
    } else if other.len() < left.len() {
        assert(again[left.len() as int] == last[left.len() - (other + ":"@).len()]);
    }
    assert(left =~= whole.subrange(0, left.len() as int));
    assert(other =~= again.subrange(0, other.len() as int));
    assert(tail =~= whole.subrange(left.len() as int + 1, whole.len() as int));
    assert(last =~= again.subrange(other.len() as int + 1, again.len() as int));
}

/// Tensors with the same key have the same contract, digest and shape, where
/// the digests have no colon, as hexadecimal digests have none.
pub proof fn keys_tell_tensors_apart(left: DescriptorView, right: DescriptorView)
    requires
        key_text(left) == key_text(right),
        colon_free(left.digest),
        colon_free(right.digest),
    ensures
        left == (DescriptorView { candidate_id: left.candidate_id, ..right }),
{
    lemma_decimal_digits(left.rows as nat);
    lemma_decimal_digits(left.dimension as nat);
    lemma_decimal_digits(left.dtype as nat);
    lemma_decimal_digits(right.rows as nat);
    lemma_decimal_digits(right.dimension as nat);
    lemma_decimal_digits(right.dtype as nat);
    let l4 = left.contract + ":"@ + left.digest;
    let r4 = right.contract + ":"@ + right.digest;
    let l3 = l4 + ":"@ + decimal_text(left.rows as nat);
    let r3 = r4 + ":"@ + decimal_text(right.rows as nat);
    let l2 = l3 + ":"@ + decimal_text(left.dimension as nat);
    let r2 = r3 + ":"@ + decimal_text(right.dimension as nat);
    lemma_last_colon(l2, decimal_text(left.dtype as nat), r2, decimal_text(right.dtype as nat));
    lemma_last_colon(l3, decimal_text(left.dimension as nat), r3, decimal_text(right.dimension as nat));
    lemma_last_colon(l4, decimal_text(left.rows as nat), r4, decimal_text(right.rows as nat));
    lemma_last_colon(left.contract, left.digest, right.contract, right.digest);
    lemma_decimal_injective(left.dtype as nat, right.dtype as nat);
    lemma_decimal_injective(left.dimension as nat, right.dimension as nat);
    lemma_decimal_injective(left.rows as nat, right.rows as nat);
}

/// A shard index as it was written.
pub struct RawIndex {
    pub format: String,
    pub version: u32,
    pub alignment: usize,
    pub shards: Vec<RawShard>,
    pub entries: Vec<RawEntry>,
}

/// A shard of an index as it was written.
pub struct RawShard {
    pub name: String,
    pub size: usize,
    pub checksum: String,
}

/// A tensor of an index as it was written.
pub struct RawEntry {
    pub digest: String,
    pub shard: String,
    pub offset: u64,
    pub length: usize,
    pub rows: u32,
    pub dimension: u32,
    pub dtype: String,
}

/// A shard: the length of its file, the digest that the file should have, and
/// whether the file was found to have it.
pub struct ShardFile {
    pub size: usize,
    pub checksum: String,
    pub verified: bool,
}

/// A shard, with its checksum as a sequence of characters.
pub struct ShardFileView {
    pub size: usize,
    pub checksum: Seq<char>,
    pub verified: bool,
}

impl View for ShardFile {
    type V = ShardFileView;

    open spec fn view(&self) -> ShardFileView {
        ShardFileView { size: self.size, checksum: self.checksum@, verified: self.verified }
    }
}

/// Where a tensor lies.
pub struct Entry {
    pub shard: String,
    pub offset: u64,
    pub length: usize,
    pub rows: u32,
    pub dimension: u32,
    pub dtype: u8,
}

/// Where a tensor lies, with the shard's name as a sequence of characters.
pub struct EntryPlace {
    pub shard: Seq<char>,
    pub offset: u64,
    pub length: usize,
    pub rows: u32,
    pub dimension: u32,
    pub dtype: u8,
}

impl View for Entry {
    type V = EntryPlace;

    open spec fn view(&self) -> EntryPlace {
        EntryPlace {
            shard: self.shard@,
            offset: self.offset,
            length: self.length,
            rows: self.rows,
            dimension: self.dimension,
            dtype: self.dtype,
        }
    }
}

/// Whether a number is a power of two.
pub open spec fn power_of_two(value: nat) -> bool
    decreases value,
{
    value == 1 || (value > 1 && value % 2 == 0 && power_of_two(value / 2))
}

fn is_power_of_two(value: usize) -> (result: bool)
    ensures
        result == power_of_two(value as nat),
{
    let mut rest: usize = value;
    while rest > 1 && rest % 2 == 0
        invariant
            power_of_two(value as nat) == power_of_two(rest as nat),
        decreases rest,
    {
        rest = rest / 2;
    }
    rest == 1
}

/// The text before the digest of a shard's checksum.
pub open spec fn checksum_prefix() -> Seq<char> {
    "sha256:"@
}

/// The digest of a checksum.
pub open spec fn checksum_digest(checksum: Seq<char>) -> Option<Seq<char>> {
    let prefix = checksum_prefix();
    if checksum.len() >= prefix.len() && checksum.subrange(0, prefix.len() as int) == prefix {
        Some(checksum.subrange(prefix.len() as int, checksum.len() as int))
    } else {
        None
    }
}

/// The name of the shard with a digest.
pub open spec fn shard_name(digest: Seq<char>) -> Seq<char> {
    "shards/sha256-"@ + digest + ".vts"@
}

/// The first fault in a shard's own text.
pub open spec fn shard_fault(name: Seq<char>, checksum: Seq<char>) -> Option<ShardError> {
    match checksum_digest(checksum) {
        None => Some(ShardError::ShardChecksum),
        Some(digest) => if name != shard_name(digest) || !all_lower_hex(encode_utf8(digest)) {
            Some(ShardError::ShardName)
        } else {
            None
        },
    }
}

/// Splits the digest off a checksum.
fn split_checksum(checksum: &str) -> (result: Option<String>)
    ensures
        match result {
            Some(digest) => checksum_digest(checksum@) == Some(digest@),
            None => checksum_digest(checksum@) is None,
        },
{
    proof {
        reveal_strlit("sha256:");
    }
    let count: usize = checksum.unicode_len();
    if count < 7 {
        return None;
    }
    if !same_text(checksum.substring_char(0, 7), "sha256:") {
        return None;
    }
    Some(checksum.substring_char(7, count).to_owned())
}

/// Tests the name and the checksum of a shard before its file is opened. The
/// result is the digest that the file should have.
pub fn check_shard(raw: &RawShard) -> (result: Result<String, ShardError>)
    ensures
        match result {
            Ok(digest) => shard_fault(raw.name@, raw.checksum@) is None && checksum_digest(
                raw.checksum@,
            ) == Some(digest@),
            Err(error) => shard_fault(raw.name@, raw.checksum@) == Some(error),
        },
{
    let digest: String = match split_checksum(raw.checksum.as_str()) {
        Some(digest) => digest,
        None => {
            return Err(ShardError::ShardChecksum);
        },
    };
    let mut name: String = "shards/sha256-".to_owned();
    name.append(digest.as_str());
    name.append(".vts");
    if !same_text(raw.name.as_str(), name.as_str()) || !lower_hex(digest.as_str().as_bytes()) {
        return Err(ShardError::ShardName);
    }
    Ok(digest)
}

/// The first fault of an index as a whole.
pub open spec fn index_fault(format: Seq<char>, version: u32, alignment: usize) -> Option<ShardError> {
    if format != "vectorchord.tilemaxsim.shards"@ || version != 1 {
        Some(ShardError::UnsupportedIndex)
    } else if !power_of_two(alignment as nat) {
        Some(ShardError::Alignment)
    } else {
        None
    }
}

/// The shards after the first `count` of an index, where `files` says how long
/// the files are that could be opened.
pub open spec fn shards_of(
    root: Seq<char>,
    raw: Seq<RawShard>,
    files: Seq<Option<u64>>,
    count: int,
) -> Result<Map<Seq<char>, ShardFileView>, StoreErrorView>
    decreases count,
{
    if count <= 0 {
        Ok(Map::empty())
    } else {
        match shards_of(root, raw, files, count - 1) {
            Err(error) => Err(error),
            Ok(before) => {
                let shard = raw[count - 1];
                match shard_fault(shard.name@, shard.checksum@) {
                    Some(error) => Err(StoreErrorView::Shard(error)),
                    None => match files[count - 1] {
                        None => Err(StoreErrorView::Unreadable(path_text(root, shard.name@))),
                        Some(length) => if length != shard.size {
                            Err(StoreErrorView::Shard(ShardError::ShardSize))
                        } else if before.contains_key(shard.name@) {
                            Err(StoreErrorView::Shard(ShardError::DuplicateShard))
                        } else {
                            Ok(
                                before.insert(
                                    shard.name@,
                                    ShardFileView {
                                        size: shard.size,
                                        checksum: checksum_digest(shard.checksum@)->0,
                                        verified: false,
                                    },
                                ),
                            )
                        },
                    },
                }
            },
        }
    }
}

/// The code of a named number type.
pub open spec fn dtype_code(name: Seq<char>) -> Option<u8> {
    if name == "float32"@ {
        Some(1u8)
    } else if name == "float16"@ {
        Some(2u8)
    } else {
        None
    }
}

/// Where a tensor of an index lies, or its first fault.
pub open spec fn place_of(
    raw: RawEntry,
    alignment: usize,
    shards: Map<Seq<char>, ShardFileView>,
) -> Result<EntryPlace, ShardError> {
    match dtype_code(raw.dtype@) {
        None => Err(ShardError::EntryDtype),
        Some(dtype) => if !shards.contains_key(raw.shard@) {
            Err(ShardError::UnknownShard)
        } else if raw.offset as int % alignment as int != 0 {
            Err(ShardError::EntryRange)
        } else {
            match tensor_size(raw.rows, raw.dimension, dtype) {
                Err(error) => Err(error),
                Ok(bytes) => if raw.length != bytes || raw.offset + raw.length
                    > shards[raw.shard@].size {
                    Err(ShardError::EntryRange)
                } else {
                    Ok(
                        EntryPlace {
                            shard: raw.shard@,
                            offset: raw.offset,
                            length: raw.length,
                            rows: raw.rows,
                            dimension: raw.dimension,
                            dtype,
                        },
                    )
                },
            }
        },
    }
}

/// The tensors after the first `count` of an index.
pub open spec fn entries_of(
    raw: Seq<RawEntry>,
    alignment: usize,
    shards: Map<Seq<char>, ShardFileView>,
    count: int,
) -> Result<Map<Seq<char>, EntryPlace>, ShardError>
    decreases count,
{
    if count <= 0 {
        Ok(Map::empty())
    } else {
        match entries_of(raw, alignment, shards, count - 1) {
            Err(error) => Err(error),
            Ok(before) => match place_of(raw[count - 1], alignment, shards) {
                Err(error) => Err(error),
                Ok(place) => if before.contains_key(raw[count - 1].digest@) {
                    Err(ShardError::DuplicateEntry)
                } else {
                    Ok(before.insert(raw[count - 1].digest@, place))
                },
            },
        }
    }
}

/// The shards and the tensors of one model contract.
pub struct ContractView {
    pub shards: Map<Seq<char>, ShardFileView>,
    pub entries: Map<Seq<char>, EntryPlace>,
}

impl ContractView {
    /// Every tensor lies in a shard.
    pub open spec fn wf(self) -> bool {
        forall|digest: Seq<char>| #[trigger]
            self.entries.contains_key(digest) ==> self.shards.contains_key(
                self.entries[digest].shard,
            ) && self.entries[digest].offset + self.entries[digest].length
                <= self.shards[self.entries[digest].shard].size
    }
}

/// The contract that the index in a directory describes, or the index's first fault.
pub open spec fn contract_of(root: Seq<char>, raw: RawIndex, files: Seq<Option<u64>>) -> Result<
    ContractView,
    StoreErrorView,
> {
    match index_fault(raw.format@, raw.version, raw.alignment) {
        Some(error) => Err(StoreErrorView::Shard(error)),
        None => match shards_of(root, raw.shards@, files, raw.shards@.len() as int) {
            Err(error) => Err(error),
            Ok(shards) => match entries_of(
                raw.entries@,
                raw.alignment,
                shards,
                raw.entries@.len() as int,
            ) {
                Err(error) => Err(StoreErrorView::Shard(error)),
                Ok(entries) => Ok(ContractView { shards, entries }),
            },
        },
    }
}

/// The shards and the tensors of one model contract.
pub struct ContractStore {
    pub shards: Table<ShardFile>,
    pub entries: Table<Entry>,
}

/// The views of a table's values.
pub open spec fn shard_views(table: Map<Seq<char>, ShardFile>) -> Map<Seq<char>, ShardFileView> {
    Map::new(|name: Seq<char>| table.contains_key(name), |name: Seq<char>| table[name]@)
}

/// The views of a table's values.
pub open spec fn entry_views(table: Map<Seq<char>, Entry>) -> Map<Seq<char>, EntryPlace> {
    Map::new(|name: Seq<char>| table.contains_key(name), |name: Seq<char>| table[name]@)
}

impl View for ContractStore {
    type V = ContractView;

    open spec fn view(&self) -> ContractView {
        ContractView { shards: shard_views(self.shards@), entries: entry_views(self.entries@) }
    }
}

impl ContractStore {
    /// The tables are well-formed, and every tensor lies in a shard.
    pub open spec fn wf(&self) -> bool {
        &&& self.shards.wf()
        &&& self.entries.wf()
        &&& self@.wf()
    }
}

/// Reads where a tensor of an index lies.
fn check_entry(raw: &RawEntry, alignment: usize, shards: &Table<ShardFile>) -> (result: Result<
    Entry,
    ShardError,
>)
    requires
        shards.wf(),
        alignment > 0,
    ensures
        match result {
            Ok(entry) => place_of(*raw, alignment, shard_views(shards@)) == Ok::<EntryPlace, ShardError>(
                entry@,
            ),
            Err(error) => place_of(*raw, alignment, shard_views(shards@)) == Err::<
                EntryPlace,
                ShardError,
            >(error),
        },
{
    let dtype: u8 = if same_text(raw.dtype.as_str(), "float32") {
        1
    } else if same_text(raw.dtype.as_str(), "float16") {
        2
    } else {
        return Err(ShardError::EntryDtype);
    };
    let size: usize = match shards.get(raw.shard.as_str()) {
        Some(shard) => shard.size,
        None => {
            return Err(ShardError::UnknownShard);
        },
    };
    assert(shard_views(shards@)[raw.shard@].size == size);
    if raw.offset % (alignment as u64) != 0 {
        return Err(ShardError::EntryRange);
    }
    let bytes: usize = tensor_bytes(raw.rows, raw.dimension, dtype)?;
    if raw.length != bytes {
        return Err(ShardError::EntryRange);
    }
    match raw.offset.checked_add(raw.length as u64) {
        Some(end) => {
            if end > size as u64 {
                return Err(ShardError::EntryRange);
            }
        },
        None => {
            return Err(ShardError::EntryRange);
        },
    }
    Ok(
        Entry {
            shard: raw.shard.clone(),
            offset: raw.offset,
            length: raw.length,
            rows: raw.rows,
            dimension: raw.dimension,
            dtype,
        },
    )
}

/// Reads the shards of an index.
fn open_shards(root: &str, raw: &Vec<RawShard>, files: &[Option<u64>]) -> (result: Result<
    Table<ShardFile>,
    StoreError,
>)
    requires
        files@.len() == raw@.len(),
    ensures
        match result {
            Ok(shards) => shards.wf() && shards_of(root@, raw@, files@, raw@.len() as int) == Ok::<
                Map<Seq<char>, ShardFileView>,
                StoreErrorView,
            >(shard_views(shards@)),
            Err(error) => shards_of(root@, raw@, files@, raw@.len() as int) == Err::<
                Map<Seq<char>, ShardFileView>,
                StoreErrorView,
            >(error@),
        },
{
    let mut shards: Table<ShardFile> = Table::new();
    let mut i: usize = 0;
    assert(shard_views(shards@) =~= Map::<Seq<char>, ShardFileView>::empty());
    while i < raw.len()
        invariant
            i <= raw@.len(),
            files@.len() == raw@.len(),
            shards.wf(),
            shards_of(root@, raw@, files@, i as int) == Ok::<
                Map<Seq<char>, ShardFileView>,
                StoreErrorView,
            >(
                shard_views(shards@),
            ),
        decreases raw@.len() - i,
    {
        let ghost before = shard_views(shards@);
        let shard: &RawShard = &raw[i];
        proof {
            lemma_shards_stop(root@, raw@, files@, i as int + 1, raw@.len() as int);
        }
        let checksum: String = match check_shard(shard) {
            Ok(checksum) => checksum,
            Err(error) => {
                return Err(StoreError::Shard(error));
            },
        };
        match files[i] {
            Some(length) => {
                if length != shard.size as u64 {
                    return Err(StoreError::Shard(ShardError::ShardSize));
                }
            },
            None => {
                return Err(StoreError::Unreadable(join_path(root, shard.name.as_str())));
            },
        }
        if shards.get(shard.name.as_str()).is_some() {
            return Err(StoreError::Shard(ShardError::DuplicateShard));
        }
        let file = ShardFile { size: shard.size, checksum, verified: false };
        let ghost view = file@;
        shards.insert(shard.name.clone(), file);
        assert(shard_views(shards@) =~= before.insert(shard.name@, view));
        i += 1;
    }
    Ok(shards)
}

/// A fault among the first shards is the fault of all of them.
proof fn lemma_shards_stop(
    root: Seq<char>,
    raw: Seq<RawShard>,
    files: Seq<Option<u64>>,
    count: int,
    all: int,
)
    requires
        0 <= count <= all,
    ensures
        shards_of(root, raw, files, count) is Err ==> shards_of(root, raw, files, all) == shards_of(
            root,
            raw,
            files,
            count,
        ),
    decreases all,
{
    if count < all {
        lemma_shards_stop(root, raw, files, count, all - 1);
    }
}

/// A fault among the first tensors is the fault of all of them.
proof fn lemma_entries_stop(
    raw: Seq<RawEntry>,
    alignment: usize,
    shards: Map<Seq<char>, ShardFileView>,
    count: int,
    all: int,
)
    requires
        0 <= count <= all,
    ensures
        entries_of(raw, alignment, shards, count) is Err ==> entries_of(raw, alignment, shards, all)
            == entries_of(raw, alignment, shards, count),
    decreases all,
{
    if count < all {
        lemma_entries_stop(raw, alignment, shards, count, all - 1);
    }
}

/// Reads the index of a directory. Of each shard, `files` holds the length of the
/// file, or nothing where the file could not be opened.
pub fn open_contract(root: &str, raw: &RawIndex, files: &[Option<u64>]) -> (result: Result<
    ContractStore,
    StoreError,
>)
    requires
        files@.len() == raw.shards@.len(),
    ensures
        match result {
            Ok(contract) => contract.wf() && contract_of(root@, *raw, files@) == Ok::<
                ContractView,
                StoreErrorView,
            >(contract@),
            Err(error) => contract_of(root@, *raw, files@) == Err::<ContractView, StoreErrorView>(
                error@,
            ),
        },
{
    if !same_text(raw.format.as_str(), "vectorchord.tilemaxsim.shards") || raw.version != 1 {
        return Err(StoreError::Shard(ShardError::UnsupportedIndex));
    }
    if !is_power_of_two(raw.alignment) {
        return Err(StoreError::Shard(ShardError::Alignment));
    }
    let shards: Table<ShardFile> = open_shards(root, &raw.shards, files)?;
    let ghost files_view = shard_views(shards@);
    let mut entries: Table<Entry> = Table::new();
    let mut i: usize = 0;
    assert(entry_views(entries@) =~= Map::<Seq<char>, EntryPlace>::empty());
    while i < raw.entries.len()
        invariant
            i <= raw.entries@.len(),
            raw.alignment > 0,
            shards.wf(),
            files_view == shard_views(shards@),
            index_fault(raw.format@, raw.version, raw.alignment) is None,
            shards_of(root@, raw.shards@, files@, raw.shards@.len() as int) == Ok::<
                Map<Seq<char>, ShardFileView>,
                StoreErrorView,
            >(files_view),
            entries.wf(),
            entries_of(raw.entries@, raw.alignment, files_view, i as int) == Ok::<
                Map<Seq<char>, EntryPlace>,
                ShardError,
            >(entry_views(entries@)),
            (ContractView { shards: files_view, entries: entry_views(entries@) }).wf(),
        decreases raw.entries@.len() - i,
    {
        let ghost before = entry_views(entries@);
        let entry: &RawEntry = &raw.entries[i];
        proof {
            lemma_entries_stop(
                raw.entries@,
                raw.alignment,
                files_view,
                i as int + 1,
                raw.entries@.len() as int,
            );
        }
        let place: Entry = match check_entry(entry, raw.alignment, &shards) {
            Ok(place) => place,
            Err(error) => {
                return Err(StoreError::Shard(error));
            },
        };
        if entries.get(entry.digest.as_str()).is_some() {
            return Err(StoreError::Shard(ShardError::DuplicateEntry));
        }
        let ghost view = place@;
        entries.insert(entry.digest.clone(), place);
        proof {
            let after = entry_views(entries@);
            assert(after =~= before.insert(entry.digest@, view));
            let old_contract = ContractView { shards: files_view, entries: before };
            assert forall|digest: Seq<char>| #[trigger] after.contains_key(digest) implies files_view.contains_key(
                after[digest].shard,
            ) && after[digest].offset + after[digest].length <= files_view[after[digest].shard].size by {
                if digest != entry.digest@ {
                    assert(old_contract.entries.contains_key(digest));
                }
            }
        }
        i += 1;
    }
    Ok(ContractStore { shards, entries })
}

/// The alignment of an index is a power of two.
pub proof fn alignments_are_powers_of_two(value: nat) -> (exponent: nat)
    requires
        power_of_two(value),
    ensures
        value == vstd::arithmetic::power2::pow2(exponent),
    decreases value,
{
    vstd::arithmetic::power2::lemma2_to64();
    if value == 1 {
        0
    } else {
        let half = alignments_are_powers_of_two(value / 2);
        vstd::arithmetic::power2::lemma_pow2_unfold(half + 1);
        half + 1
    }
}

/// Every power of two is an alignment.
pub proof fn powers_of_two_are_alignments(exponent: nat)
    ensures
        power_of_two(vstd::arithmetic::power2::pow2(exponent)),
    decreases exponent,
{
    vstd::arithmetic::power2::lemma2_to64();
    if exponent > 0 {
        vstd::arithmetic::power2::lemma_pow2_unfold(exponent);
        vstd::arithmetic::power2::lemma_pow2_pos((exponent - 1) as nat);
        powers_of_two_are_alignments((exponent - 1) as nat);
    }
}

/// Every tensor of a sound index is found under its digest where the index says: aligned,
/// in a shard that is there, with the bytes of its shape, and within the shard. No digest
/// stands twice, and nothing else is found.
pub proof fn indexed_tensors_are_found(
    raw: Seq<RawEntry>,
    alignment: usize,
    shards: Map<Seq<char>, ShardFileView>,
    count: int,
    i: int,
)
    requires
        0 <= i < count <= raw.len(),
        entries_of(raw, alignment, shards, count) is Ok,
    ensures
        ({
            let entries = entries_of(raw, alignment, shards, count)->Ok_0;
            let entry = entries[raw[i].digest@];
            &&& entries.contains_key(raw[i].digest@)
            &&& entry.shard == raw[i].shard@
            &&& entry.offset == raw[i].offset
            &&& entry.length == raw[i].length
            &&& entry.rows == raw[i].rows
            &&& entry.dimension == raw[i].dimension
            &&& entry.dtype == 1 && raw[i].dtype@ == "float32"@ && entry.length == raw[i].rows
                * raw[i].dimension * 4 || entry.dtype == 2 && raw[i].dtype@ == "float16"@
                && entry.length == raw[i].rows * raw[i].dimension * 2
            &&& raw[i].offset as int % alignment as int == 0
            &&& shards.contains_key(raw[i].shard@)
            &&& raw[i].offset + raw[i].length <= shards[raw[i].shard@].size
            &&& forall|j: int| 0 <= j < count && j != i ==> (#[trigger] raw[j]).digest@ != raw[i].digest@
        }),
    decreases count,
{
    let last = count - 1;
    lemma_entry_digests(raw, alignment, shards, last);
    if i < last {
        indexed_tensors_are_found(raw, alignment, shards, last, i);
        assert(raw[last].digest@ != raw[i].digest@);
    } else {
        assert forall|j: int| 0 <= j < count && j != i implies (#[trigger] raw[j]).digest@
            != raw[i].digest@ by {
            assert(entries_of(raw, alignment, shards, last)->Ok_0.contains_key(raw[j].digest@));
        }
    }
}

proof fn lemma_entry_digests(
    raw: Seq<RawEntry>,
    alignment: usize,
    shards: Map<Seq<char>, ShardFileView>,
    count: int,
)
    requires
        0 <= count <= raw.len(),
        entries_of(raw, alignment, shards, count) is Ok,
    ensures
        forall|j: int|
            0 <= j < count ==> entries_of(raw, alignment, shards, count)->Ok_0.contains_key(
                (#[trigger] raw[j]).digest@,
            ),
    decreases count,
{
    if count > 0 {
        lemma_entry_digests(raw, alignment, shards, count - 1);
    }
}

/// Every shard of a sound index is there under its name, which is that of its digest, with
/// the size of its file.
pub proof fn indexed_shards_are_their_files(
    root: Seq<char>,
    raw: Seq<RawShard>,
    files: Seq<Option<u64>>,
    count: int,
    i: int,
)
    requires
        0 <= i < count <= raw.len(),
        shards_of(root, raw, files, count) is Ok,
    ensures
        ({
            let shards = shards_of(root, raw, files, count)->Ok_0;
            let shard = shards[raw[i].name@];
            &&& shards.contains_key(raw[i].name@)
            &&& files[i] is Some && files[i]->0 == raw[i].size
            &&& shard.size == raw[i].size
            &&& !shard.verified
            &&& raw[i].name@ == "shards/sha256-"@ + shard.checksum + ".vts"@
            &&& raw[i].checksum@ == "sha256:"@ + shard.checksum
            &&& all_lower_hex(encode_utf8(shard.checksum))
        }),
    decreases count,
{
    let last = count - 1;
    if i < last {
        indexed_shards_are_their_files(root, raw, files, last, i);
    } else {
        let digest = checksum_digest(raw[i].checksum@)->0;
        assert("sha256:"@ + digest =~= raw[i].checksum@);
    }
}

} // verus!
