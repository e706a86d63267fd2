//! Which tensors of a request are on which device, and which have to be brought
//! there.
//!
//! A request is served in steps. Those of its tensors that are resident are
//! scored first. The others are resolved, encoded and brought to the devices in
//! chunks, as many at a time as fit, and each chunk is scored before the next.
//! The devices themselves, the uploads and the scores are the caller's.

use crate::cache::{
    admission_keeps_used_entries, admits, Admission, AdmissionRequest, AdmissionRequestView, CacheEntry,
    CacheView, EntryView, GpuCache, usage_weight,
};
use crate::protocol::{Descriptor, Request, ScoringProfile};
use crate::quant::{QuantError, QuantizationRegistry};
use crate::shard::{ContractStore, StoreError};
use crate::shard_store::{contracts_of, ShardStore, StoreView};
use crate::table::{total, Table};
use crate::tensors::{
    entry_fault, gpu_cache_key, gpu_key, scalar_size, validate_entry, EngineError,
};
use vstd::prelude::*;

verus! {

/// A tensor that is to be brought to a device: the candidate it is of, and what
/// it takes up there.
pub struct MissingTensor {
    pub candidate_index: usize,
    pub key: String,
    pub payload_bytes: usize,
    pub rows: u32,
    pub dimension: u32,
    pub dtype: u8,
}

/// A tensor in use on a device.
pub struct ResidentTensor {
    pub candidate_index: usize,
    pub device: usize,
    pub key: String,
    pub offset: u64,
    pub rows: u32,
    /// Whether the tensor leaves the device once it was scored.
    pub transient: bool,
    /// Whether the tensor got its pages for this request and is not loaded yet.
    pub newly_admitted: bool,
}

pub struct ResidentView {
    pub candidate_index: usize,
    pub device: usize,
    pub key: Seq<char>,
    pub offset: u64,
    pub rows: u32,
    pub transient: bool,
    pub newly_admitted: bool,
}

impl View for ResidentTensor {
    type V = ResidentView;

    open spec fn view(&self) -> ResidentView {
        ResidentView {
            candidate_index: self.candidate_index,
            device: self.device,
            key: self.key@,
            offset: self.offset,
            rows: self.rows,
            transient: self.transient,
            newly_admitted: self.newly_admitted,
        }
    }
}

/// The tensors of a list.
pub open spec fn chunk_view(chunk: Seq<ResidentTensor>) -> Seq<ResidentView> {
    Seq::new(chunk.len(), |i: int| chunk[i]@)
}

/// The tensors of each device.
pub open spec fn chunk_views(chunks: Seq<Vec<ResidentTensor>>) -> Seq<Seq<ResidentView>> {
    Seq::new(chunks.len(), |d: int| chunk_view(chunks[d]@))
}

/// No tensors, device by device.
pub open spec fn no_tensors(count: nat) -> Seq<Seq<ResidentView>> {
    Seq::new(count, |d: int| Seq::<ResidentView>::empty())
}

/// A device: what its arena holds, and what was sent to it.
pub struct DeviceState {
    pub cache: GpuCache,
    pub h2d_batches: u64,
    pub h2d_bytes: u64,
}

/// The caches of devices.
pub open spec fn cache_views(devices: Seq<DeviceState>) -> Seq<CacheView> {
    Seq::new(devices.len(), |d: int| devices[d].cache@)
}

/// Whether the counters of a cache, and the references to its entries, have room
/// for `count` more.
pub open spec fn cache_room(cache: GpuCache, count: int) -> bool {
    &&& cache@.hits + count < u64::MAX
    &&& cache@.misses + count < u64::MAX
    &&& cache@.evictions + cache.entry_number() + count < u64::MAX
    &&& cache@.admission_rejections + count < u64::MAX
    &&& count < usize::MAX
    &&& forall|key: Seq<char>| #[trigger]
        cache@.entries.contains_key(key) ==> cache@.entries[key].references + count < usize::MAX
}

/// Tests whether the counters of a cache have room for `count` more.
fn counts_fit(cache: &GpuCache, count: usize) -> (result: bool)
    requires
        cache.wf(),
    ensures
        result == cache_room(*cache, count as int),
{
    let (hits, misses, evictions, rejections): (u64, u64, u64, u64) = cache.counters();
    let most: u128 = cache.most_references() as u128;
    let more: u128 = count as u128;
    let limit: u128 = u64::MAX as u128;
    count < usize::MAX && hits as u128 + more < limit && misses as u128 + more < limit
        && evictions as u128 + cache.entry_count() as u128 + more < limit && rejections as u128 + more
        < limit && most + more < usize::MAX as u128
}

/// The devices, the shards, and the device that gets the next tensor.
pub struct Engine {
    pub devices: Vec<DeviceState>,
    pub store: ShardStore,
    pub next_device: usize,
    pub quantization_registry: Option<QuantizationRegistry>,
}

/// What a request needs before its tensors are looked up.
#[derive(Clone, Copy, Debug, PartialEq, Eq, Structural)]
pub enum RequestGate {
    /// The quantizer has to be resolved first.
    Resolve,
    /// There is nothing to score.
    Empty,
    /// The tensors can be looked up.
    Score,
}

/// What a request needs, or why it is refused.
pub open spec fn gate_of(
    profile: ScoringProfile,
    has_contract: bool,
    candidates: nat,
    has_registry: bool,
) -> Result<RequestGate, EngineError> {
    match profile {
        ScoringProfile::Pq | ScoringProfile::OpqRpq => if !has_contract {
            Err(EngineError::NoContract)
        } else if candidates == 0 {
            Err(EngineError::NoCandidates)
        } else if !has_registry {
            Err(EngineError::NoRegistry)
        } else {
            Ok(RequestGate::Resolve)
        },
        ScoringProfile::RawFp8E4m3 => Err(EngineError::ProfileDisabled(profile)),
        _ => if candidates == 0 {
            Ok(RequestGate::Empty)
        } else {
            Ok(RequestGate::Score)
        },
    }
}

/// The answer to a request for a quantized profile, once its quantizer was
/// resolved: no such profile is enabled.
pub fn refuse_quantized(profile: ScoringProfile, resolution: Result<(), QuantError>) -> (error: EngineError)
    ensures
        error == (match resolution {
            Ok(()) => EngineError::ProfileDisabled(profile),
            Err(error) => EngineError::Quantizer(error),
        }),
{
    match resolution {
        Ok(()) => EngineError::ProfileDisabled(profile),
        Err(error) => EngineError::Quantizer(error),
    }
}

/// The keys of the candidates on a device.
pub open spec fn candidate_keys(
    candidates: Seq<Descriptor>,
    profile: ScoringProfile,
    contract: Option<Seq<char>>,
) -> Seq<Seq<char>> {
    Seq::new(candidates.len(), |i: int| gpu_key(profile, contract, candidates[i]@))
}

/// Where a key first occurs among the first `count` keys.
pub open spec fn first_index(keys: Seq<Seq<char>>, key: Seq<char>, count: int) -> Option<int>
    decreases count,
{
    if count <= 0 {
        None
    } else {
        match first_index(keys, key, count - 1) {
            Some(at) => Some(at),
            None => if keys[count - 1] == key {
                Some(count - 1)
            } else {
                None
            },
        }
    }
}

/// The first device, from `from` on, on which a tensor is loaded.
pub open spec fn hit_device(caches: Seq<CacheView>, key: Seq<char>, from: int) -> Option<int>
    decreases caches.len() - from,
{
    if from >= caches.len() {
        None
    } else if caches[from].visible(key) {
        Some(from)
    } else {
        hit_device(caches, key, from + 1)
    }
}

/// Which candidates are resident, which have to be brought to a device, and
/// which repeat an earlier candidate.
pub struct HitPlanView {
    pub hits: Seq<Seq<ResidentView>>,
    pub missing: Seq<int>,
    pub duplicates: Seq<(int, int)>,
}

/// A resident candidate.
pub open spec fn resident(index: int, device: int, key: Seq<char>, entry: EntryView) -> ResidentView {
    ResidentView {
        candidate_index: index as usize,
        device: device as usize,
        key,
        offset: entry.offset,
        rows: entry.rows,
        transient: false,
        newly_admitted: false,
    }
}

/// The plan for the first `count` candidates, or the first fault among them.
pub open spec fn hit_plan(
    caches: Seq<CacheView>,
    candidates: Seq<Descriptor>,
    profile: ScoringProfile,
    contract: Option<Seq<char>>,
    count: int,
) -> Result<HitPlanView, EngineError>
    decreases count,
{
    if count <= 0 {
        Ok(
            HitPlanView {
                hits: no_tensors(caches.len()),
                missing: Seq::empty(),
                duplicates: Seq::empty(),
            },
        )
    } else {
        match hit_plan(caches, candidates, profile, contract, count - 1) {
            Err(error) => Err(error),
            Ok(before) => {
                let index = count - 1;
                let keys = candidate_keys(candidates, profile, contract);
                let key = keys[index];
                match first_index(keys, key, index) {
                    Some(first) => Ok(
                        HitPlanView { duplicates: before.duplicates.push((index, first)), ..before },
                    ),
                    None => match hit_device(caches, key, 0) {
                        Some(device) => {
                            let entry = caches[device].entries[key];
                            match entry_fault(candidates[index]@, entry, profile) {
                                Some(error) => Err(error),
                                None => Ok(
                                    HitPlanView {
                                        hits: before.hits.update(
                                            device,
                                            before.hits[device].push(
                                                resident(index, device, key, entry),
                                            ),
                                        ),
                                        ..before
                                    },
                                ),
                            }
                        },
                        None => Ok(HitPlanView { missing: before.missing.push(index), ..before }),
                    },
                }
            },
        }
    }
}

/// How often a key occurs among tensors.
pub open spec fn uses(chunk: Seq<ResidentView>, key: Seq<char>) -> nat
    decreases chunk.len(),
{
    if chunk.len() == 0 {
        0
    } else {
        uses(chunk.drop_last(), key) + if chunk.last().key == key {
            1nat
        } else {
            0nat
        }
    }
}

/// Whether a cache holds the same tensors in the same places, each with as many
/// more references as it has uses among `chunk`. Only the ranks and the sketch
/// may differ besides, and the hits and misses are those given.
pub open spec fn in_use(
    before: CacheView,
    after: CacheView,
    chunk: Seq<ResidentView>,
    misses: int,
) -> bool {
    &&& after.entries.dom() == before.entries.dom()
    &&& forall|key: Seq<char>| #[trigger]
        after.entries.contains_key(key) ==> after.entries[key] == (EntryView {
            references: after.entries[key].references,
            rank: after.entries[key].rank,
            ..before.entries[key]
        }) && after.entries[key].references == before.entries[key].references + uses(chunk, key)
    &&& after.hits == before.hits + chunk.len()
    &&& after.misses == before.misses + misses
    &&& after == (CacheView {
        entries: after.entries,
        sketch: after.sketch,
        hits: after.hits,
        misses: after.misses,
        ..before
    })
}

/// Which candidates are resident, which have to be brought to a device, and
/// which repeat an earlier candidate.
pub struct HitPlan {
    pub hits: Vec<Vec<ResidentTensor>>,
    pub missing: Vec<usize>,
    pub duplicates: Vec<(usize, usize)>,
}

impl View for HitPlan {
    type V = HitPlanView;

    open spec fn view(&self) -> HitPlanView {
        HitPlanView {
            hits: chunk_views(self.hits@),
            missing: Seq::new(self.missing@.len(), |i: int| self.missing@[i] as int),
            duplicates: Seq::new(
                self.duplicates@.len(),
                |i: int| (self.duplicates@[i].0 as int, self.duplicates@[i].1 as int),
            ),
        }
    }
}

/// A copy of a table of sizes.
fn copy_sizes(sizes: &Table<usize>) -> (copy: Table<usize>)
    requires
        sizes.wf(),
    ensures
        copy.wf(),
        copy@ == sizes@,
        copy.slots() == sizes.slots(),
{
    let mut copy: Table<usize> = Table::new();
    let mut i: usize = 0;
    proof {
        sizes.lemma_slots();
        copy.lemma_slots();
        assert(copy.slots() =~= sizes.slots().take(0));
        assert(copy.names() =~= sizes.names().take(0));
    }
    while i < sizes.len()
        invariant
            i <= sizes.slots().len(),
            sizes.wf(),
            copy.wf(),
            sizes.names().len() == sizes.slots().len(),
            copy.slots() == sizes.slots().take(i as int),
            copy.names() == sizes.names().take(i as int),
        decreases sizes.slots().len() - i,
    {
        let ghost before = copy;
        let ghost name = sizes.names()[i as int];
        proof {
            sizes.lemma_slots();
            copy.lemma_slots();
            if copy@.contains_key(name) {
                let at = copy.slot_of(name);
                assert(sizes.names()[at] == name);
                assert(sizes.slot_of(sizes.names()[at]) == at);
                assert(sizes.slot_of(sizes.names()[i as int]) == i);
            }
        }
        copy.insert(sizes.key(i).clone(), *sizes.value(i));
        proof {
            assert(copy.slots() =~= sizes.slots().take(i + 1));
            assert(copy.names() =~= sizes.names().take(i + 1));
        }
        i += 1;
    }
    proof {
        sizes.lemma_slots();
        copy.lemma_slots();
        assert(copy.slots() =~= sizes.slots());
        assert(copy.names() =~= sizes.names());
        assert forall|key: Seq<char>| #[trigger] sizes@.contains_key(key) implies copy@.contains_key(
            key,
        ) && copy@[key] == sizes@[key] by {
            assert(copy.names()[sizes.slot_of(key)] == key);
        }
        assert forall|key: Seq<char>| #[trigger] copy@.contains_key(key) implies sizes@.contains_key(
            key,
        ) by {
            assert(sizes.names()[copy.slot_of(key)] == key);
        }
        assert(copy@ =~= sizes@);
    }
    copy
}

/// Why an arena of `capacity` bytes cannot be had.
pub open spec fn arena_fault(
    capacity: usize,
    block_bytes: usize,
    tenant_max_percent: u8,
    pinned_max_percent: u8,
    reservations: Seq<usize>,
) -> Option<Seq<char>> {
    if tenant_max_percent == 0 || tenant_max_percent > 100 || pinned_max_percent > 100 || total(
        reservations,
        usage_weight(),
    ) > capacity {
        Some("invalid GPU tenant cache policy"@)
    } else if capacity == 0 || block_bytes == 0 || block_bytes % 256 != 0 {
        Some("invalid fixed-block arena"@)
    } else if capacity < block_bytes {
        Some("fixed-block arena is too small"@)
    } else {
        None
    }
}

/// Empty lists, one for each device.
pub(crate) fn empty_chunks(count: usize) -> (chunks: Vec<Vec<ResidentTensor>>)
    ensures
        chunk_views(chunks@) == no_tensors(count as nat),
{
    let mut chunks: Vec<Vec<ResidentTensor>> = Vec::new();
    let mut d: usize = 0;
    while d < count
        invariant
            d <= count,
            chunks@.len() == d,
            forall|e: int| 0 <= e < d ==> (#[trigger] chunks@[e])@.len() == 0,
        decreases count - d,
    {
        chunks.push(Vec::new());
        d += 1;
    }
    proof {
        assert forall|e: int| 0 <= e < count implies chunk_views(chunks@)[e] == no_tensors(
            count as nat,
        )[e] by {
            assert(chunk_view(chunks@[e]@) =~= Seq::<ResidentView>::empty());
        }
        assert(chunk_views(chunks@) =~= no_tensors(count as nat));
    }
    chunks
}

/// Adds a tensor to the list of its device.
fn add_resident(chunks: &mut Vec<Vec<ResidentTensor>>, tensor: ResidentTensor)
    requires
        tensor.device < old(chunks)@.len(),
    ensures
        chunk_views(final(chunks)@) == chunk_views(old(chunks)@).update(
            tensor.device as int,
            chunk_views(old(chunks)@)[tensor.device as int].push(tensor@),
        ),
{
    let ghost before = chunks@;
    let ghost view = tensor@;
    let device: usize = tensor.device;
    chunks[device].push(tensor);
    proof {
        assert(chunk_view(chunks@[device as int]@) =~= chunk_view(before[device as int]@).push(view));
        assert(chunk_views(chunks@) =~= chunk_views(before).update(
            device as int,
            chunk_views(before)[device as int].push(view),
        ));
    }
}

/// Where a key first occurs, it occurs and did not occur before.
pub proof fn lemma_first_index(keys: Seq<Seq<char>>, key: Seq<char>, count: int)
    requires
        0 <= count <= keys.len(),
    ensures
        match first_index(keys, key, count) {
            Some(at) => 0 <= at < count && keys[at] == key,
            None => forall|i: int| 0 <= i < count ==> #[trigger] keys[i] != key,
        },
    decreases count,
{
    if count > 0 {
        lemma_first_index(keys, key, count - 1);
    }
}

/// Where a tensor is loaded does not depend on references and ranks.
pub proof fn lemma_hit_device(before: Seq<CacheView>, after: Seq<CacheView>, key: Seq<char>, from: int)
    requires
        before.len() == after.len(),
        0 <= from <= before.len(),
        forall|d: int|
            0 <= d < before.len() ==> (#[trigger] before[d]).visible(key) == after[d].visible(key),
    ensures
        hit_device(before, key, from) == hit_device(after, key, from),
        match hit_device(before, key, from) {
            Some(d) => from <= d < before.len() && before[d].visible(key),
            None => true,
        },
    decreases before.len() - from,
{
    if from < before.len() {
        assert(before[from].visible(key) == after[from].visible(key));
        lemma_hit_device(before, after, key, from + 1);
    }
}

/// A fault among the first candidates is the fault of the plan.
proof fn lemma_plan_stops(
    caches: Seq<CacheView>,
    candidates: Seq<Descriptor>,
    profile: ScoringProfile,
    contract: Option<Seq<char>>,
    count: int,
    all: int,
)
    requires
        0 <= count <= all,
    ensures
        hit_plan(caches, candidates, profile, contract, count) is Err ==> hit_plan(
            caches,
            candidates,
            profile,
            contract,
            all,
        ) == hit_plan(caches, candidates, profile, contract, count),
    decreases all,
{
    if count < all {
        lemma_plan_stops(caches, candidates, profile, contract, count, all - 1);
    }
}

/// One more use of a key.
proof fn lemma_uses_push(chunk: Seq<ResidentView>, tensor: ResidentView)
    ensures
        forall|key: Seq<char>| #[trigger]
            uses(chunk.push(tensor), key) == uses(chunk, key) + if tensor.key == key {
                1nat
            } else {
                0nat
            },
{
    assert(chunk.push(tensor).drop_last() =~= chunk);
}

impl Engine {
    /// There is a device, and the parts are well-formed.
    pub open spec fn wf(&self) -> bool {
        &&& self.next_device < self.devices@.len()
        &&& forall|d: int| 0 <= d < self.devices@.len() ==> (#[trigger] self.devices@[d]).cache.wf()
        &&& self.store.wf()
    }

    /// Whether every device has room for `count` more accesses.
    pub open spec fn room(&self, count: int) -> bool {
        forall|d: int|
            0 <= d < self.devices@.len() ==> cache_room((#[trigger] self.devices@[d]).cache, count)
    }

    /// Tests whether every device has room for `count` more accesses.
    pub fn has_room(&self, count: usize) -> (result: bool)
        requires
            self.wf(),
        ensures
            result == self.room(count as int),
    {
        let mut d: usize = 0;
        while d < self.devices.len()
            invariant
                self.wf(),
                d <= self.devices@.len(),
                forall|e: int|
                    0 <= e < d ==> cache_room((#[trigger] self.devices@[e]).cache, count as int),
            decreases self.devices@.len() - d,
        {
            assert(self.devices@[d as int].cache.wf());
            if !counts_fit(&self.devices[d].cache, count) {
                return false;
            }
            d += 1;
        }
        true
    }

    /// An engine over devices with arenas of the given sizes.
    pub fn new(
        tensor_bytes: &[usize],
        block_bytes: usize,
        store: ShardStore,
        tenant_cache_max_percent: u8,
        pinned_cache_max_percent: u8,
        tenant_reservations: &Table<usize>,
        quantization_registry: Option<QuantizationRegistry>,
    ) -> (result: Result<Engine, EngineError>)
        requires
            store.wf(),
            tenant_reservations.wf(),
            forall|d: int|
                0 <= d < tensor_bytes@.len() ==> (#[trigger] tensor_bytes@[d]) * 100 <= usize::MAX,
        ensures
            match result {
                Ok(engine) => {
                    &&& tensor_bytes@.len() > 0
                    &&& engine.wf()
                    &&& engine.store == store
                    &&& engine.next_device == 0
                    &&& engine.quantization_registry == quantization_registry
                    &&& engine.devices@.len() == tensor_bytes@.len()
                    &&& forall|d: int|
                        0 <= d < engine.devices@.len() ==> arena_fault(
                            tensor_bytes@[d],
                            block_bytes,
                            tenant_cache_max_percent,
                            pinned_cache_max_percent,
                            tenant_reservations.slots(),
                        ) is None && (#[trigger] engine.devices@[d]).cache@ == CacheView::fresh(
                            tensor_bytes@[d],
                            block_bytes,
                            tenant_cache_max_percent,
                            pinned_cache_max_percent,
                            tenant_reservations@,
                        ) && engine.devices@[d].cache.entry_number() == 0 && engine.devices@[d].cache.exact() && engine.devices@[d].h2d_batches == 0
                            && engine.devices@[d].h2d_bytes == 0
                },
                Err(error) => if tensor_bytes@.len() == 0 {
                    error == EngineError::NoDevice
                } else {
                    exists|d: int|
                        0 <= d < tensor_bytes@.len() && error is Cache && arena_fault(
                            #[trigger] tensor_bytes@[d],
                            block_bytes,
                            tenant_cache_max_percent,
                            pinned_cache_max_percent,
                            tenant_reservations.slots(),
                        ) == Some(error->Cache_0@) && forall|e: int|
                            0 <= e < d ==> arena_fault(
                                #[trigger] tensor_bytes@[e],
                                block_bytes,
                                tenant_cache_max_percent,
                                pinned_cache_max_percent,
                                tenant_reservations.slots(),
                            ) is None
                },
            },
    {
        if tensor_bytes.len() == 0 {
            return Err(EngineError::NoDevice);
        }
        let mut devices: Vec<DeviceState> = Vec::new();
        let mut d: usize = 0;
        while d < tensor_bytes.len()
            invariant
                d <= tensor_bytes@.len(),
                tensor_bytes@.len() > 0,
                devices@.len() == d,
                tenant_reservations.wf(),
                forall|d: int|
                    0 <= d < tensor_bytes@.len() ==> (#[trigger] tensor_bytes@[d]) * 100
                        <= usize::MAX,
                forall|e: int|
                    0 <= e < d ==> arena_fault(
                        #[trigger] tensor_bytes@[e],
                        block_bytes,
                        tenant_cache_max_percent,
                        pinned_cache_max_percent,
                        tenant_reservations.slots(),
                    ) is None,
                forall|e: int|
                    0 <= e < d ==> (#[trigger] devices@[e]).cache.wf() && devices@[e].cache@
                        == CacheView::fresh(
                        tensor_bytes@[e],
                        block_bytes,
                        tenant_cache_max_percent,
                        pinned_cache_max_percent,
                        tenant_reservations@,
                    ) && devices@[e].cache.entry_number() == 0 && devices@[e].cache.exact() && devices@[e].h2d_batches == 0
                        && devices@[e].h2d_bytes == 0,
            decreases tensor_bytes@.len() - d,
        {
            let capacity: usize = tensor_bytes[d];
            assert(tensor_bytes@[d as int] == capacity);
            assert(capacity * 100 <= usize::MAX);
            assert(tenant_cache_max_percent <= 100 ==> capacity * tenant_cache_max_percent <= capacity
                * 100) by (nonlinear_arith);
            assert(pinned_cache_max_percent <= 100 ==> capacity * pinned_cache_max_percent <= capacity
                * 100) by (nonlinear_arith);
            let made: Result<GpuCache, &'static str> = GpuCache::new_with_limits(
                capacity,
                block_bytes,
                tenant_cache_max_percent,
                pinned_cache_max_percent,
                copy_sizes(tenant_reservations),
            );
            match made {
                Ok(cache) => {
                    devices.push(DeviceState { cache, h2d_batches: 0, h2d_bytes: 0 });
                },
                Err(message) => {
                    return Err(EngineError::Cache(message));
                },
            }
            d += 1;
        }
        Ok(Engine { devices, store, next_device: 0, quantization_registry })
    }

    /// Publishes a new generation of the shards.
    pub fn reload_shards(&mut self, indexes: Vec<Result<ContractStore, StoreError>>) -> (result: Result<
        (),
        StoreError,
    >)
        requires
            old(self).wf(),
            indexes@.len() == old(self).store@.roots.len(),
            forall|i: int|
                0 <= i < indexes@.len() ==> ((#[trigger] indexes@[i]) is Ok
                    ==> indexes@[i]->Ok_0.wf()),
        ensures
            final(self).wf(),
            final(self).devices == old(self).devices,
            final(self).next_device == old(self).next_device,
            final(self).quantization_registry == old(self).quantization_registry,
            match contracts_of(
                old(self).store@.roots,
                indexes@,
                old(self).store@.roots.len() as int,
            ) {
                Ok(contracts) => result is Ok && contracts.dom() == old(self).store@.contracts.dom()
                    && final(self).store@ == (StoreView { contracts, ..old(self).store@ }),
                Err(error) => result is Err && result->Err_0@ == error && final(self).store@ == old(
                    self,
                ).store@,
            },
    {
        self.store.reload(indexes)
    }

    /// What a request needs before its tensors are looked up.
    pub fn gate(&self, request: &Request) -> (result: Result<RequestGate, EngineError>)
        ensures
            result == gate_of(
                request.scoring_profile,
                request.quantization_contract is Some,
                request.candidates@.len(),
                self.quantization_registry is Some,
            ),
    {
        match request.scoring_profile {
            ScoringProfile::Pq | ScoringProfile::OpqRpq => {
                if request.quantization_contract.is_none() {
                    return Err(EngineError::NoContract);
                }
                if request.candidates.len() == 0 {
                    return Err(EngineError::NoCandidates);
                }
                if self.quantization_registry.is_none() {
                    return Err(EngineError::NoRegistry);
                }
                Ok(RequestGate::Resolve)
            },
            ScoringProfile::RawFp8E4m3 => Err(
                EngineError::ProfileDisabled(ScoringProfile::RawFp8E4m3),
            ),
            _ => if request.candidates.len() == 0 {
                Ok(RequestGate::Empty)
            } else {
                Ok(RequestGate::Score)
            },
        }
    }

    /// The first device on which a tensor is loaded.
    pub(crate) fn find_hit(&self, key: &str) -> (result: Option<usize>)
        requires
            self.wf(),
        ensures
            match result {
                Some(d) => hit_device(cache_views(self.devices@), key@, 0) == Some(d as int) && d
                    < self.devices@.len() && self.devices@[d as int].cache@.visible(key@),
                None => hit_device(cache_views(self.devices@), key@, 0) is None,
            },
    {
        let mut d: usize = 0;
        while d < self.devices.len()
            invariant
                d <= self.devices@.len(),
                self.wf(),
                hit_device(cache_views(self.devices@), key@, 0) == hit_device(
                    cache_views(self.devices@),
                    key@,
                    d as int,
                ),
            decreases self.devices@.len() - d,
        {
            assert(self.devices@[d as int].cache.wf());
            if self.devices[d].cache.contains(key) {
                return Some(d);
            }
            d += 1;
        }
        None
    }
}

/// The misses that planning counts on a device: those of the tensors that have to
/// be brought to one, on the device that gets the next tensor.
pub open spec fn misses_on(device: int, next_device: int, plan: HitPlanView) -> int {
    if device == next_device {
        plan.missing.len() as int
    } else {
        0
    }
}

/// Whether the caches are as a plan leaves them.
pub open spec fn planned_use(
    before: Seq<CacheView>,
    after: Seq<CacheView>,
    next_device: int,
    plan: HitPlanView,
) -> bool {
    &&& after.len() == before.len()
    &&& forall|d: int|
        0 <= d < after.len() ==> in_use(
            before[d],
            #[trigger] after[d],
            plan.hits[d],
            misses_on(d, next_device, plan),
        )
}

/// Whether the caches are as planning leaves them where the entry of candidate
/// `index` does not fit: it was looked up, and stays in use.
pub open spec fn stopped_at<W: Fn(u64, u16, usize) -> u64>(
    weigh: W,
    before: Seq<CacheView>,
    after: Seq<CacheView>,
    next_device: int,
    candidates: Seq<Descriptor>,
    profile: ScoringProfile,
    contract: Option<Seq<char>>,
    index: int,
) -> bool {
    let plan = hit_plan(before, candidates, profile, contract, index)->Ok_0;
    let key = candidate_keys(candidates, profile, contract)[index];
    let device = hit_device(before, key, 0)->0;
    &&& 0 <= index < candidates.len()
    &&& hit_plan(before, candidates, profile, contract, index) is Ok
    &&& planned_use(
        before,
        after,
        next_device,
        HitPlanView {
            hits: plan.hits.update(
                device,
                plan.hits[device].push(
                    resident(index, device, key, before[device].entries[key]),
                ),
            ),
            ..plan
        },
    )
    &&& looked_up(
        weigh,
        before,
        next_device,
        candidate_keys(candidates, profile, contract),
        index + 1,
        after,
    )
}

/// A cache that noted a miss.
pub open spec fn missed(cache: CacheView, key: Seq<char>) -> CacheView {
    CacheView {
        sketch: cache.sketch.counted(key),
        misses: (cache.misses + 1) as u64,
        ..cache
    }
}

/// A cache in which a loaded tensor was looked up: it is in use once more, and has
/// the given rank.
pub open spec fn hit(cache: CacheView, key: Seq<char>, rank: u64) -> CacheView {
    let entry = cache.entries[key];
    CacheView {
        sketch: cache.sketch.counted(key),
        entries: cache.entries.insert(
            key,
            EntryView { references: (entry.references + 1) as usize, rank, ..entry },
        ),
        hits: (cache.hits + 1) as u64,
        ..cache
    }
}

/// Candidate `index` was looked up. One that repeats an earlier candidate is not
/// counted. A hit is counted on the device that holds the tensor, which gets the
/// rank that the function gives; a miss is counted on the device that gets the next
/// tensor.
pub open spec fn looks_up<W: Fn(u64, u16, usize) -> u64>(
    weigh: W,
    before: Seq<CacheView>,
    next_device: int,
    keys: Seq<Seq<char>>,
    index: int,
    after: Seq<CacheView>,
) -> bool {
    let key = keys[index];
    match first_index(keys, key, index) {
        Some(_) => after == before,
        None => match hit_device(before, key, 0) {
            Some(device) => {
                let cache = before[device];
                let rank = after[device].entries[key].rank;
                &&& call_ensures(
                    weigh,
                    (
                        cache.inflation,
                        cache.sketch.frequency(key),
                        cache.entries[key].allocated_bytes,
                    ),
                    rank,
                )
                &&& after == before.update(device, hit(cache, key, rank))
            },
            None => after == before.update(next_device, missed(before[next_device], key)),
        },
    }
}

/// The first `count` candidates were looked up, one after the other.
pub open spec fn looked_up<W: Fn(u64, u16, usize) -> u64>(
    weigh: W,
    start: Seq<CacheView>,
    next_device: int,
    keys: Seq<Seq<char>>,
    count: int,
    after: Seq<CacheView>,
) -> bool
    decreases count,
{
    if count <= 0 {
        after == start
    } else {
        exists|middle: Seq<CacheView>| #[trigger]
            looks_up(weigh, middle, next_device, keys, count - 1, after) && looked_up(
                weigh,
                start,
                next_device,
                keys,
                count - 1,
                middle,
            )
    }
}

/// One more candidate was looked up.
proof fn lemma_looked_up<W: Fn(u64, u16, usize) -> u64>(
    weigh: W,
    start: Seq<CacheView>,
    next_device: int,
    keys: Seq<Seq<char>>,
    count: int,
    middle: Seq<CacheView>,
    after: Seq<CacheView>,
)
    requires
        count >= 0,
        looked_up(weigh, start, next_device, keys, count, middle),
        looks_up(weigh, middle, next_device, keys, count, after),
    ensures
        looked_up(weigh, start, next_device, keys, count + 1, after),
{
    let total = count + 1;
    assert(looks_up(weigh, middle, next_device, keys, total - 1, after));
}

/// The quantization contract of a request.
pub open spec fn contract_text(request: Request) -> Option<Seq<char>> {
    match request.quantization_contract {
        Some(contract) => Some(contract@),
        None => None,
    }
}

/// A cache in use shows the same tensors.
proof fn lemma_in_use_visible(
    before: CacheView,
    after: CacheView,
    chunk: Seq<ResidentView>,
    misses: int,
    key: Seq<char>,
)
    requires
        in_use(before, after, chunk, misses),
    ensures
        before.visible(key) == after.visible(key),
        before.visible(key) ==> after.entries[key] == (EntryView {
            references: after.entries[key].references,
            rank: after.entries[key].rank,
            ..before.entries[key]
        }),
{
    assert(before.entries.dom().contains(key) == after.entries.dom().contains(key));
}

impl Engine {
    /// Looks the candidates of a request up on the devices. Those that are
    /// loaded are in use from here on; the others have to be brought to a
    /// device.
    #[verifier::rlimit(60)]
    #[verifier::spinoff_prover]
    pub fn plan_hits<W: Fn(u64, u16, usize) -> u64>(&mut self, request: &Request, weigh: &W) -> (result:
        Result<HitPlan, EngineError>)
        requires
            old(self).wf(),
            old(self).room(request.candidates@.len() as int),
            forall|i: int|
                0 <= i < request.candidates@.len() ==> (#[trigger] request.candidates@[i]).rows
                    * request.candidates@[i].dimension * scalar_size(request.candidates@[i].dtype)
                    <= usize::MAX,
            forall|inflation: u64, frequency: u16, bytes: usize|
                call_requires(*weigh, (inflation, frequency, bytes)),
        ensures
            final(self).wf(),
            final(self).store == old(self).store,
            final(self).next_device == old(self).next_device,
            final(self).quantization_registry == old(self).quantization_registry,
            final(self).devices@.len() == old(self).devices@.len(),
            forall|d: int|
                0 <= d < final(self).devices@.len() ==> (#[trigger] final(self).devices@[d]).h2d_batches
                    == old(self).devices@[d].h2d_batches && final(self).devices@[d].h2d_bytes
                    == old(self).devices@[d].h2d_bytes,
            ({
                let plan = hit_plan(
                    cache_views(old(self).devices@),
                    request.candidates@,
                    request.scoring_profile,
                    contract_text(*request),
                    request.candidates@.len() as int,
                );
                match result {
                    Ok(found) => plan == Ok::<HitPlanView, EngineError>(found@) && planned_use(
                        cache_views(old(self).devices@),
                        cache_views(final(self).devices@),
                        old(self).next_device as int,
                        found@,
                    ) && looked_up(
                        *weigh,
                        cache_views(old(self).devices@),
                        old(self).next_device as int,
                        candidate_keys(
                            request.candidates@,
                            request.scoring_profile,
                            contract_text(*request),
                        ),
                        request.candidates@.len() as int,
                        cache_views(final(self).devices@),
                    ),
                    Err(error) => plan == Err::<HitPlanView, EngineError>(error) && exists|index: int|
                     #[trigger]
                        stopped_at(
                            *weigh,
                            cache_views(old(self).devices@),
                            cache_views(final(self).devices@),
                            old(self).next_device as int,
                            request.candidates@,
                            request.scoring_profile,
                            contract_text(*request),
                            index,
                        ),
                }
            }),
    {
        let ghost start = cache_views(self.devices@);
        let ghost candidates = request.candidates@;
        let ghost profile = request.scoring_profile;
        let ghost contract = contract_text(*request);
        let ghost keys = candidate_keys(candidates, profile, contract);
        let count: usize = request.candidates.len();
        let mut plan = HitPlan {
            hits: empty_chunks(self.devices.len()),
            missing: Vec::new(),
            duplicates: Vec::new(),
        };
        let mut seen: Table<usize> = Table::new();
        let mut i: usize = 0;
        proof {
            let first = hit_plan(start, candidates, profile, contract, 0)->Ok_0;
            assert(plan@.hits =~= first.hits);
            assert(plan@.missing =~= first.missing);
            assert(plan@.duplicates =~= first.duplicates);
            assert forall|d: int| 0 <= d < start.len() implies in_use(
                start[d],
                #[trigger] cache_views(self.devices@)[d],
                plan@.hits[d],
                misses_on(d, self.next_device as int, plan@),
            ) by {
                assert(plan@.hits[d].len() == 0);
                assert(start[d].entries.dom() =~= start[d].entries.dom());
            }
        }
        while i < count
            invariant
                i <= count,
                count == candidates.len(),
                candidates == request.candidates@,
                profile == request.scoring_profile,
                contract == contract_text(*request),
                keys == candidate_keys(candidates, profile, contract),
                start == cache_views(old(self).devices@),
                self.wf(),
                self.store == old(self).store,
                self.next_device == old(self).next_device,
                self.quantization_registry == old(self).quantization_registry,
                self.devices@.len() == old(self).devices@.len(),
                plan.hits@.len() == self.devices@.len(),
                forall|d: int|
                    0 <= d < self.devices@.len() ==> (#[trigger] self.devices@[d]).h2d_batches
                        == old(self).devices@[d].h2d_batches && self.devices@[d].h2d_bytes == old(self).devices@[d].h2d_bytes,
                self.room(count - i),
                forall|i: int|
                    0 <= i < candidates.len() ==> (#[trigger] candidates[i]).rows
                        * candidates[i].dimension * scalar_size(candidates[i].dtype) <= usize::MAX,
                forall|inflation: u64, frequency: u16, bytes: usize|
                    call_requires(*weigh, (inflation, frequency, bytes)),
                seen.wf(),
                forall|key: Seq<char>| #[trigger]
                    seen@.contains_key(key) <==> first_index(keys, key, i as int) is Some,
                forall|key: Seq<char>| #[trigger]
                    seen@.contains_key(key) ==> first_index(keys, key, i as int) == Some(
                        seen@[key] as int,
                    ),
                hit_plan(start, candidates, profile, contract, i as int) == Ok::<
                    HitPlanView,
                    EngineError,
                >(plan@),
                planned_use(start, cache_views(self.devices@), self.next_device as int, plan@),
                looked_up(
                    *weigh,
                    start,
                    self.next_device as int,
                    keys,
                    i as int,
                    cache_views(self.devices@),
                ),
            decreases count - i,
        {
            let descriptor: &Descriptor = &request.candidates[i];
            let ghost before = *self;
            let ghost old_plan = plan@;
            let key: String = gpu_cache_key(
                descriptor,
                request.scoring_profile,
                match &request.quantization_contract {
                    Some(contract) => Some(contract.as_str()),
                    None => None,
                },
            );
            proof {
                assert(keys[i as int] == key@);
                lemma_plan_stops(
                    start,
                    candidates,
                    profile,
                    contract,
                    i as int + 1,
                    candidates.len() as int,
                );
                assert forall|d: int| 0 <= d < start.len() implies (#[trigger] start[d]).visible(key@)
                    == cache_views(self.devices@)[d].visible(key@) by {
                    lemma_in_use_visible(
                        start[d],
                        cache_views(self.devices@)[d],
                        plan@.hits[d],
                        misses_on(d, self.next_device as int, plan@),
                        key@,
                    );
                }
                lemma_hit_device(start, cache_views(self.devices@), key@, 0);
            }
            match seen.get(key.as_str()) {
                Some(first) => {
                    plan.duplicates.push((i, *first));
                    proof {
                        assert(plan@.hits == old_plan.hits);
                        assert(plan@.missing == old_plan.missing);
                        assert(plan@.duplicates =~= old_plan.duplicates.push(
                            (i as int, first_index(keys, key@, i as int)->0),
                        ));
                        assert forall|d: int| 0 <= d < self.devices@.len() implies cache_room(
                            (#[trigger] self.devices@[d]).cache,
                            count - (i + 1),
                        ) by {
                            assert(cache_room(self.devices@[d].cache, count - i));
                        }
                        lemma_looked_up(
                            *weigh,
                            start,
                            self.next_device as int,
                            keys,
                            i as int,
                            cache_views(self.devices@),
                            cache_views(self.devices@),
                        );
                    }
                },
                None => {
                    match self.find_hit(key.as_str()) {
                        Some(device) => {
                            let ghost caches = cache_views(self.devices@);
                            let ghost former = self.devices@[device as int];
                            proof {
                                assert(cache_room(former.cache, count - i));
                                assert(former.cache.wf());
                                assert(former.cache@.entries.contains_key(key@));
                                lemma_in_use_visible(
                                    start[device as int],
                                    caches[device as int],
                                    plan@.hits[device as int],
                                    misses_on(device as int, self.next_device as int, plan@),
                                    key@,
                                );
                            }
                            let found: Option<CacheEntry> = self.devices[device].cache.get(
                                key.as_str(),
                                weigh,
                            );
                            proof {
                                let entry = start[device as int].entries[key@];
                                let tensor = resident(i as int, device as int, key@, entry);
                                let hits = old_plan.hits.update(
                                    device as int,
                                    old_plan.hits[device as int].push(tensor),
                                );
                                let next = HitPlanView { hits, ..old_plan };
                                lemma_uses_push(old_plan.hits[device as int], tensor);
                                assert forall|d: int| 0 <= d < start.len() implies in_use(
                                    start[d],
                                    #[trigger] cache_views(self.devices@)[d],
                                    hits[d],
                                    misses_on(d, self.next_device as int, next),
                                ) by {
                                    assert(in_use(
                                        start[d],
                                        caches[d],
                                        old_plan.hits[d],
                                        misses_on(d, self.next_device as int, old_plan),
                                    ));
                                    if d == device {
                                        assert(self.devices@[d].cache@.entries.dom()
                                            =~= start[d].entries.dom());
                                    } else {
                                        assert(self.devices@[d] == before.devices@[d]);
                                    }
                                }
                                assert(planned_use(
                                    start,
                                    cache_views(self.devices@),
                                    self.next_device as int,
                                    next,
                                ));
                                assert(cache_views(self.devices@) =~= caches.update(
                                    device as int,
                                    hit(
                                        caches[device as int],
                                        key@,
                                        self.devices@[device as int].cache@.entries[key@].rank,
                                    ),
                                ));
                                lemma_looked_up(
                                    *weigh,
                                    start,
                                    self.next_device as int,
                                    keys,
                                    i as int,
                                    caches,
                                    cache_views(self.devices@),
                                );
                                assert(stopped_at(
                                    *weigh,
                                    start,
                                    cache_views(self.devices@),
                                    self.next_device as int,
                                    candidates,
                                    profile,
                                    contract,
                                    i as int,
                                ));
                                assert forall|d: int| 0 <= d < self.devices@.len() implies cache_room(
                                    (#[trigger] self.devices@[d]).cache,
                                    count - (i + 1),
                                ) && self.devices@[d].cache.wf() by {
                                    assert(cache_room(before.devices@[d].cache, count - i));
                                    assert(before.devices@[d].cache.wf());
                                }
                                assert(self.wf());
                            }
                            let entry: CacheEntry = match found {
                                Some(entry) => entry,
                                None => {
                                    return Err(EngineError::EntryMismatch);
                                },
                            };
                            let checked: Result<(), EngineError> = validate_entry(
                                descriptor,
                                &entry,
                                request.scoring_profile,
                            );
                            if let Err(error) = checked {
                                return Err(error);
                            }
                            add_resident(
                                &mut plan.hits,
                                ResidentTensor {
                                    candidate_index: i,
                                    device,
                                    key: key.clone(),
                                    offset: entry.offset,
                                    rows: entry.rows,
                                    transient: false,
                                    newly_admitted: false,
                                },
                            );
                            assert(plan.hits@.len() == chunk_views(plan.hits@).len());
                        },
                        None => {
                            let next: usize = self.next_device;
                            let ghost caches = cache_views(self.devices@);
                            proof {
                                assert(cache_room(self.devices@[next as int].cache, count - i));
                                assert(self.devices@[next as int].cache.wf());
                            }
                            self.devices[next].cache.record_access_miss(key.as_str());
                            plan.missing.push(i);
                            proof {
                                assert(plan@.missing =~= old_plan.missing.push(i as int));
                                assert(plan@.hits == old_plan.hits);
                                assert forall|d: int| 0 <= d < start.len() implies in_use(
                                    start[d],
                                    #[trigger] cache_views(self.devices@)[d],
                                    plan@.hits[d],
                                    misses_on(d, self.next_device as int, plan@),
                                ) by {
                                    assert(in_use(
                                        start[d],
                                        caches[d],
                                        old_plan.hits[d],
                                        misses_on(d, self.next_device as int, old_plan),
                                    ));
                                    if d != next {
                                        assert(self.devices@[d] == before.devices@[d]);
                                    }
                                }
                                assert(cache_views(self.devices@) =~= caches.update(
                                    next as int,
                                    missed(caches[next as int], key@),
                                ));
                                lemma_looked_up(
                                    *weigh,
                                    start,
                                    self.next_device as int,
                                    keys,
                                    i as int,
                                    caches,
                                    cache_views(self.devices@),
                                );
                                assert forall|d: int| 0 <= d < self.devices@.len() implies cache_room(
                                    (#[trigger] self.devices@[d]).cache,
                                    count - (i + 1),
                                ) && self.devices@[d].cache.wf() by {
                                    assert(cache_room(before.devices@[d].cache, count - i));
                                    assert(before.devices@[d].cache.wf());
                                }
                            }
                        },
                    }
                    let ghost text = key@;
                    let ghost table = seen@;
                    seen.insert(key, i);
                    proof {
                        assert forall|other: Seq<char>| #[trigger] seen@.contains_key(other)
                            <==> first_index(keys, other, i as int + 1) is Some by {
                            assert(table.contains_key(other) <==> first_index(
                                keys,
                                other,
                                i as int,
                            ) is Some);
                        }
                        assert forall|other: Seq<char>| #[trigger] seen@.contains_key(other) implies first_index(
                            keys,
                            other,
                            i as int + 1,
                        ) == Some(seen@[other] as int) by {
                            assert(table.contains_key(other) <==> first_index(
                                keys,
                                other,
                                i as int,
                            ) is Some);
                        }
                    }
                },
            }
            i += 1;
        }
        Ok(plan)
    }
}

/// The caches, and the device that gets the next tensor.
pub struct EngineView {
    pub caches: Seq<CacheView>,
    pub next_device: int,
}

impl Engine {
    /// The caches, and the device that gets the next tensor.
    pub open spec fn state(&self) -> EngineView {
        EngineView {
            caches: cache_views(self.devices@),
            next_device: self.next_device as int,
        }
    }

    /// Whether only the caches and the next device differ.
    pub open spec fn same_but_caches(&self, before: &Engine) -> bool {
        &&& self.store == before.store
        &&& self.quantization_registry == before.quantization_registry
        &&& self.devices@.len() == before.devices@.len()
        &&& forall|d: int|
            0 <= d < self.devices@.len() ==> (#[trigger] self.devices@[d]).h2d_batches
                == before.devices@[d].h2d_batches && self.devices@[d].h2d_bytes
                == before.devices@[d].h2d_bytes
    }
}

/// The device whose turn it is in a round over `count` devices.
pub open spec fn turn(next: int, step: int, count: int) -> int {
    if next + step < count {
        next + step
    } else {
        next + step - count
    }
}

/// When it is a device's turn in a round.
spec fn turn_of(device: int, next: int, count: int) -> int {
    if device >= next {
        device - next
    } else {
        device + count - next
    }
}

/// Whether a cache may answer a request for pages in a way.
pub open spec fn answers<W: Fn(u64, u16, usize) -> u64>(
    weigh: W,
    before: CacheView,
    request: AdmissionRequestView,
    after: CacheView,
    admission: Admission,
) -> bool {
    exists|evictions: nat| #[trigger] admits(weigh, before, request, after, admission, evictions)
}

/// A round over `count` devices from `step` on: each is asked for pages until one
/// gives them.
pub open spec fn tries<W: Fn(u64, u16, usize) -> u64>(
    weigh: W,
    caches: Seq<CacheView>,
    next: int,
    request: AdmissionRequestView,
    step: int,
    count: int,
    after: Seq<CacheView>,
    found: Option<(int, u64)>,
) -> bool
    decreases count - step,
{
    if step >= count {
        found is None && after == caches
    } else {
        let device = turn(next, step, count);
        exists|cache: CacheView, admission: Admission| #[trigger]
            answers(weigh, caches[device], request, cache, admission) && match admission {
                Admission::Admitted { offset, .. } => found == Some((device, offset)) && after
                    == caches.update(device, cache),
                _ => tries(
                    weigh,
                    caches.update(device, cache),
                    next,
                    request,
                    step + 1,
                    count,
                    after,
                    found,
                ),
            }
    }
}

/// The request for the pages of a tensor.
pub open spec fn pages_for(tenant: Seq<char>, tensor: MissingTensor, pinned: bool, force: bool) -> AdmissionRequestView {
    AdmissionRequestView {
        tenant,
        key: tensor.key@,
        payload_bytes: tensor.payload_bytes,
        rows: tensor.rows,
        dimension: tensor.dimension,
        dtype: tensor.dtype,
        pinned,
        force,
    }
}

/// A cache with one more reference to an entry.
pub open spec fn acquired(cache: CacheView, key: Seq<char>) -> CacheView {
    let entry = cache.entries[key];
    CacheView {
        entries: cache.entries.insert(
            key,
            EntryView { references: (entry.references + 1) as usize, ..entry },
        ),
        ..cache
    }
}

/// A tensor that got its pages.
pub open spec fn admitted(tensor: MissingTensor, device: int, offset: u64, transient: bool) -> ResidentView {
    ResidentView {
        candidate_index: tensor.candidate_index,
        device: device as usize,
        key: tensor.key@,
        offset,
        rows: tensor.rows,
        transient,
        newly_admitted: true,
    }
}

/// One tensor is taken into a chunk, or not. A tensor that is loaded is used as
/// it is. Another gets pages on some device, in the order of their turns. The
/// first tensor of a chunk has to be scored in any case: where no device gives
/// it pages of its own accord, it takes them for the time being.
pub open spec fn takes<W: Fn(u64, u16, usize) -> u64>(
    weigh: W,
    before: EngineView,
    tenant: Seq<char>,
    tensor: MissingTensor,
    first: bool,
    after: EngineView,
    placed: Option<ResidentView>,
) -> bool {
    let count = before.caches.len() as int;
    match hit_device(before.caches, tensor.key@, 0) {
        Some(device) => {
            &&& before.caches[device].entries[tensor.key@].references < usize::MAX
            &&& placed == Some(
                resident(
                    tensor.candidate_index as int,
                    device,
                    tensor.key@,
                    before.caches[device].entries[tensor.key@],
                ),
            )
            &&& after == (EngineView {
                caches: before.caches.update(device, acquired(before.caches[device], tensor.key@)),
                ..before
            })
        },
        None => exists|middle: Seq<CacheView>, found: Option<(int, u64)>| #[trigger]
            tries(
                weigh,
                before.caches,
                before.next_device,
                pages_for(tenant, tensor, false, false),
                0,
                count,
                middle,
                found,
            ) && match found {
                Some((device, offset)) => placed == Some(admitted(tensor, device, offset, false))
                    && after == (EngineView {
                    caches: middle,
                    next_device: turn(device, 1, count),
                }),
                None => if first {
                    takes_anyway(weigh, before, middle, tenant, tensor, after, placed)
                } else {
                    placed is None && after == (EngineView { caches: middle, ..before })
                },
            },
    }
}

/// The first tensor of a chunk takes its pages for the time being, where any
/// device has them.
pub open spec fn takes_anyway<W: Fn(u64, u16, usize) -> u64>(
    weigh: W,
    before: EngineView,
    middle: Seq<CacheView>,
    tenant: Seq<char>,
    tensor: MissingTensor,
    after: EngineView,
    placed: Option<ResidentView>,
) -> bool {
    exists|last: Seq<CacheView>, found: Option<(int, u64)>| #[trigger]
        tries(
            weigh,
            middle,
            before.next_device,
            pages_for(tenant, tensor, false, true),
            0,
            before.caches.len() as int,
            last,
            found,
        ) && match found {
            Some((device, offset)) => placed == Some(admitted(tensor, device, offset, true))
                && after == (EngineView {
                caches: last,
                next_device: turn(device, 1, before.caches.len() as int),
            }),
            None => placed is None && after == (EngineView { caches: last, ..before }),
        }
}

/// The room after a request for pages.
proof fn lemma_room_after<W: Fn(u64, u16, usize) -> u64>(
    weigh: W,
    before: GpuCache,
    request: AdmissionRequestView,
    after: GpuCache,
    admission: Admission,
    count: int,
)
    requires
        cache_room(before, count),
        count >= 1,
        answers(weigh, before@, request, after@, admission),
        after@.evictions + after.entry_number() <= before@.evictions + before.entry_number() + 1,
        after@.admission_rejections <= before@.admission_rejections + 1,
    ensures
        cache_room(after, count - 1),
{
    let evictions = choose|evictions: nat| #[trigger]
        admits(weigh, before@, request, after@, admission, evictions);
    admission_keeps_used_entries(weigh, before@, request, after@, admission, evictions);
    assert forall|key: Seq<char>| #[trigger] after@.entries.contains_key(key) implies after@.entries[key].references
        + (count - 1) < usize::MAX by {
        if !(admission is Admitted && key == request.key) {
            assert(before@.entries.contains_key(key));
        }
    }
}

impl Engine {
    /// Asks the devices for pages, in the order of their turns, until one gives
    /// them.
    #[verifier::spinoff_prover]
    pub(crate) fn try_devices<W: Fn(u64, u16, usize) -> u64>(
        &mut self,
        request: &AdmissionRequest,
        weigh: &W,
        room: Ghost<int>,
    ) -> (found: Option<(usize, u64)>)
        requires
            old(self).wf(),
            room@ >= 1,
            old(self).room(room@),
            forall|inflation: u64, frequency: u16, bytes: usize|
                call_requires(*weigh, (inflation, frequency, bytes)),
        ensures
            final(self).wf(),
            final(self).room(room@ - 1),
            final(self).same_but_caches(&*old(self)),
            match found {
                Some((device, offset)) => device < final(self).devices@.len() && final(self).next_device
                    == turn(device as int, 1, final(self).devices@.len() as int) && tries(
                    *weigh,
                    old(self).state().caches,
                    old(self).next_device as int,
                    request@,
                    0,
                    old(self).devices@.len() as int,
                    final(self).state().caches,
                    Some((device as int, offset)),
                ),
                None => final(self).next_device == old(self).next_device && tries(
                    *weigh,
                    old(self).state().caches,
                    old(self).next_device as int,
                    request@,
                    0,
                    old(self).devices@.len() as int,
                    final(self).state().caches,
                    None,
                ),
            },
    {
        let count: usize = self.devices.len();
        let next: usize = self.next_device;
        let ghost start = self.state().caches;
        let mut step: usize = 0;
        while step < count
            invariant
                step <= count,
                count == self.devices@.len(),
                count == old(self).devices@.len(),
                next < count,
                next == old(self).next_device,
                self.next_device == next,
                self.wf(),
                self.same_but_caches(&*old(self)),
                start == old(self).state().caches,
                room@ >= 1,
                forall|d: int|
                    0 <= d < count ==> cache_room(
                        (#[trigger] self.devices@[d]).cache,
                        if turn_of(d, next as int, count as int) < step {
                            room@ - 1
                        } else {
                            room@
                        },
                    ),
                forall|inflation: u64, frequency: u16, bytes: usize|
                    call_requires(*weigh, (inflation, frequency, bytes)),
                forall|after: Seq<CacheView>, found: Option<(int, u64)>| #[trigger]
                    tries(
                        *weigh,
                        self.state().caches,
                        next as int,
                        request@,
                        step as int,
                        count as int,
                        after,
                        found,
                    ) ==> tries(
                        *weigh,
                        start,
                        next as int,
                        request@,
                        0,
                        count as int,
                        after,
                        found,
                    ),
            decreases count - step,
        {
            let device: usize = if step < count - next {
                next + step
            } else {
                step - (count - next)
            };
            let ghost before = *self;
            let ghost caches = self.state().caches;
            proof {
                assert(device == turn(next as int, step as int, count as int));
                assert(turn_of(device as int, next as int, count as int) == step);
                assert(cache_room(self.devices@[device as int].cache, room@));
                assert(self.devices@[device as int].cache.wf());
            }
            let admission: Admission = self.devices[device].cache.admit_for_tenant(request, weigh);
            proof {
                let former = before.devices@[device as int].cache;
                let cache = self.devices@[device as int].cache;
                assert(answers(*weigh, former@, request@, cache@, admission));
                lemma_room_after(*weigh, former, request@, cache, admission, room@);
                assert(self.state().caches =~= caches.update(device as int, cache@));
                assert forall|d: int| 0 <= d < count implies cache_room(
                    (#[trigger] self.devices@[d]).cache,
                    if turn_of(d, next as int, count as int) < step + 1 {
                        room@ - 1
                    } else {
                        room@
                    },
                ) && self.devices@[d].cache.wf() by {
                    assert(before.devices@[d].cache.wf());
                    if d != device {
                        assert(self.devices@[d] == before.devices@[d]);
                        assert(cache_room(
                            before.devices@[d].cache,
                            if turn_of(d, next as int, count as int) < step {
                                room@ - 1
                            } else {
                                room@
                            },
                        ));
                    }
                }
                assert(self.wf());
                assert(self.same_but_caches(&*old(self))) by {
                    assert forall|d: int| 0 <= d < self.devices@.len() implies (
                    #[trigger] self.devices@[d]).h2d_batches == old(self).devices@[d].h2d_batches
                        && self.devices@[d].h2d_bytes == old(self).devices@[d].h2d_bytes by {
                        assert(before.devices@[d].h2d_batches == old(self).devices@[d].h2d_batches);
                    }
                }
            }
            match admission {
                Admission::Admitted { offset, .. } => {
                    proof {
                        let found = Some((device as int, offset));
                        let at = turn(next as int, step as int, count as int);
                        let cache = self.devices@[device as int].cache@;
                        assert(answers(*weigh, caches[at], request@, cache, admission));
                        assert(self.state().caches == caches.update(at, cache));
                        assert(tries(
                            *weigh,
                            caches,
                            next as int,
                            request@,
                            step as int,
                            count as int,
                            self.state().caches,
                            found,
                        ));
                        assert(self.room(room@ - 1)) by {
                            assert forall|d: int| 0 <= d < self.devices@.len() implies cache_room(
                                (#[trigger] self.devices@[d]).cache,
                                room@ - 1,
                            ) by {
                                assert(cache_room(
                                    self.devices@[d].cache,
                                    if turn_of(d, next as int, count as int) < step + 1 {
                                        room@ - 1
                                    } else {
                                        room@
                                    },
                                ));
                            }
                        }
                    }
                    self.next_device = if device + 1 < count {
                        device + 1
                    } else {
                        0
                    };
                    return Some((device, offset));
                },
                _ => {
                    proof {
                        let at = turn(next as int, step as int, count as int);
                        let cache = self.devices@[device as int].cache@;
                        assert(answers(*weigh, caches[at], request@, cache, admission));
                        assert(self.state().caches == caches.update(at, cache));
                        assert forall|after: Seq<CacheView>, found: Option<(int, u64)>| #[trigger]
                            tries(
                                *weigh,
                                self.state().caches,
                                next as int,
                                request@,
                                step as int + 1,
                                count as int,
                                after,
                                found,
                            ) implies tries(
                            *weigh,
                            start,
                            next as int,
                            request@,
                            0,
                            count as int,
                            after,
                            found,
                        ) by {
                            assert(tries(
                                *weigh,
                                caches,
                                next as int,
                                request@,
                                step as int,
                                count as int,
                                after,
                                found,
                            ));
                        }
                    }
                },
            }
            step += 1;
        }
        proof {
            assert(tries(
                *weigh,
                self.state().caches,
                next as int,
                request@,
                step as int,
                count as int,
                self.state().caches,
                None,
            ));
            assert(self.room(room@ - 1)) by {
                assert forall|d: int| 0 <= d < self.devices@.len() implies cache_room(
                    (#[trigger] self.devices@[d]).cache,
                    room@ - 1,
                ) by {
                    assert(cache_room(
                        self.devices@[d].cache,
                        if turn_of(d, next as int, count as int) < step {
                            room@ - 1
                        } else {
                            room@
                        },
                    ));
                }
            }
        }
        None
    }
}

/// Whether a chunk of `count` tensors has just begun.
pub open spec fn is_first(count: int) -> bool {
    count == 1
}

/// A chunk of the first `count` tensors: they were taken one after the other.
pub open spec fn chunk_run<W: Fn(u64, u16, usize) -> u64>(
    weigh: W,
    start: EngineView,
    tenant: Seq<char>,
    pending: Seq<MissingTensor>,
    count: int,
    state: EngineView,
    chunks: Seq<Seq<ResidentView>>,
) -> bool
    decreases count,
{
    if count <= 0 {
        state == start && chunks == no_tensors(start.caches.len())
    } else {
        exists|middle: EngineView, tensor: ResidentView| #[trigger]
            takes(weigh, middle, tenant, pending[count - 1], is_first(count), state, Some(tensor)) && {
                let device = tensor.device as int;
                &&& device < chunks.len()
                &&& chunks[device].len() > 0
                &&& chunks[device].last() == tensor
                &&& chunk_run(
                    weigh,
                    start,
                    tenant,
                    pending,
                    count - 1,
                    middle,
                    chunks.update(device, chunks[device].drop_last()),
                )
            }
    }
}

/// A chunk was planned: its tensors were taken, and the next one, if there is
/// one, was not.
pub open spec fn chunk_planned<W: Fn(u64, u16, usize) -> u64>(
    weigh: W,
    start: EngineView,
    tenant: Seq<char>,
    pending: Seq<MissingTensor>,
    consumed: int,
    chunks: Seq<Seq<ResidentView>>,
    after: EngineView,
) -> bool {
    exists|state: EngineView| #[trigger]
        chunk_run(weigh, start, tenant, pending, consumed, state, chunks) && if consumed
            == pending.len() {
            after == state
        } else {
            takes(weigh, state, tenant, pending[consumed], false, after, None)
        }
}

/// The tensors of a chunk, device by device, and how many of the pending tensors
/// they are.
pub struct ChunkPlan {
    pub chunks: Vec<Vec<ResidentTensor>>,
    pub consumed: usize,
}

/// The uploads of a chunk: for each tensor that is not loaded yet, where it goes
/// and which candidate it is of.
pub open spec fn upload_list(chunk: Seq<ResidentView>) -> Seq<(u64, usize)>
    decreases chunk.len(),
{
    if chunk.len() == 0 {
        Seq::empty()
    } else if chunk.last().newly_admitted {
        upload_list(chunk.drop_last()).push((chunk.last().offset, chunk.last().candidate_index))
    } else {
        upload_list(chunk.drop_last())
    }
}

/// The uploads of a chunk.
pub fn uploads_of(chunk: &Vec<ResidentTensor>) -> (uploads: Vec<(u64, usize)>)
    ensures
        uploads@ == upload_list(chunk_view(chunk@)),
{
    let mut uploads: Vec<(u64, usize)> = Vec::new();
    let mut i: usize = 0;
    let ghost all = chunk_view(chunk@);
    assert(uploads@ =~= upload_list(all.take(0)));
    while i < chunk.len()
        invariant
            i <= chunk@.len(),
            all == chunk_view(chunk@),
            uploads@ == upload_list(all.take(i as int)),
        decreases chunk@.len() - i,
    {
        assert(all.take(i + 1).drop_last() =~= all.take(i as int));
        assert(all.take(i + 1).last() == chunk@[i as int]@);
        if chunk[i].newly_admitted {
            uploads.push((chunk[i].offset, chunk[i].candidate_index));
        }
        i += 1;
    }
    assert(all.take(i as int) =~= all);
    uploads
}

impl Engine {
    /// Takes one tensor into a chunk.
    #[verifier::spinoff_prover]
    fn take<W: Fn(u64, u16, usize) -> u64>(
        &mut self,
        tenant: &str,
        tensor: &MissingTensor,
        first: bool,
        weigh: &W,
        room: Ghost<int>,
    ) -> (placed: Option<ResidentTensor>)
        requires
            old(self).wf(),
            room@ >= 2,
            old(self).room(room@),
            forall|inflation: u64, frequency: u16, bytes: usize|
                call_requires(*weigh, (inflation, frequency, bytes)),
        ensures
            final(self).wf(),
            final(self).room(room@ - 2),
            final(self).same_but_caches(&*old(self)),
            takes(
                *weigh,
                old(self).state(),
                tenant@,
                *tensor,
                first,
                final(self).state(),
                match placed {
                    Some(placed) => Some(placed@),
                    None => None,
                },
            ),
            match placed {
                Some(placed) => placed.device < final(self).devices@.len(),
                None => true,
            },
    {
        let ghost before = *self;
        proof {
            lemma_hit_device(
                self.state().caches,
                self.state().caches,
                tensor.key@,
                0,
            );
        }
        if let Some(device) = self.find_hit(tensor.key.as_str()) {
            proof {
                assert(cache_room(self.devices@[device as int].cache, room@));
                assert(self.devices@[device as int].cache.wf());
                assert(self.devices@[device as int].cache@.entries.contains_key(tensor.key@));
            }
            let entry: Option<CacheEntry> = self.devices[device].cache.acquire_existing(
                tensor.key.as_str(),
            );
            proof {
                let former = before.devices@[device as int].cache@;
                let cache = self.devices@[device as int].cache@;
                assert(cache == acquired(former, tensor.key@));
                assert(self.state().caches =~= before.state().caches.update(device as int, cache));
                assert forall|d: int| 0 <= d < self.devices@.len() implies cache_room(
                    (#[trigger] self.devices@[d]).cache,
                    room@ - 2,
                ) && self.devices@[d].cache.wf() && self.devices@[d].h2d_batches
                    == before.devices@[d].h2d_batches && self.devices@[d].h2d_bytes
                    == before.devices@[d].h2d_bytes by {
                    assert(before.devices@[d].cache.wf());
                    assert(cache_room(before.devices@[d].cache, room@));
                }
            }
            return match entry {
                Some(entry) => Some(
                    ResidentTensor {
                        candidate_index: tensor.candidate_index,
                        device,
                        key: tensor.key.clone(),
                        offset: entry.offset,
                        rows: entry.rows,
                        transient: false,
                        newly_admitted: false,
                    },
                ),
                None => None,
            };
        }
        let request = AdmissionRequest {
            tenant: tenant.to_owned(),
            key: tensor.key.clone(),
            payload_bytes: tensor.payload_bytes,
            rows: tensor.rows,
            dimension: tensor.dimension,
            dtype: tensor.dtype,
            pinned: false,
            force: false,
        };
        assert(request@ == pages_for(tenant@, *tensor, false, false));
        let found: Option<(usize, u64)> = self.try_devices(&request, weigh, room);
        proof {
            assert(before.state().caches.len() == before.devices@.len());
            assert(tries(
                *weigh,
                before.state().caches,
                before.state().next_device,
                pages_for(tenant@, *tensor, false, false),
                0,
                before.state().caches.len() as int,
                self.state().caches,
                match found {
                    Some((device, offset)) => Some((device as int, offset)),
                    None => None,
                },
            ));
            assert forall|d: int| 0 <= d < self.devices@.len() implies cache_room(
                (#[trigger] self.devices@[d]).cache,
                room@ - 2,
            ) by {
                assert(cache_room(self.devices@[d].cache, room@ - 1));
            }
        }
        if let Some((device, offset)) = found {
            return Some(
                ResidentTensor {
                    candidate_index: tensor.candidate_index,
                    device,
                    key: tensor.key.clone(),
                    offset,
                    rows: tensor.rows,
                    transient: false,
                    newly_admitted: true,
                },
            );
        }
        if !first {
            return None;
        }
        let forced = AdmissionRequest {
            tenant: tenant.to_owned(),
            key: tensor.key.clone(),
            payload_bytes: tensor.payload_bytes,
            rows: tensor.rows,
            dimension: tensor.dimension,
            dtype: tensor.dtype,
            pinned: false,
            force: true,
        };
        assert(forced@ == pages_for(tenant@, *tensor, false, true));
        let ghost middle = self.state().caches;
        let found: Option<(usize, u64)> = self.try_devices(&forced, weigh, Ghost(room@ - 1));
        let placed: Option<ResidentTensor> = match found {
            Some((device, offset)) => Some(
                ResidentTensor {
                    candidate_index: tensor.candidate_index,
                    device,
                    key: tensor.key.clone(),
                    offset,
                    rows: tensor.rows,
                    transient: true,
                    newly_admitted: true,
                },
            ),
            None => None,
        };
        proof {
            assert(tries(
                *weigh,
                middle,
                before.state().next_device,
                pages_for(tenant@, *tensor, false, true),
                0,
                before.state().caches.len() as int,
                self.state().caches,
                match found {
                    Some((device, offset)) => Some((device as int, offset)),
                    None => None,
                },
            ));
            assert(takes_anyway(
                *weigh,
                before.state(),
                middle,
                tenant@,
                *tensor,
                self.state(),
                match placed {
                    Some(placed) => Some(placed@),
                    None => None,
                },
            ));
        }
        placed
    }

    /// Takes as many of the pending tensors as fit on the devices at a time.
    #[verifier::spinoff_prover]
    pub fn plan_chunk<W: Fn(u64, u16, usize) -> u64>(
        &mut self,
        tenant: &str,
        pending: &[MissingTensor],
        weigh: &W,
    ) -> (result: Result<ChunkPlan, EngineError>)
        requires
            old(self).wf(),
            pending@.len() > 0,
            old(self).room(2 * pending@.len() as int),
            forall|inflation: u64, frequency: u16, bytes: usize|
                call_requires(*weigh, (inflation, frequency, bytes)),
        ensures
            final(self).wf(),
            final(self).same_but_caches(&*old(self)),
            match result {
                Ok(plan) => 1 <= plan.consumed <= pending@.len() && chunk_planned(
                    *weigh,
                    old(self).state(),
                    tenant@,
                    pending@,
                    plan.consumed as int,
                    chunk_views(plan.chunks@),
                    final(self).state(),
                ),
                Err(error) => error == EngineError::NotScheduled && takes(
                    *weigh,
                    old(self).state(),
                    tenant@,
                    pending@[0],
                    true,
                    final(self).state(),
                    None,
                ),
            },
    {
        let count: usize = pending.len();
        let mut chunks: Vec<Vec<ResidentTensor>> = empty_chunks(self.devices.len());
        assert(chunks@.len() == chunk_views(chunks@).len());
        let mut consumed: usize = 0;
        while consumed < count
            invariant
                consumed <= count,
                count == pending@.len(),
                count > 0,
                self.wf(),
                self.same_but_caches(&*old(self)),
                self.room(2 * (count - consumed)),
                chunks@.len() == self.devices@.len(),
                forall|inflation: u64, frequency: u16, bytes: usize|
                    call_requires(*weigh, (inflation, frequency, bytes)),
                chunk_run(
                    *weigh,
                    old(self).state(),
                    tenant@,
                    pending@,
                    consumed as int,
                    self.state(),
                    chunk_views(chunks@),
                ),
                consumed == 0 ==> self.state() == old(self).state(),
            decreases count - consumed,
        {
            let ghost before = *self;
            let ghost state = self.state();
            let ghost views = chunk_views(chunks@);
            let placed: Option<ResidentTensor> = self.take(
                tenant,
                &pending[consumed],
                consumed == 0,
                weigh,
                Ghost(2 * (count - consumed)),
            );
            proof {
                assert(self.same_but_caches(&*old(self))) by {
                    assert forall|d: int| 0 <= d < self.devices@.len() implies (
                    #[trigger] self.devices@[d]).h2d_batches == old(self).devices@[d].h2d_batches
                        && self.devices@[d].h2d_bytes == old(self).devices@[d].h2d_bytes by {
                        assert(before.devices@[d].h2d_batches == old(self).devices@[d].h2d_batches);
                    }
                }
            }
            match placed {
                Some(tensor) => {
                    let ghost view = tensor@;
                    add_resident(&mut chunks, tensor);
                    proof {
                        let device = view.device as int;
                        let after = chunk_views(chunks@);
                        assert(after[device].drop_last() =~= views[device]);
                        assert(after.update(device, after[device].drop_last()) =~= views);
                        assert(chunks@.len() == after.len());
                        let total = consumed as int + 1;
                        assert(takes(
                            *weigh,
                            state,
                            tenant@,
                            pending@[total - 1],
                            is_first(total),
                            self.state(),
                            Some(view),
                        ));
                        assert(chunk_run(
                            *weigh,
                            old(self).state(),
                            tenant@,
                            pending@,
                            total,
                            self.state(),
                            after,
                        ));
                    }
                    consumed += 1;
                },
                None => {
                    if consumed == 0 {
                        return Err(EngineError::NotScheduled);
                    }
                    proof {
                        assert(chunk_run(
                            *weigh,
                            old(self).state(),
                            tenant@,
                            pending@,
                            consumed as int,
                            state,
                            chunk_views(chunks@),
                        ));
                        assert(chunk_planned(
                            *weigh,
                            old(self).state(),
                            tenant@,
                            pending@,
                            consumed as int,
                            chunk_views(chunks@),
                            self.state(),
                        ));
                    }
                    return Ok(ChunkPlan { chunks, consumed });
                },
            }
        }
        assert(chunk_planned(
            *weigh,
            old(self).state(),
            tenant@,
            pending@,
            consumed as int,
            chunk_views(chunks@),
            self.state(),
        ));
        Ok(ChunkPlan { chunks, consumed })
    }
}

/// A cache after a tensor is let go: it leaves, or there is one reference less.
pub open spec fn let_go(cache: CacheView, key: Seq<char>, leaves: bool) -> Result<CacheView, Seq<char>> {
    let entry = cache.entries[key];
    if !cache.entries.contains_key(key) {
        Err("GPU cache entry disappeared"@)
    } else if leaves {
        Ok(cache.dropped(key))
    } else if entry.references == 0 {
        Err("GPU cache entry was released twice"@)
    } else {
        Ok(
            CacheView {
                entries: cache.entries.insert(
                    key,
                    EntryView { references: (entry.references - 1) as usize, ..entry },
                ),
                ..cache
            },
        )
    }
}

/// Whether a tensor leaves its device when it is let go: it was there for the
/// time being, or its upload failed.
pub open spec fn leaves(tensor: ResidentView, uploaded: Option<Seq<bool>>) -> bool {
    match uploaded {
        None => tensor.transient,
        Some(uploaded) => tensor.newly_admitted && (!uploaded[tensor.device as int]
            || tensor.transient),
    }
}

/// The caches after tensors are let go, one after the other, and the first
/// fault, at which the rest are left as they are.
pub open spec fn let_go_all(
    caches: Seq<CacheView>,
    tensors: Seq<ResidentView>,
    uploaded: Option<Seq<bool>>,
) -> (Seq<CacheView>, Option<Seq<char>>)
    decreases tensors.len(),
{
    if tensors.len() == 0 {
        (caches, None)
    } else {
        let (before, fault) = let_go_all(caches, tensors.drop_last(), uploaded);
        let tensor = tensors.last();
        let device = tensor.device as int;
        if fault is Some {
            (before, fault)
        } else {
            match let_go(before[device], tensor.key, leaves(tensor, uploaded)) {
                Ok(cache) => (before.update(device, cache), None),
                Err(message) => (before, Some(message)),
            }
        }
    }
}

/// A fault among the first tensors is the fault of all of them.
proof fn lemma_let_go_stops(
    caches: Seq<CacheView>,
    tensors: Seq<ResidentView>,
    uploaded: Option<Seq<bool>>,
    count: int,
)
    requires
        0 <= count <= tensors.len(),
    ensures
        let_go_all(caches, tensors.take(count), uploaded).1 is Some ==> let_go_all(
            caches,
            tensors,
            uploaded,
        ) == let_go_all(caches, tensors.take(count), uploaded),
    decreases tensors.len(),
{
    if count == tensors.len() {
        assert(tensors.take(count) =~= tensors);
    } else {
        assert(tensors.drop_last().take(count) =~= tensors.take(count));
        lemma_let_go_stops(caches, tensors.drop_last(), uploaded, count);
    }
}

/// The tensors of all devices, one device after the other.
pub open spec fn all_tensors(chunks: Seq<Seq<ResidentView>>) -> Seq<ResidentView>
    decreases chunks.len(),
{
    if chunks.len() == 0 {
        Seq::empty()
    } else {
        all_tensors(chunks.drop_last()) + chunks.last()
    }
}

/// The tensors of the first devices are the first tensors.
proof fn lemma_all_tensors(chunks: Seq<Seq<ResidentView>>, device: int, count: int)
    requires
        0 <= device < chunks.len(),
        0 <= count <= chunks[device].len(),
    ensures
        ({
            let first = all_tensors(chunks.take(device)) + chunks[device].take(count);
            &&& first.len() <= all_tensors(chunks).len()
            &&& first == all_tensors(chunks).take(first.len() as int)
        }),
    decreases chunks.len(),
{
    let first = all_tensors(chunks.take(device)) + chunks[device].take(count);
    let whole = all_tensors(chunks);
    if device == chunks.len() - 1 {
        assert(chunks.take(device) =~= chunks.drop_last());
        assert(first =~= whole.take(first.len() as int));
    } else {
        assert(chunks.drop_last().take(device) =~= chunks.take(device));
        lemma_all_tensors(chunks.drop_last(), device, count);
        let front = all_tensors(chunks.drop_last());
        assert(whole.take(first.len() as int) =~= front.take(first.len() as int));
    }
}

/// Whether every tensor is on one of `count` devices.
pub open spec fn on_devices(chunks: Seq<Vec<ResidentTensor>>, count: nat) -> bool {
    forall|c: int, i: int|
        0 <= c < chunks.len() && 0 <= i < chunks[c]@.len() ==> (#[trigger] chunks[c]@[i]).device
            < count
}

/// A cache after the first `count` tensors of a chunk are marked as loaded, and
/// the first fault.
pub open spec fn made_ready(cache: CacheView, chunk: Seq<ResidentView>, count: int) -> (
    CacheView,
    Option<Seq<char>>,
)
    decreases count,
{
    if count <= 0 {
        (cache, None)
    } else {
        let (before, fault) = made_ready(cache, chunk, count - 1);
        let tensor = chunk[count - 1];
        if fault is Some || !tensor.newly_admitted {
            (before, fault)
        } else if before.entries.contains_key(tensor.key) {
            (
                CacheView {
                    entries: before.entries.insert(
                        tensor.key,
                        EntryView { ready: true, ..before.entries[tensor.key] },
                    ),
                    ..before
                },
                None,
            )
        } else {
            (before, Some("GPU cache entry disappeared before upload completed"@))
        }
    }
}

proof fn lemma_made_ready_stops(cache: CacheView, chunk: Seq<ResidentView>, count: int, all: int)
    requires
        0 <= count <= all,
    ensures
        made_ready(cache, chunk, count).1 is Some ==> made_ready(cache, chunk, all) == made_ready(
            cache,
            chunk,
            count,
        ),
    decreases all,
{
    if count < all {
        lemma_made_ready_stops(cache, chunk, count, all - 1);
    }
}

/// What the end of the uploads does on a device: the tensors are marked as
/// loaded where the upload succeeded.
pub open spec fn upload_ended(cache: CacheView, chunk: Seq<ResidentView>, uploaded: bool) -> (
    CacheView,
    Option<Seq<char>>,
) {
    if uploaded {
        made_ready(cache, chunk, chunk.len() as int)
    } else {
        (cache, None)
    }
}

/// Whether a chunk has an upload.
pub open spec fn has_upload(chunk: Seq<ResidentView>) -> bool {
    exists|i: int| 0 <= i < chunk.len() && (#[trigger] chunk[i]).newly_admitted
}

fn any_upload(chunk: &Vec<ResidentTensor>) -> (result: bool)
    ensures
        result == has_upload(chunk_view(chunk@)),
{
    let mut i: usize = 0;
    while i < chunk.len()
        invariant
            i <= chunk@.len(),
            forall|j: int| 0 <= j < i ==> !(#[trigger] chunk_view(chunk@)[j]).newly_admitted,
        decreases chunk@.len() - i,
    {
        if chunk[i].newly_admitted {
            assert(chunk_view(chunk@)[i as int].newly_admitted);
            return true;
        }
        i += 1;
    }
    false
}

impl Engine {
    /// Lets one tensor go.
    fn let_tensor_go(&mut self, tensor: &ResidentTensor, leaves: bool) -> (result: Result<
        (),
        &'static str,
    >)
        requires
            old(self).wf(),
            tensor.device < old(self).devices@.len(),
        ensures
            final(self).wf(),
            final(self).same_but_caches(&*old(self)),
            final(self).next_device == old(self).next_device,
            match let_go(
                old(self).state().caches[tensor.device as int],
                tensor.key@,
                leaves,
            ) {
                Ok(cache) => result is Ok && final(self).state().caches == old(self).state().caches.update(tensor.device as int, cache),
                Err(message) => result is Err && result->Err_0@ == message && final(self).state().caches == old(self).state().caches,
            },
    {
        let ghost before = *self;
        let device: usize = tensor.device;
        assert(self.devices@[device as int].cache.wf());
        let result: Result<(), &'static str> = if leaves {
            self.devices[device].cache.remove(tensor.key.as_str())
        } else {
            self.devices[device].cache.release(tensor.key.as_str())
        };
        proof {
            assert forall|d: int| 0 <= d < self.devices@.len() implies (
            #[trigger] self.devices@[d]).cache.wf() && self.devices@[d].h2d_batches
                == before.devices@[d].h2d_batches && self.devices@[d].h2d_bytes
                == before.devices@[d].h2d_bytes by {
                assert(before.devices@[d].cache.wf());
            }
            assert(self.state().caches =~= before.state().caches.update(
                device as int,
                self.devices@[device as int].cache@,
            ));
            if result is Err {
                assert(self.state().caches =~= before.state().caches);
            }
        }
        result
    }

    /// Lets the tensors of all chunks go. Stops at the first fault.
    fn let_chunks_go(&mut self, chunks: &Vec<Vec<ResidentTensor>>, uploaded: Option<&Vec<bool>>) -> (result:
        Result<(), &'static str>)
        requires
            old(self).wf(),
            on_devices(chunks@, old(self).devices@.len()),
            match uploaded {
                Some(uploaded) => uploaded@.len() == old(self).devices@.len(),
                None => true,
            },
        ensures
            final(self).wf(),
            final(self).same_but_caches(&*old(self)),
            final(self).next_device == old(self).next_device,
            ({
                let (caches, fault) = let_go_all(
                    old(self).state().caches,
                    all_tensors(chunk_views(chunks@)),
                    match uploaded {
                        Some(uploaded) => Some(uploaded@),
                        None => None,
                    },
                );
                &&& final(self).state().caches == caches
                &&& match result {
                    Ok(()) => fault is None,
                    Err(message) => fault == Some(message@),
                }
            }),
    {
        let ghost start = self.state().caches;
        let ghost views = chunk_views(chunks@);
        let ghost flags: Option<Seq<bool>> = match uploaded {
            Some(uploaded) => Some(uploaded@),
            None => None,
        };
        let mut c: usize = 0;
        assert(all_tensors(views.take(0)) =~= Seq::<ResidentView>::empty());
        while c < chunks.len()
            invariant
                c <= chunks@.len(),
                self.wf(),
                self.same_but_caches(&*old(self)),
                self.next_device == old(self).next_device,
                start == old(self).state().caches,
                views == chunk_views(chunks@),
                flags == match uploaded {
                    Some(uploaded) => Some(uploaded@),
                    None => None,
                },
                on_devices(chunks@, old(self).devices@.len()),
                match uploaded {
                    Some(uploaded) => uploaded@.len() == old(self).devices@.len(),
                    None => true,
                },
                let_go_all(start, all_tensors(views.take(c as int)), flags) == (
                    self.state().caches,
                    None::<Seq<char>>,
                ),
            decreases chunks@.len() - c,
        {
            let chunk: &Vec<ResidentTensor> = &chunks[c];
            let ghost done = all_tensors(views.take(c as int));
            let mut i: usize = 0;
            assert(done + views[c as int].take(0) =~= done);
            while i < chunk.len()
                invariant
                    i <= chunk@.len(),
                    c < chunks@.len(),
                    chunk == chunks@[c as int],
                    done == all_tensors(views.take(c as int)),
                    self.wf(),
                    self.same_but_caches(&*old(self)),
                    self.next_device == old(self).next_device,
                    start == old(self).state().caches,
                    views == chunk_views(chunks@),
                    flags == match uploaded {
                        Some(uploaded) => Some(uploaded@),
                        None => None,
                    },
                    on_devices(chunks@, old(self).devices@.len()),
                    match uploaded {
                        Some(uploaded) => uploaded@.len() == old(self).devices@.len(),
                        None => true,
                    },
                    let_go_all(start, done + views[c as int].take(i as int), flags) == (
                        self.state().caches,
                        None::<Seq<char>>,
                    ),
                decreases chunk@.len() - i,
            {
                let tensor: &ResidentTensor = &chunk[i];
                assert(chunks@[c as int]@[i as int].device < old(self).devices@.len());
                let leaves: bool = match uploaded {
                    Some(uploaded) => tensor.newly_admitted && (!uploaded[tensor.device]
                        || tensor.transient),
                    None => tensor.transient,
                };
                let ghost before = *self;
                proof {
                    let part = done + views[c as int].take(i as int);
                    let more = done + views[c as int].take(i + 1);
                    assert(views[c as int][i as int] == tensor@);
                    assert(more.drop_last() =~= part);
                    assert(more.last() == tensor@);
                    lemma_all_tensors(views, c as int, i + 1);
                    lemma_let_go_stops(start, all_tensors(views), flags, more.len() as int);
                }
                let gone: Result<(), &'static str> = self.let_tensor_go(tensor, leaves);
                proof {
                    assert(self.same_but_caches(&*old(self))) by {
                        assert forall|d: int| 0 <= d < self.devices@.len() implies (
                        #[trigger] self.devices@[d]).h2d_batches == old(self).devices@[d].h2d_batches
                            && self.devices@[d].h2d_bytes == old(self).devices@[d].h2d_bytes by {
                            assert(before.devices@[d].h2d_batches == old(self).devices@[d].h2d_batches);
                        }
                    }
                }
                if let Err(message) = gone {
                    return Err(message);
                }
                i += 1;
            }
            proof {
                assert(views[c as int].take(i as int) =~= views[c as int]);
                assert(views.take(c + 1).drop_last() =~= views.take(c as int));
                assert(views.take(c + 1).last() == views[c as int]);
            }
            c += 1;
        }
        assert(views.take(c as int) =~= views);
        Ok(())
    }

    /// Lets the tensors of scored chunks go. Those that were there for the time
    /// being leave.
    pub fn release_chunks(&mut self, chunks: &Vec<Vec<ResidentTensor>>) -> (result: Result<
        (),
        &'static str,
    >)
        requires
            old(self).wf(),
            on_devices(chunks@, old(self).devices@.len()),
        ensures
            final(self).wf(),
            final(self).same_but_caches(&*old(self)),
            final(self).next_device == old(self).next_device,
            ({
                let (caches, fault) = let_go_all(
                    old(self).state().caches,
                    all_tensors(chunk_views(chunks@)),
                    None,
                );
                &&& final(self).state().caches == caches
                &&& match result {
                    Ok(()) => fault is None,
                    Err(message) => fault == Some(message@),
                }
            }),
    {
        self.let_chunks_go(chunks, None)
    }

    /// Lets the tensors of chunks go after an upload failed. Those that were not
    /// loaded leave.
    pub fn cleanup_after_upload_failure(
        &mut self,
        chunks: &Vec<Vec<ResidentTensor>>,
        upload_succeeded: &Vec<bool>,
    ) -> (result: Result<(), &'static str>)
        requires
            old(self).wf(),
            on_devices(chunks@, old(self).devices@.len()),
            upload_succeeded@.len() == old(self).devices@.len(),
        ensures
            final(self).wf(),
            final(self).same_but_caches(&*old(self)),
            final(self).next_device == old(self).next_device,
            ({
                let (caches, fault) = let_go_all(
                    old(self).state().caches,
                    all_tensors(chunk_views(chunks@)),
                    Some(upload_succeeded@),
                );
                &&& final(self).state().caches == caches
                &&& match result {
                    Ok(()) => fault is None,
                    Err(message) => fault == Some(message@),
                }
            }),
    {
        self.let_chunks_go(chunks, Some(upload_succeeded))
    }

    /// Marks the tensors of a chunk on one device as loaded.
    fn make_ready(&mut self, device: usize, chunk: &Vec<ResidentTensor>) -> (fault: Option<&'static str>)
        requires
            old(self).wf(),
            device < old(self).devices@.len(),
        ensures
            final(self).wf(),
            final(self).same_but_caches(&*old(self)),
            final(self).next_device == old(self).next_device,
            ({
                let (cache, problem) = made_ready(
                    old(self).state().caches[device as int],
                    chunk_view(chunk@),
                    chunk@.len() as int,
                );
                &&& final(self).state().caches == old(self).state().caches.update(
                    device as int,
                    cache,
                )
                &&& match fault {
                    None => problem is None,
                    Some(message) => problem == Some(message@),
                }
            }),
    {
        let ghost start = self.state().caches;
        let ghost view = chunk_view(chunk@);
        let mut i: usize = 0;
        assert(start =~= start.update(device as int, start[device as int]));
        while i < chunk.len()
            invariant
                i <= chunk@.len(),
                device < self.devices@.len(),
                self.wf(),
                self.same_but_caches(&*old(self)),
                self.next_device == old(self).next_device,
                start == old(self).state().caches,
                start.len() == self.devices@.len(),
                view == chunk_view(chunk@),
                made_ready(start[device as int], view, i as int).1 is None,
                self.state().caches == start.update(
                    device as int,
                    made_ready(start[device as int], view, i as int).0,
                ),
            decreases chunk@.len() - i,
        {
            let ghost before = *self;
            let ghost cache = made_ready(start[device as int], view, i as int).0;
            proof {
                assert(view[i as int] == chunk@[i as int]@);
                assert(self.state().caches[device as int] == cache);
                assert(self.devices@[device as int].cache.wf());
                lemma_made_ready_stops(
                    start[device as int],
                    view,
                    i as int + 1,
                    chunk@.len() as int,
                );
            }
            if chunk[i].newly_admitted {
                let marked: Result<(), &'static str> = self.devices[device].cache.mark_ready(
                    chunk[i].key.as_str(),
                );
                proof {
                    assert forall|d: int| 0 <= d < self.devices@.len() implies (
                    #[trigger] self.devices@[d]).cache.wf() && self.devices@[d].h2d_batches == old(self).devices@[d].h2d_batches && self.devices@[d].h2d_bytes == old(self).devices@[d].h2d_bytes by {
                        assert(before.devices@[d].cache.wf());
                        assert(before.devices@[d].h2d_batches == old(self).devices@[d].h2d_batches);
                    }
                    let next = made_ready(start[device as int], view, i as int + 1).0;
                    assert(self.devices@[device as int].cache@ == next);
                    assert forall|d: int| 0 <= d < self.devices@.len() implies #[trigger] self.state().caches[d]
                        == start.update(device as int, next)[d] by {
                        assert(before.state().caches[d] == start.update(device as int, cache)[d]);
                    }
                    assert(self.state().caches =~= start.update(device as int, next));
                }
                if let Err(message) = marked {
                    return Some(message);
                }
            }
            i += 1;
        }
        None
    }

    /// Ends the uploads of chunks. Where an upload succeeded, it is counted with
    /// the given bytes, and its tensors are loaded from here on. The result
    /// says, device by device, whether the upload succeeded and its tensors are
    /// loaded, and gives the first fault of a tensor that was not there.
    #[verifier::spinoff_prover]
    pub fn finish_uploads(
        &mut self,
        chunks: &Vec<Vec<ResidentTensor>>,
        uploaded: &Vec<bool>,
        bytes: &Vec<u64>,
    ) -> (result: (Vec<bool>, Option<&'static str>))
        requires
            old(self).wf(),
            chunks@.len() == old(self).devices@.len(),
            uploaded@.len() == old(self).devices@.len(),
            bytes@.len() == old(self).devices@.len(),
            forall|d: int|
                0 <= d < old(self).devices@.len() ==> (#[trigger] old(self).devices@[d]).h2d_batches
                    < u64::MAX && old(self).devices@[d].h2d_bytes + bytes@[d] <= u64::MAX,
        ensures
            final(self).wf(),
            final(self).store == old(self).store,
            final(self).quantization_registry == old(self).quantization_registry,
            final(self).next_device == old(self).next_device,
            final(self).devices@.len() == old(self).devices@.len(),
            result.0@.len() == uploaded@.len(),
            forall|d: int|
                0 <= d < final(self).devices@.len() ==> upload_counted(
                    old(self).devices@[d],
                    #[trigger] final(self).devices@[d],
                    chunk_views(chunks@)[d],
                    uploaded@[d],
                    bytes@[d],
                    result.0@[d],
                ),
            match result.1 {
                None => forall|d: int|
                    0 <= d < chunks@.len() ==> upload_ended(
                        #[trigger] old(self).state().caches[d],
                        chunk_views(chunks@)[d],
                        uploaded@[d],
                    ).1 is None,
                Some(message) => exists|d: int|
                    0 <= d < chunks@.len() && upload_ended(
                        #[trigger] old(self).state().caches[d],
                        chunk_views(chunks@)[d],
                        uploaded@[d],
                    ).1 == Some(message@) && forall|e: int|
                        0 <= e < d ==> upload_ended(
                            #[trigger] old(self).state().caches[e],
                            chunk_views(chunks@)[e],
                            uploaded@[e],
                        ).1 is None,
            },
    {
        let count: usize = self.devices.len();
        let ghost start = self.state().caches;
        let ghost views = chunk_views(chunks@);
        let mut succeeded: Vec<bool> = Vec::new();
        let mut fault: Option<&'static str> = None;
        let mut d: usize = 0;
        while d < count
            invariant
                d <= count,
                count == self.devices@.len(),
                count == old(self).devices@.len(),
                chunks@.len() == count,
                uploaded@.len() == count,
                bytes@.len() == count,
                succeeded@.len() == d,
                views == chunk_views(chunks@),
                start == old(self).state().caches,
                self.wf(),
                self.store == old(self).store,
                self.quantization_registry == old(self).quantization_registry,
                self.next_device == old(self).next_device,
                forall|d: int|
                    0 <= d < old(self).devices@.len() ==> (#[trigger] old(self).devices@[d]).h2d_batches < u64::MAX && old(self).devices@[d].h2d_bytes
                        + bytes@[d] <= u64::MAX,
                forall|e: int|
                    0 <= e < d ==> upload_counted(
                        old(self).devices@[e],
                        #[trigger] self.devices@[e],
                        views[e],
                        uploaded@[e],
                        bytes@[e],
                        succeeded@[e],
                    ),
                forall|e: int|
                    d <= e < count ==> (#[trigger] self.devices@[e]).cache@ == old(
                        self).devices@[e].cache@ && self.devices@[e].h2d_batches == old(
                        self).devices@[e].h2d_batches && self.devices@[e].h2d_bytes == old(
                        self).devices@[e].h2d_bytes,
                match fault {
                    None => forall|e: int|
                        0 <= e < d ==> upload_ended(#[trigger] start[e], views[e], uploaded@[e]).1 is None,
                    Some(message) => exists|e: int|
                        0 <= e < d && upload_ended(#[trigger] start[e], views[e], uploaded@[e]).1
                            == Some(message@) && forall|f: int|
                            0 <= f < e ==> upload_ended(
                                #[trigger] start[f],
                                views[f],
                                uploaded@[f],
                            ).1 is None,
                },
            decreases count - d,
        {
            let ghost before = *self;
            let mut good: bool = uploaded[d];
            proof {
                assert(self.devices@[d as int].cache@ == old(self).devices@[d as int].cache@);
                assert(start[d as int] == self.state().caches[d as int]);
                assert(views[d as int] == chunk_view(chunks@[d as int]@));
            }
            if good {
                let problem: Option<&'static str> = self.make_ready(d, &chunks[d]);
                proof {
                    assert forall|e: int| 0 <= e < count && e != d implies #[trigger] self.devices@[e].cache@
                        == before.devices@[e].cache@ by {
                        assert(self.state().caches[e] == before.state().caches[e]);
                    }
                    assert(self.state().caches[d as int] == made_ready(
                        start[d as int],
                        views[d as int],
                        views[d as int].len() as int,
                    ).0);
                }
                if let Some(message) = problem {
                    good = false;
                    if fault.is_none() {
                        assert(upload_ended(
                            start[d as int],
                            views[d as int],
                            uploaded@[d as int],
                        ).1 == Some(message@));
                        fault = Some(message);
                    }
                }
                if any_upload(&chunks[d]) {
                    let batches: u64 = self.devices[d].h2d_batches;
                    let total: u64 = self.devices[d].h2d_bytes;
                    self.devices[d].h2d_batches = batches + 1;
                    self.devices[d].h2d_bytes = total + bytes[d];
                }
            }
            succeeded.push(good);
            d += 1;
        }
        (succeeded, fault)
    }
}

/// What the end of the uploads does to a device.
pub open spec fn upload_counted(
    before: DeviceState,
    after: DeviceState,
    chunk: Seq<ResidentView>,
    uploaded: bool,
    bytes: u64,
    succeeded: bool,
) -> bool {
    let (cache, fault) = upload_ended(before.cache@, chunk, uploaded);
    let counted = uploaded && has_upload(chunk);
    &&& after.cache@ == cache
    &&& after.h2d_batches == before.h2d_batches + (if counted {
        1int
    } else {
        0
    })
    &&& after.h2d_bytes == before.h2d_bytes + (if counted {
        bytes as int
    } else {
        0
    })
    &&& succeeded == (uploaded && fault is None)
}

/// Turns go round the devices.
pub proof fn turns_go_round(next: int, step: int, count: int)
    requires
        0 <= next < count,
        0 <= step <= count,
    ensures
        turn(next, step, count) == (next + step) % count,
        0 <= turn(next, step, count) < count || step == count,
{
    if next + step < count {
        vstd::arithmetic::div_mod::lemma_small_mod((next + step) as nat, count as nat);
    } else {
        vstd::arithmetic::div_mod::lemma_mod_sub_multiples_vanish(next + step, count);
        vstd::arithmetic::div_mod::lemma_small_mod((next + step - count) as nat, count as nat);
    }
}

/// A round asks each device once, in the order of their turns, and stops at the first that
/// gives pages: that is the one found, those before it gave none, and those behind it are
/// as they were. Where none is found, none gave pages.
pub proof fn rounds_stop_at_the_first_that_gives<W: Fn(u64, u16, usize) -> u64>(
    weigh: W,
    caches: Seq<CacheView>,
    next: int,
    request: AdmissionRequestView,
    step: int,
    count: int,
    after: Seq<CacheView>,
    found: Option<(int, u64)>,
) -> (last: int)
    requires
        count == caches.len(),
        0 <= next < count,
        0 <= step <= count,
        tries(weigh, caches, next, request, step, count, after, found),
    ensures
        after.len() == caches.len(),
        step <= last <= count,
        found is None <==> last == count,
        found is Some ==> {
            let device = turn(next, last, count);
            &&& (found->0).0 == device
            &&& exists|bytes: usize|
                answers(
                    weigh,
                    caches[device],
                    request,
                    after[device],
                    #[trigger] admitted_at((found->0).1, bytes),
                )
        },
        forall|t: int|
            last < t < count ==> after[#[trigger] turn(next, t, count)] == caches[turn(
                next,
                t,
                count,
            )],
        forall|t: int| 0 <= t < step ==> after[#[trigger] turn(next, t, count)] == caches[turn(next, t, count)],
        forall|t: int|
            step <= t < last ==> gives_no_pages(
                weigh,
                caches[#[trigger] turn(next, t, count)],
                request,
                after[turn(next, t, count)],
            ),
    decreases count - step,
{
    if step >= count {
        count
    } else {
        let device = turn(next, step, count);
        let (cache, admission) = choose|cache: CacheView, admission: Admission| #[trigger]
            answers(weigh, caches[device], request, cache, admission) && match admission {
                Admission::Admitted { offset, .. } => found == Some((device, offset)) && after
                    == caches.update(device, cache),
                _ => tries(
                    weigh,
                    caches.update(device, cache),
                    next,
                    request,
                    step + 1,
                    count,
                    after,
                    found,
                ),
            };
        match admission {
            Admission::Admitted { offset, allocated_bytes } => {
                assert(answers(
                    weigh,
                    caches[device],
                    request,
                    after[device],
                    admitted_at(offset, allocated_bytes),
                ));
                step
            },
            _ => {
                let during = caches.update(device, cache);
                let last = rounds_stop_at_the_first_that_gives(
                    weigh,
                    during,
                    next,
                    request,
                    step + 1,
                    count,
                    after,
                    found,
                );
                assert(after[turn(next, step, count)] == during[turn(next, step, count)]);
                assert(answers(weigh, caches[device], request, after[device], admission));
                assert(gives_no_pages(weigh, caches[device], request, after[device]));
                assert forall|t: int| step <= t < last implies gives_no_pages(
                    weigh,
                    caches[#[trigger] turn(next, t, count)],
                    request,
                    after[turn(next, t, count)],
                ) by {
                    if t > step {
                        assert(turn(next, t, count) != device);
                        assert(during[turn(next, t, count)] == caches[turn(next, t, count)]);
                    }
                }
                last
            },
        }
    }
}

/// Whether a cache may answer a request without giving pages.
pub open spec fn gives_no_pages<W: Fn(u64, u16, usize) -> u64>(
    weigh: W,
    before: CacheView,
    request: AdmissionRequestView,
    after: CacheView,
) -> bool {
    exists|admission: Admission|
        !(admission is Admitted) && #[trigger] answers(weigh, before, request, after, admission)
}

/// An admission at an offset.
pub open spec fn admitted_at(offset: u64, allocated_bytes: usize) -> Admission {
    Admission::Admitted { offset, allocated_bytes }
}

/// What is uploaded is every tensor of a chunk that is not loaded yet, in order, each to
/// its own place.
pub proof fn every_new_tensor_is_uploaded(chunk: Seq<ResidentView>)
    ensures
        upload_list(chunk) == chunk.filter(|tensor: ResidentView| tensor.newly_admitted).map_values(
            |tensor: ResidentView| (tensor.offset, tensor.candidate_index),
        ),
    decreases chunk.len(),
{
    reveal(Seq::filter);
    let new = |tensor: ResidentView| tensor.newly_admitted;
    let pair = |tensor: ResidentView| (tensor.offset, tensor.candidate_index);
    if chunk.len() > 0 {
        every_new_tensor_is_uploaded(chunk.drop_last());
        let before = chunk.drop_last().filter(new);
        if chunk.last().newly_admitted {
            assert(chunk.filter(new) =~= before.push(chunk.last()));
            assert(before.push(chunk.last()).map_values(pair) =~= before.map_values(pair).push(
                pair(chunk.last()),
            ));
        } else {
            assert(chunk.filter(new) =~= before);
        }
    } else {
        assert(chunk.filter(new).map_values(pair) =~= Seq::empty());
    }
}

/// Once the uploads of a chunk are done without a fault, every tensor that came with them
/// is loaded, and nothing else changed.
pub proof fn uploaded_tensors_are_loaded(cache: CacheView, chunk: Seq<ResidentView>, count: int)
    requires
        0 <= count <= chunk.len(),
        made_ready(cache, chunk, count).1 is None,
    ensures
        ({
            let after = made_ready(cache, chunk, count).0;
            &&& forall|i: int|
                0 <= i < count && (#[trigger] chunk[i]).newly_admitted ==> after.entries.contains_key(
                    chunk[i].key,
                ) && after.entries[chunk[i].key].ready
            &&& after.entries.dom() =~= cache.entries.dom()
            &&& forall|key: Seq<char>| #[trigger]
                after.entries.contains_key(key) ==> after.entries[key] == (EntryView {
                    ready: after.entries[key].ready,
                    ..cache.entries[key]
                }) && (cache.entries[key].ready ==> after.entries[key].ready)
            &&& forall|key: Seq<char>| #[trigger]
                after.entries.contains_key(key) && (forall|i: int|
                    0 <= i < count ==> (#[trigger] chunk[i]).key != key) ==> after.entries[key]
                    == cache.entries[key]
            &&& after.arena == cache.arena
            &&& after.usage == cache.usage
        }),
    decreases count,
{
    if count > 0 {
        uploaded_tensors_are_loaded(cache, chunk, count - 1);
        let before = made_ready(cache, chunk, count - 1).0;
        let after = made_ready(cache, chunk, count).0;
        assert forall|key: Seq<char>| #[trigger]
            after.entries.contains_key(key) implies after.entries[key] == (EntryView {
            ready: after.entries[key].ready,
            ..cache.entries[key]
        }) && (cache.entries[key].ready ==> after.entries[key].ready) by {
            assert(before.entries.contains_key(key));
        }
        assert forall|i: int|
            0 <= i < count && (#[trigger] chunk[i]).newly_admitted implies after.entries.contains_key(
            chunk[i].key,
        ) && after.entries[chunk[i].key].ready by {
            if i < count - 1 {
                assert(before.entries.contains_key(chunk[i].key));
            }
        }
        assert forall|key: Seq<char>| #[trigger]
            after.entries.contains_key(key) && (forall|i: int|
                0 <= i < count ==> (#[trigger] chunk[i]).key != key) implies after.entries[key]
            == cache.entries[key] by {
            assert(before.entries.contains_key(key));
            assert(chunk[count - 1].key != key);
        }
    }
}

/// A tensor is hit on the first device that has it loaded, and is missing where none has.
pub proof fn the_first_loaded_device_is_hit(caches: Seq<CacheView>, key: Seq<char>, from: int)
    requires
        0 <= from <= caches.len(),
    ensures
        match hit_device(caches, key, from) {
            Some(device) => from <= device < caches.len() && caches[device].entries.contains_key(key)
                && caches[device].entries[key].ready && forall|d: int|
                from <= d < device ==> !((#[trigger] caches[d]).entries.contains_key(key)
                    && caches[d].entries[key].ready),
            None => forall|d: int|
                from <= d < caches.len() ==> !((#[trigger] caches[d]).entries.contains_key(key)
                    && caches[d].entries[key].ready),
        },
    decreases caches.len() - from,
{
    if from < caches.len() {
        the_first_loaded_device_is_hit(caches, key, from + 1);
    }
}

/// The first place of a key among keys is the least at which it stands.
pub proof fn first_places_are_least(keys: Seq<Seq<char>>, key: Seq<char>, count: int, i: int)
    requires
        0 <= i < count <= keys.len(),
        keys[i] == key,
    ensures
        first_index(keys, key, count) is Some,
        0 <= first_index(keys, key, count)->0 <= i,
        keys[first_index(keys, key, count)->0] == key,
    decreases count,
{
    lemma_first_index(keys, key, count);
    if i < count - 1 {
        first_places_are_least(keys, key, count - 1, i);
    } else {
        lemma_first_index(keys, key, count - 1);
    }
}

/// Every candidate is planned for: one that repeats an earlier candidate is noted with the
/// first of its key; another is a hit on the first device where it is loaded; the rest are
/// missing.
pub proof fn every_candidate_is_planned(
    caches: Seq<CacheView>,
    candidates: Seq<Descriptor>,
    profile: ScoringProfile,
    contract: Option<Seq<char>>,
    count: int,
    i: int,
)
    requires
        0 <= i < count <= candidates.len(),
        hit_plan(caches, candidates, profile, contract, count) is Ok,
    ensures
        ({
            let plan = hit_plan(caches, candidates, profile, contract, count)->Ok_0;
            let keys = candidate_keys(candidates, profile, contract);
            &&& plan.hits.len() == caches.len()
            &&& match first_index(keys, keys[i], i) {
                Some(first) => plan.duplicates.contains((i, first)),
                None => match hit_device(caches, keys[i], 0) {
                    Some(device) => plan.hits[device].contains(
                        resident(i, device, keys[i], caches[device].entries[keys[i]]),
                    ),
                    None => plan.missing.contains(i),
                },
            }
        }),
    decreases count,
{
    let keys = candidate_keys(candidates, profile, contract);
    let before = hit_plan(caches, candidates, profile, contract, count - 1)->Ok_0;
    let plan = hit_plan(caches, candidates, profile, contract, count)->Ok_0;
    lemma_plan_hits(caches, candidates, profile, contract, count - 1);
    lemma_plan_hits(caches, candidates, profile, contract, count);
    let last = count - 1;
    the_first_loaded_device_is_hit(caches, keys[last], 0);
    the_first_loaded_device_is_hit(caches, keys[i], 0);
    if i < last {
        every_candidate_is_planned(caches, candidates, profile, contract, count - 1, i);
        match first_index(keys, keys[i], i) {
            Some(first) => {
                let at = choose|at: int|
                    0 <= at < before.duplicates.len() && before.duplicates[at] == (i, first);
                assert(plan.duplicates[at] == (i, first));
            },
            None => match hit_device(caches, keys[i], 0) {
                Some(device) => {
                    let tensor = resident(i, device, keys[i], caches[device].entries[keys[i]]);
                    let at = choose|at: int|
                        0 <= at < before.hits[device].len() && before.hits[device][at] == tensor;
                    assert(plan.hits[device][at] == tensor);
                },
                None => {
                    let at = choose|at: int| 0 <= at < before.missing.len() && before.missing[at] == i;
                    assert(plan.missing[at] == i);
                },
            },
        }
    } else {
        match first_index(keys, keys[i], i) {
            Some(first) => {
                assert(plan.duplicates[before.duplicates.len() as int] == (i, first));
            },
            None => match hit_device(caches, keys[i], 0) {
                Some(device) => {
                    let tensor = resident(i, device, keys[i], caches[device].entries[keys[i]]);
                    assert(plan.hits[device][before.hits[device].len() as int] == tensor);
                },
                None => {
                    assert(plan.missing[before.missing.len() as int] == i);
                },
            },
        }
    }
}

proof fn lemma_plan_hits(
    caches: Seq<CacheView>,
    candidates: Seq<Descriptor>,
    profile: ScoringProfile,
    contract: Option<Seq<char>>,
    count: int,
)
    ensures
        hit_plan(caches, candidates, profile, contract, count) is Ok ==> hit_plan(
            caches,
            candidates,
            profile,
            contract,
            count,
        )->Ok_0.hits.len() == caches.len(),
    decreases count,
{
    if count > 0 {
        lemma_plan_hits(caches, candidates, profile, contract, count - 1);
        let keys = candidate_keys(candidates, profile, contract);
        the_first_loaded_device_is_hit(caches, keys[count - 1], 0);
    }
}

/// A request is scored on the devices exactly where it asks for an exact or a row-scaled
/// profile and has candidates; one for a trained quantizer never is.
pub proof fn only_dense_profiles_are_scored(
    profile: ScoringProfile,
    has_contract: bool,
    candidates: nat,
    has_registry: bool,
)
    ensures
        gate_of(profile, has_contract, candidates, has_registry) == Ok::<RequestGate, EngineError>(
            RequestGate::Score,
        ) <==> candidates > 0 && (profile == ScoringProfile::ExactFp16 || profile
            == ScoringProfile::Int8 || profile == ScoringProfile::Fp8E4m3),
        gate_of(profile, has_contract, candidates, has_registry) == Ok::<RequestGate, EngineError>(
            RequestGate::Resolve,
        ) <==> candidates > 0 && has_contract && has_registry && (profile == ScoringProfile::Pq
            || profile == ScoringProfile::OpqRpq),
{
}

/// Only the first tensor of a chunk takes pages for the time being.
pub proof fn only_the_first_takes_pages_for_the_time_being<W: Fn(u64, u16, usize) -> u64>(
    weigh: W,
    before: EngineView,
    tenant: Seq<char>,
    tensor: MissingTensor,
    count: int,
    after: EngineView,
    placed: ResidentView,
)
    requires
        takes(weigh, before, tenant, tensor, is_first(count), after, Some(placed)),
        placed.transient,
    ensures
        count == 1,
        placed.newly_admitted,
{
}

/// A tensor that is taken is the one that was asked for; a loaded one is not uploaded
/// again, and another is.
pub proof fn taken_tensors_are_those_asked_for<W: Fn(u64, u16, usize) -> u64>(
    weigh: W,
    before: EngineView,
    tenant: Seq<char>,
    tensor: MissingTensor,
    first: bool,
    after: EngineView,
    placed: ResidentView,
)
    requires
        takes(weigh, before, tenant, tensor, first, after, Some(placed)),
    ensures
        placed.key == tensor.key@,
        placed.candidate_index == tensor.candidate_index,
        placed.newly_admitted <==> forall|d: int|
            0 <= d < before.caches.len() ==> !((#[trigger] before.caches[d]).entries.contains_key(
                tensor.key@,
            ) && before.caches[d].entries[tensor.key@].ready),
        placed.newly_admitted ==> placed.rows == tensor.rows,
{
    the_first_loaded_device_is_hit(before.caches, tensor.key@, 0);
}

/// A tensor that is let go leaves its device where it was there for the time being, or
/// where it came with an upload that failed; otherwise it stays.
pub proof fn loaded_tensors_stay(tensor: ResidentView, uploaded: Seq<bool>)
    ensures
        leaves(tensor, None) <==> tensor.transient,
        leaves(tensor, Some(uploaded)) ==> tensor.newly_admitted,
        tensor.newly_admitted && !uploaded[tensor.device as int] ==> leaves(tensor, Some(uploaded)),
        tensor.newly_admitted && tensor.transient ==> leaves(tensor, Some(uploaded)),
        uploaded[tensor.device as int] && !tensor.transient ==> !leaves(tensor, Some(uploaded)),
{
}

} // verus!
