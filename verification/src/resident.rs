//! Tensors that stay on the devices from the start.

use crate::cache::{AdmissionRequest, CacheEntry, CacheView, EntryView};
use crate::engine::{
    acquired, admitted, cache_room, chunk_view, hit_device, lemma_hit_device, let_go, missed,
    pages_for, resident, tries, turn, Engine, EngineView, MissingTensor, ResidentTensor, ResidentView,
};
use crate::protocol::{descriptor_views, Descriptor, DescriptorView, ScoringProfile};
use crate::tensors::{gpu_cache_key, gpu_key, unique_descriptors, without_repeats, EngineError};
use vstd::prelude::*;

verus! {

/// The tenant that owns the resident tensors.
pub const RESIDENT_TENANT: &'static str = "__resident__";

/// The `index`-th batch of a list.
pub open spec fn batch_of(list: Seq<DescriptorView>, size: int, index: int) -> Seq<DescriptorView> {
    list.subrange(
        index * size,
        if (index + 1) * size < list.len() {
            (index + 1) * size
        } else {
            list.len() as int
        },
    )
}

/// The batches in which the tensors of a manifest are brought to the devices,
/// each tensor once.
pub fn prewarm_batches(descriptors: &[Descriptor], batch_size: usize) -> (result: Result<
    Vec<Vec<Descriptor>>,
    EngineError,
>)
    ensures
        match result {
            Err(error) => batch_size == 0 && error == EngineError::BatchSize,
            Ok(batches) => {
                let unique = without_repeats(descriptors@);
                &&& batch_size > 0
                &&& batches@.len() == (unique.len() + batch_size - 1) / batch_size as int
                &&& forall|i: int|
                    0 <= i < batches@.len() ==> descriptor_views((#[trigger] batches@[i])@)
                        == batch_of(unique, batch_size as int, i)
            },
        },
{
    if batch_size == 0 {
        return Err(EngineError::BatchSize);
    }
    let unique: Vec<Descriptor> = unique_descriptors(descriptors);
    let ghost list = descriptor_views(unique@);
    let ghost size = batch_size as int;
    let mut batches: Vec<Vec<Descriptor>> = Vec::new();
    let mut from: usize = 0;
    assert(0 * size == 0 && (0 - 1) * size < 0) by (nonlinear_arith)
        requires
            size > 0,
    ;
    while from < unique.len()
        invariant
            size == batch_size,
            size > 0,
            list == descriptor_views(unique@),
            from <= unique@.len(),
            from == unique@.len() || from == batches@.len() * size,
            (batches@.len() - 1) * size < from,
            from <= batches@.len() * size,
            forall|i: int|
                0 <= i < batches@.len() ==> descriptor_views((#[trigger] batches@[i])@) == batch_of(
                    list,
                    size,
                    i,
                ),
        decreases unique@.len() - from,
    {
        let ghost index = batches@.len() as int;
        let to: usize = if unique.len() - from > batch_size {
            from + batch_size
        } else {
            unique.len()
        };
        let mut batch: Vec<Descriptor> = Vec::new();
        let mut i: usize = from;
        while i < to
            invariant
                from <= i <= to <= unique@.len(),
                batch@.len() == i - from,
                list == descriptor_views(unique@),
                descriptor_views(batch@) =~= list.subrange(from as int, i as int),
            decreases to - i,
        {
            let ghost before = batch@;
            let copy: Descriptor = unique[i].duplicate();
            batch.push(copy);
            assert(descriptor_views(batch@) =~= descriptor_views(before).push(copy@));
            assert(list.subrange(from as int, i + 1) =~= list.subrange(from as int, i as int).push(
                list[i as int],
            ));
            i += 1;
        }
        proof {
            assert((index + 1) * size == index * size + size) by (nonlinear_arith);
            assert(descriptor_views(batch@) =~= batch_of(list, size, index));
        }
        batches.push(batch);
        from = to;
    }
    proof {
        let count = batches@.len() as int;
        let n = list.len() as int;
        assert(unique@.len() == n);
        assert(count == (n + size - 1) / size) by (nonlinear_arith)
            requires
                size > 0,
                n >= 0,
                count >= 0,
                (count - 1) * size < n,
                n <= count * size,
        ;
    }
    Ok(batches)
}

/// What the tensors of a batch take up on a device.
pub open spec fn is_resident_tensor(tensor: MissingTensor, descriptor: DescriptorView, bytes: usize, index: int) -> bool {
    &&& tensor.candidate_index == index
    &&& tensor.key@ == gpu_key(ScoringProfile::ExactFp16, None, descriptor)
    &&& tensor.payload_bytes == bytes
    &&& tensor.rows == descriptor.rows
    &&& tensor.dimension == descriptor.dimension
    &&& tensor.dtype == descriptor.dtype
}

/// What the tensors of a batch take up on a device.
pub fn resident_tensors(batch: &[Descriptor], sizes: &[usize]) -> (tensors: Vec<MissingTensor>)
    requires
        sizes@.len() == batch@.len(),
    ensures
        tensors@.len() == batch@.len(),
        forall|i: int|
            0 <= i < tensors@.len() ==> is_resident_tensor(
                #[trigger] tensors@[i],
                batch@[i]@,
                sizes@[i],
                i,
            ),
{
    let mut tensors: Vec<MissingTensor> = Vec::new();
    let mut i: usize = 0;
    while i < batch.len()
        invariant
            i <= batch@.len(),
            sizes@.len() == batch@.len(),
            tensors@.len() == i,
            forall|j: int|
                0 <= j < i ==> is_resident_tensor(
                    #[trigger] tensors@[j],
                    batch@[j]@,
                    sizes@[j],
                    j,
                ),
        decreases batch@.len() - i,
    {
        let descriptor: &Descriptor = &batch[i];
        tensors.push(
            MissingTensor {
                candidate_index: i,
                key: gpu_cache_key(descriptor, ScoringProfile::ExactFp16, None),
                payload_bytes: sizes[i],
                rows: descriptor.rows,
                dimension: descriptor.dimension,
                dtype: descriptor.dtype,
            },
        );
        i += 1;
    }
    tensors
}

/// One tensor is made resident, or no device has room for it. One that is loaded
/// is used as it is; another gets pinned pages, in the order of the devices'
/// turns.
pub open spec fn settles<W: Fn(u64, u16, usize) -> u64>(
    weigh: W,
    before: EngineView,
    tensor: MissingTensor,
    after: EngineView,
    placed: Option<ResidentView>,
) -> bool {
    let count = before.caches.len() as int;
    match hit_device(before.caches, tensor.key@, 0) {
        Some(device) => {
            &&& placed == Some(
                resident(
                    tensor.candidate_index as int,
                    device,
                    tensor.key@,
                    before.caches[device].entries[tensor.key@],
                ),
            )
            &&& after == (EngineView {
                caches: before.caches.update(device, acquired(before.caches[device], tensor.key@)),
                ..before
            })
        },
        None => {
            let noted = before.caches.update(
                before.next_device,
                missed(before.caches[before.next_device], tensor.key@),
            );
            exists|last: Seq<CacheView>, found: Option<(int, u64)>| #[trigger]
                tries(
                    weigh,
                    noted,
                    before.next_device,
                    pages_for(RESIDENT_TENANT@, tensor, true, true),
                    0,
                    count,
                    last,
                    found,
                ) && match found {
                    Some((device, offset)) => placed == Some(
                        admitted(tensor, device, offset, false),
                    ) && after == (EngineView { caches: last, next_device: turn(device, 1, count) }),
                    None => placed is None && after == (EngineView { caches: last, ..before }),
                }
        },
    }
}

/// The first `count` tensors of a batch were made resident one after the other.
pub open spec fn settled<W: Fn(u64, u16, usize) -> u64>(
    weigh: W,
    start: EngineView,
    tensors: Seq<MissingTensor>,
    count: int,
    state: EngineView,
    placed: Seq<ResidentView>,
) -> bool
    decreases count,
{
    if count <= 0 {
        state == start && placed.len() == 0
    } else {
        placed.len() > 0 && exists|middle: EngineView| #[trigger]
            settles(weigh, middle, tensors[count - 1], state, Some(placed.last())) && settled(
                weigh,
                start,
                tensors,
                count - 1,
                middle,
                placed.drop_last(),
            )
    }
}

/// A batch could not be made resident: some tensor had no room, after the ones
/// before it had.
pub open spec fn overflows<W: Fn(u64, u16, usize) -> u64>(
    weigh: W,
    start: EngineView,
    tensors: Seq<MissingTensor>,
    after: EngineView,
) -> bool {
    exists|index: int, state: EngineView, placed: Seq<ResidentView>| #[trigger]
        settled(weigh, start, tensors, index, state, placed) && 0 <= index < tensors.len()
            && settles(weigh, state, tensors[index], after, None)
}

/// A cache after a resident tensor is let go: it is loaded, or it leaves where
/// its upload failed. With a fault, the cache is as far as it came.
pub open spec fn concluded(cache: CacheView, tensor: ResidentView, uploaded: bool) -> (
    CacheView,
    Option<Seq<char>>,
) {
    let entry = cache.entries[tensor.key];
    if tensor.newly_admitted && uploaded {
        if !cache.entries.contains_key(tensor.key) {
            (cache, Some("GPU cache entry disappeared before upload completed"@))
        } else {
            let loaded = CacheView {
                entries: cache.entries.insert(tensor.key, EntryView { ready: true, ..entry }),
                ..cache
            };
            match let_go(loaded, tensor.key, false) {
                Ok(after) => (after, None),
                Err(message) => (loaded, Some(message)),
            }
        }
    } else {
        match let_go(cache, tensor.key, tensor.newly_admitted) {
            Ok(after) => (after, None),
            Err(message) => (cache, Some(message)),
        }
    }
}

/// The caches after the first `count` resident tensors are let go, and the first
/// fault.
pub open spec fn conclusion(
    caches: Seq<CacheView>,
    tensors: Seq<ResidentView>,
    uploaded: Seq<bool>,
    count: int,
) -> (Seq<CacheView>, Option<Seq<char>>)
    decreases count,
{
    if count <= 0 {
        (caches, None)
    } else {
        let (before, fault) = conclusion(caches, tensors, uploaded, count - 1);
        let tensor = tensors[count - 1];
        let device = tensor.device as int;
        if fault is Some {
            (before, fault)
        } else {
            let (cache, fault) = concluded(before[device], tensor, uploaded[device]);
            (before.update(device, cache), fault)
        }
    }
}

/// A fault among the first tensors is the fault of all of them.
proof fn lemma_conclusion_stops(
    caches: Seq<CacheView>,
    tensors: Seq<ResidentView>,
    uploaded: Seq<bool>,
    count: int,
    all: int,
)
    requires
        0 <= count <= all,
    ensures
        conclusion(caches, tensors, uploaded, count).1 is Some ==> conclusion(
            caches,
            tensors,
            uploaded,
            all,
        ) == conclusion(caches, tensors, uploaded, count),
    decreases all,
{
    if count < all {
        lemma_conclusion_stops(caches, tensors, uploaded, count, all - 1);
    }
}

impl Engine {
    /// Makes one tensor resident.
    #[verifier::spinoff_prover]
    fn settle<W: Fn(u64, u16, usize) -> u64>(
        &mut self,
        tensor: &MissingTensor,
        weigh: &W,
        room: Ghost<int>,
    ) -> (placed: Option<ResidentTensor>)
        requires
            old(self).wf(),
            room@ >= 2,
            old(self).room(room@),
            forall|inflation: u64, frequency: u16, bytes: usize|
                call_requires(*weigh, (inflation, frequency, bytes)),
        ensures
            final(self).wf(),
            final(self).room(room@ - 2),
            final(self).same_but_caches(&*old(self)),
            settles(
                *weigh,
                old(self).state(),
                *tensor,
                final(self).state(),
                match placed {
                    Some(placed) => Some(placed@),
                    None => None,
                },
            ),
            match placed {
                Some(placed) => placed.device < final(self).devices@.len(),
                None => true,
            },
    {
        let ghost before = *self;
        proof {
            lemma_hit_device(self.state().caches, self.state().caches, tensor.key@, 0);
        }
        if let Some(device) = self.find_hit(tensor.key.as_str()) {
            proof {
                assert(cache_room(self.devices@[device as int].cache, room@));
                assert(self.devices@[device as int].cache.wf());
                assert(self.devices@[device as int].cache@.entries.contains_key(tensor.key@));
            }
            let entry: Option<CacheEntry> = self.devices[device].cache.acquire_existing(
                tensor.key.as_str(),
            );
            proof {
                let former = before.devices@[device as int].cache@;
                let cache = self.devices@[device as int].cache@;
                assert(cache == acquired(former, tensor.key@));
                assert(self.state().caches =~= before.state().caches.update(device as int, cache));
                assert forall|d: int| 0 <= d < self.devices@.len() implies cache_room(
                    (#[trigger] self.devices@[d]).cache,
                    room@ - 2,
                ) && self.devices@[d].cache.wf() && self.devices@[d].h2d_batches
                    == before.devices@[d].h2d_batches && self.devices@[d].h2d_bytes
                    == before.devices@[d].h2d_bytes by {
                    assert(before.devices@[d].cache.wf());
                    assert(cache_room(before.devices@[d].cache, room@));
                }
            }
            return match entry {
                Some(entry) => Some(
                    ResidentTensor {
                        candidate_index: tensor.candidate_index,
                        device,
                        key: tensor.key.clone(),
                        offset: entry.offset,
                        rows: entry.rows,
                        transient: false,
                        newly_admitted: false,
                    },
                ),
                None => None,
            };
        }
        let next: usize = self.next_device;
        proof {
            assert(cache_room(self.devices@[next as int].cache, room@));
            assert(self.devices@[next as int].cache.wf());
        }
        self.devices[next].cache.record_access_miss(tensor.key.as_str());
        let ghost noted = self.state().caches;
        proof {
            let former = before.devices@[next as int].cache@;
            assert(noted =~= before.state().caches.update(
                before.state().next_device,
                missed(before.state().caches[before.state().next_device], tensor.key@),
            ));
            assert forall|d: int| 0 <= d < self.devices@.len() implies cache_room(
                (#[trigger] self.devices@[d]).cache,
                room@ - 1,
            ) && self.devices@[d].cache.wf() && self.devices@[d].h2d_batches
                == before.devices@[d].h2d_batches && self.devices@[d].h2d_bytes
                == before.devices@[d].h2d_bytes by {
                assert(before.devices@[d].cache.wf());
                assert(cache_room(before.devices@[d].cache, room@));
            }
        }
        let ghost middle = *self;
        let request = AdmissionRequest {
            tenant: RESIDENT_TENANT.to_owned(),
            key: tensor.key.clone(),
            payload_bytes: tensor.payload_bytes,
            rows: tensor.rows,
            dimension: tensor.dimension,
            dtype: tensor.dtype,
            pinned: true,
            force: true,
        };
        assert(request@ == pages_for(RESIDENT_TENANT@, *tensor, true, true));
        let found: Option<(usize, u64)> = self.try_devices(&request, weigh, Ghost(room@ - 1));
        let placed: Option<ResidentTensor> = match found {
            Some((device, offset)) => Some(
                ResidentTensor {
                    candidate_index: tensor.candidate_index,
                    device,
                    key: tensor.key.clone(),
                    offset,
                    rows: tensor.rows,
                    transient: false,
                    newly_admitted: true,
                },
            ),
            None => None,
        };
        proof {
            assert(before.state().caches.len() == before.devices@.len());
            assert(tries(
                *weigh,
                noted,
                before.state().next_device,
                pages_for(RESIDENT_TENANT@, *tensor, true, true),
                0,
                before.state().caches.len() as int,
                self.state().caches,
                match found {
                    Some((device, offset)) => Some((device as int, offset)),
                    None => None,
                },
            ));
            assert(self.same_but_caches(&before)) by {
                assert forall|d: int| 0 <= d < self.devices@.len() implies (
                #[trigger] self.devices@[d]).h2d_batches == before.devices@[d].h2d_batches
                    && self.devices@[d].h2d_bytes == before.devices@[d].h2d_bytes by {
                    assert(middle.devices@[d].h2d_batches == before.devices@[d].h2d_batches);
                }
            }
        }
        placed
    }

    /// Makes the tensors of a batch resident. They are in use until the batch is
    /// concluded.
    #[verifier::spinoff_prover]
    pub fn prewarm<W: Fn(u64, u16, usize) -> u64>(&mut self, tensors: &[MissingTensor], weigh: &W) -> (result:
        Result<Vec<ResidentTensor>, EngineError>)
        requires
            old(self).wf(),
            old(self).room(2 * tensors@.len() as int),
            forall|inflation: u64, frequency: u16, bytes: usize|
                call_requires(*weigh, (inflation, frequency, bytes)),
        ensures
            final(self).wf(),
            final(self).same_but_caches(&*old(self)),
            match result {
                Ok(placed) => settled(
                    *weigh,
                    old(self).state(),
                    tensors@,
                    tensors@.len() as int,
                    final(self).state(),
                    chunk_view(placed@),
                ) && forall|i: int|
                    0 <= i < placed@.len() ==> (#[trigger] placed@[i]).device < final(
                        self).devices@.len(),
                Err(error) => error == EngineError::ResidentOverflow && overflows(
                    *weigh,
                    old(self).state(),
                    tensors@,
                    final(self).state(),
                ),
            },
    {
        let count: usize = tensors.len();
        let mut placed: Vec<ResidentTensor> = Vec::new();
        let mut i: usize = 0;
        while i < count
            invariant
                i <= count,
                count == tensors@.len(),
                self.wf(),
                self.same_but_caches(&*old(self)),
                self.room(2 * (count - i)),
                forall|inflation: u64, frequency: u16, bytes: usize|
                    call_requires(*weigh, (inflation, frequency, bytes)),
                settled(
                    *weigh,
                    old(self).state(),
                    tensors@,
                    i as int,
                    self.state(),
                    chunk_view(placed@),
                ),
                forall|j: int|
                    0 <= j < placed@.len() ==> (#[trigger] placed@[j]).device < self.devices@.len(),
            decreases count - i,
        {
            let ghost before = *self;
            let ghost state = self.state();
            let ghost list = chunk_view(placed@);
            let one: Option<ResidentTensor> = self.settle(
                &tensors[i],
                weigh,
                Ghost(2 * (count - i)),
            );
            proof {
                assert(self.same_but_caches(&*old(self))) by {
                    assert forall|d: int| 0 <= d < self.devices@.len() implies (
                    #[trigger] self.devices@[d]).h2d_batches == old(self).devices@[d].h2d_batches
                        && self.devices@[d].h2d_bytes == old(self).devices@[d].h2d_bytes by {
                        assert(before.devices@[d].h2d_batches == old(self).devices@[d].h2d_batches);
                    }
                }
            }
            match one {
                Some(tensor) => {
                    let ghost view = tensor@;
                    placed.push(tensor);
                    proof {
                        let longer = chunk_view(placed@);
                        let total = i as int + 1;
                        assert(longer =~= list.push(view));
                        assert(longer.drop_last() =~= list);
                        assert(settles(
                            *weigh,
                            state,
                            tensors@[total - 1],
                            self.state(),
                            Some(longer.last()),
                        ));
                        assert(settled(
                            *weigh,
                            old(self).state(),
                            tensors@,
                            total,
                            self.state(),
                            longer,
                        ));
                    }
                },
                None => {
                    proof {
                        assert(settled(
                            *weigh,
                            old(self).state(),
                            tensors@,
                            i as int,
                            state,
                            list,
                        ));
                        assert(overflows(*weigh, old(self).state(), tensors@, self.state()));
                    }
                    return Err(EngineError::ResidentOverflow);
                },
            }
            i += 1;
        }
        Ok(placed)
    }

    /// Lets one resident tensor go.
    fn conclude_tensor(&mut self, tensor: &ResidentTensor, uploaded: bool) -> (result: Result<
        (),
        &'static str,
    >)
        requires
            old(self).wf(),
            tensor.device < old(self).devices@.len(),
        ensures
            final(self).wf(),
            final(self).same_but_caches(&*old(self)),
            final(self).next_device == old(self).next_device,
            ({
                let (cache, fault) = concluded(
                    old(self).state().caches[tensor.device as int],
                    tensor@,
                    uploaded,
                );
                &&& final(self).state().caches == old(self).state().caches.update(
                    tensor.device as int,
                    cache,
                )
                &&& match result {
                    Ok(()) => fault is None,
                    Err(message) => fault == Some(message@),
                }
            }),
    {
        let ghost before = *self;
        let device: usize = tensor.device;
        assert(self.devices@[device as int].cache.wf());
        if tensor.newly_admitted && uploaded {
            let marked: Result<(), &'static str> = self.devices[device].cache.mark_ready(
                tensor.key.as_str(),
            );
            proof {
                assert forall|d: int| 0 <= d < self.devices@.len() implies (
                #[trigger] self.devices@[d]).cache.wf() && self.devices@[d].h2d_batches
                    == before.devices@[d].h2d_batches && self.devices@[d].h2d_bytes
                    == before.devices@[d].h2d_bytes by {
                    assert(before.devices@[d].cache.wf());
                }
                assert(self.state().caches =~= before.state().caches.update(
                    device as int,
                    self.devices@[device as int].cache@,
                ));
            }
            if let Err(message) = marked {
                return Err(message);
            }
        }
        let ghost middle = *self;
        assert(self.devices@[device as int].cache.wf());
        let result: Result<(), &'static str> = if tensor.newly_admitted && !uploaded {
            self.devices[device].cache.remove(tensor.key.as_str())
        } else {
            self.devices[device].cache.release(tensor.key.as_str())
        };
        proof {
            assert forall|d: int| 0 <= d < self.devices@.len() implies (
            #[trigger] self.devices@[d]).cache.wf() && self.devices@[d].h2d_batches
                == before.devices@[d].h2d_batches && self.devices@[d].h2d_bytes
                == before.devices@[d].h2d_bytes && (d != device ==> self.devices@[d].cache@
                == before.devices@[d].cache@) by {
                assert(middle.devices@[d].cache.wf());
                assert(before.devices@[d].cache.wf());
            }
            assert(self.state().caches =~= before.state().caches.update(
                device as int,
                self.devices@[device as int].cache@,
            ));
        }
        result
    }

    /// Concludes a batch: the tensors whose upload succeeded are loaded, those
    /// whose upload failed leave, and all are let go. Stops at the first fault.
    pub fn conclude_prewarm(&mut self, placed: &Vec<ResidentTensor>, uploaded: &Vec<bool>) -> (result:
        Result<(), &'static str>)
        requires
            old(self).wf(),
            uploaded@.len() == old(self).devices@.len(),
            forall|i: int|
                0 <= i < placed@.len() ==> (#[trigger] placed@[i]).device < old(
                    self).devices@.len(),
        ensures
            final(self).wf(),
            final(self).same_but_caches(&*old(self)),
            final(self).next_device == old(self).next_device,
            ({
                let (caches, fault) = conclusion(
                    old(self).state().caches,
                    chunk_view(placed@),
                    uploaded@,
                    placed@.len() as int,
                );
                &&& final(self).state().caches == caches
                &&& match result {
                    Ok(()) => fault is None,
                    Err(message) => fault == Some(message@),
                }
            }),
    {
        let ghost start = self.state().caches;
        let ghost view = chunk_view(placed@);
        let mut i: usize = 0;
        while i < placed.len()
            invariant
                i <= placed@.len(),
                self.wf(),
                self.same_but_caches(&*old(self)),
                self.next_device == old(self).next_device,
                start == old(self).state().caches,
                view == chunk_view(placed@),
                uploaded@.len() == old(self).devices@.len(),
                forall|i: int|
                    0 <= i < placed@.len() ==> (#[trigger] placed@[i]).device < old(
                        self).devices@.len(),
                conclusion(start, view, uploaded@, i as int) == (
                    self.state().caches,
                    None::<Seq<char>>,
                ),
            decreases placed@.len() - i,
        {
            let ghost before = *self;
            let tensor: &ResidentTensor = &placed[i];
            proof {
                assert(placed@[i as int].device < old(self).devices@.len());
                assert(view[i as int] == tensor@);
                lemma_conclusion_stops(
                    start,
                    view,
                    uploaded@,
                    i as int + 1,
                    placed@.len() as int,
                );
            }
            let done: Result<(), &'static str> = self.conclude_tensor(
                tensor,
                uploaded[tensor.device],
            );
            proof {
                assert(self.same_but_caches(&*old(self))) by {
                    assert forall|d: int| 0 <= d < self.devices@.len() implies (
                    #[trigger] self.devices@[d]).h2d_batches == old(self).devices@[d].h2d_batches
                        && self.devices@[d].h2d_bytes == old(self).devices@[d].h2d_bytes by {
                        assert(before.devices@[d].h2d_batches == old(self).devices@[d].h2d_batches);
                    }
                }
            }
            if let Err(message) = done {
                return Err(message);
            }
            i += 1;
        }
        Ok(())
    }
}

} // verus!
