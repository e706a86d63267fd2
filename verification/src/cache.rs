//! The device cache: which tensors stay in a device's arena.
//!
//! An entry's rank orders it for eviction, the lowest first. A rank is a number
//! that is ordered like the floating-point priority it stands for; what turns
//! the inflation of the cache, the frequency of a key and the bytes of an
//! allocation into a rank is a function that the caller hands in.

use crate::allocator::{
    allocate_keeps_allocations, begins_at, best_fit, fit_index, largest_free_blocks,
    largest_free_decides, lemma_indexes, release_frees_one_run, tiles, ArenaView, PageRunAllocator,
    Run,
};
use crate::sketch::{
    accesses_are_not_undercounted, accesses_of, after_accesses, nothing_is_counted_at_first, SketchView,
    TinyLfu,
};
use crate::table::{
    lemma_total_covers, lemma_total_push, lemma_total_update, lemma_total_without, map_total, total, Table,
};
use vstd::prelude::*;

verus! {

/// The counters in a row of a cache's sketch.
pub const SKETCH_WIDTH: usize = 4096;

/// A tensor in the arena.
#[derive(Clone, Debug)]
pub struct CacheEntry {
    pub offset: u64,
    pub allocated_bytes: usize,
    pub payload_bytes: usize,
    pub rows: u32,
    pub dimension: u32,
    pub dtype: u8,
    pub references: usize,
    pub pinned: bool,
    /// False while an upload is in progress. Loading entries reserve pages but
    /// are never visible as cache hits.
    pub ready: bool,
    pub owner_tenant: String,
    pub rank: u64,
}

pub struct EntryView {
    pub offset: u64,
    pub allocated_bytes: usize,
    pub payload_bytes: usize,
    pub rows: u32,
    pub dimension: u32,
    pub dtype: u8,
    pub references: usize,
    pub pinned: bool,
    pub ready: bool,
    pub owner_tenant: Seq<char>,
    pub rank: u64,
}

impl View for CacheEntry {
    type V = EntryView;

    open spec fn view(&self) -> EntryView {
        EntryView {
            offset: self.offset,
            allocated_bytes: self.allocated_bytes,
            payload_bytes: self.payload_bytes,
            rows: self.rows,
            dimension: self.dimension,
            dtype: self.dtype,
            references: self.references,
            pinned: self.pinned,
            ready: self.ready,
            owner_tenant: self.owner_tenant@,
            rank: self.rank,
        }
    }
}

impl CacheEntry {
    /// A copy of the entry.
    pub fn duplicate(&self) -> (copy: CacheEntry)
        ensures
            copy@ == self@,
    {
        CacheEntry {
            offset: self.offset,
            allocated_bytes: self.allocated_bytes,
            payload_bytes: self.payload_bytes,
            rows: self.rows,
            dimension: self.dimension,
            dtype: self.dtype,
            references: self.references,
            pinned: self.pinned,
            ready: self.ready,
            owner_tenant: self.owner_tenant.clone(),
            rank: self.rank,
        }
    }
}

/// What became of a request for pages.
#[derive(Clone, Copy, Debug, PartialEq, Eq, Structural)]
pub enum Admission {
    Admitted { offset: u64, allocated_bytes: usize },
    Rejected,
    Deferred,
}

/// One step towards an admission: it is decided, or a victim has made room and
/// the question is put again.
#[derive(Clone, Copy, Debug, PartialEq, Eq, Structural)]
pub enum AdmissionStep {
    Finished(Admission),
    Evicted,
}

/// A tensor that asks for pages.
pub struct AdmissionRequest {
    pub tenant: String,
    pub key: String,
    pub payload_bytes: usize,
    pub rows: u32,
    pub dimension: u32,
    pub dtype: u8,
    pub pinned: bool,
    pub force: bool,
}

pub struct AdmissionRequestView {
    pub tenant: Seq<char>,
    pub key: Seq<char>,
    pub payload_bytes: usize,
    pub rows: u32,
    pub dimension: u32,
    pub dtype: u8,
    pub pinned: bool,
    pub force: bool,
}

impl View for AdmissionRequest {
    type V = AdmissionRequestView;

    open spec fn view(&self) -> AdmissionRequestView {
        AdmissionRequestView {
            tenant: self.tenant@,
            key: self.key@,
            payload_bytes: self.payload_bytes,
            rows: self.rows,
            dimension: self.dimension,
            dtype: self.dtype,
            pinned: self.pinned,
            force: self.force,
        }
    }
}

/// The state of a cache.
pub struct CacheView {
    pub arena: ArenaView,
    pub entries: Map<Seq<char>, EntryView>,
    pub sketch: SketchView,
    pub inflation: u64,
    pub usage: Map<Seq<char>, usize>,
    pub reservations: Map<Seq<char>, usize>,
    pub tenant_max: usize,
    pub pinned_max: usize,
    pub pinned_bytes: usize,
    pub hits: u64,
    pub misses: u64,
    pub evictions: u64,
    pub admission_rejections: u64,
}

/// The sum of two sizes, or the largest size.
pub open spec fn capped_sum(left: usize, right: usize) -> int {
    if left + right > usize::MAX {
        usize::MAX as int
    } else {
        left + right
    }
}

/// The difference of two sizes, or zero.
pub open spec fn difference(left: usize, right: usize) -> usize {
    if left < right {
        0
    } else {
        (left - right) as usize
    }
}

/// The number that a map gives a tenant, zero where it has none.
pub open spec fn share(map: Map<Seq<char>, usize>, tenant: Seq<char>) -> usize {
    if map.contains_key(tenant) {
        map[tenant]
    } else {
        0
    }
}

/// The usage after a tenant gives back bytes. A tenant that uses nothing is not
/// listed.
pub open spec fn lowered(usage: Map<Seq<char>, usize>, tenant: Seq<char>, bytes: usize) -> Map<
    Seq<char>,
    usize,
> {
    if !usage.contains_key(tenant) {
        usage
    } else if difference(usage[tenant], bytes) == 0 {
        usage.remove(tenant)
    } else {
        usage.insert(tenant, difference(usage[tenant], bytes))
    }
}

impl CacheView {
    /// A cache over an arena that nothing is allocated in, with nothing counted.
    pub open spec fn fresh(
        capacity: usize,
        block_bytes: usize,
        tenant_max_percent: u8,
        pinned_max_percent: u8,
        reservations: Map<Seq<char>, usize>,
    ) -> CacheView {
        CacheView {
            arena: ArenaView {
                block_bytes: block_bytes as nat,
                block_count: (capacity / block_bytes) as nat,
                runs: seq![
                    Run { start: 0, blocks: (capacity / block_bytes) as usize, used: false },
                ],
            },
            entries: Map::empty(),
            sketch: SketchView::empty(SKETCH_WIDTH as nat),
            inflation: 0,
            usage: Map::empty(),
            reservations,
            tenant_max: (capacity * tenant_max_percent / 100) as usize,
            pinned_max: (capacity * pinned_max_percent / 100) as usize,
            pinned_bytes: 0,
            hits: 0,
            misses: 0,
            evictions: 0,
            admission_rejections: 0,
        }
    }

    /// Whether a key is a hit: the entry is there and loaded.
    pub open spec fn visible(self, key: Seq<char>) -> bool {
        self.entries.contains_key(key) && self.entries[key].ready
    }

    /// Whether an entry may leave for any tenant's sake: nothing refers to it,
    /// it is not pinned, and its tenant keeps what is reserved for it.
    pub open spec fn evictable(self, entry: EntryView) -> bool {
        &&& entry.references == 0
        &&& !entry.pinned
        &&& difference(share(self.usage, entry.owner_tenant), entry.allocated_bytes) >= share(
            self.reservations,
            entry.owner_tenant,
        )
    }

    /// Whether an entry may leave for the sake of its own tenant.
    pub open spec fn recyclable(self, entry: EntryView, tenant: Seq<char>) -> bool {
        entry.owner_tenant == tenant && entry.references == 0 && !entry.pinned
    }

    /// Whether an entry may leave: for the given tenant's sake, or for any.
    pub open spec fn may_leave(self, entry: EntryView, tenant: Option<Seq<char>>) -> bool {
        match tenant {
            Some(tenant) => self.recyclable(entry, tenant),
            None => self.evictable(entry),
        }
    }

    /// Whether no entry that may leave has a lower rank.
    pub open spec fn is_victim(self, tenant: Option<Seq<char>>, key: Seq<char>) -> bool {
        &&& self.entries.contains_key(key)
        &&& self.may_leave(self.entries[key], tenant)
        &&& forall|other: Seq<char>| #[trigger]
            self.entries.contains_key(other) && self.may_leave(self.entries[other], tenant)
                ==> self.entries[key].rank <= self.entries[other].rank
    }

    /// The cache without an entry: its pages are free again, and its tenant and
    /// the pinned bytes are relieved of it.
    pub open spec fn dropped(self, key: Seq<char>) -> CacheView {
        let entry = self.entries[key];
        CacheView {
            arena: self.arena.released(entry.offset as int),
            entries: self.entries.remove(key),
            pinned_bytes: if entry.pinned {
                difference(self.pinned_bytes, entry.allocated_bytes)
            } else {
                self.pinned_bytes
            },
            usage: lowered(self.usage, entry.owner_tenant, entry.allocated_bytes),
            ..self
        }
    }

    /// The cache after a victim leaves: what comes later is measured against
    /// its rank.
    pub open spec fn evicted(self, key: Seq<char>) -> CacheView {
        let rank = self.entries[key].rank;
        CacheView {
            inflation: if rank > self.inflation {
                rank
            } else {
                self.inflation
            },
            evictions: (self.evictions + 1) as u64,
            ..self.dropped(key)
        }
    }

    /// The most that a tenant may use.
    pub open spec fn tenant_limit(self, tenant: Seq<char>) -> usize {
        if share(self.reservations, tenant) > self.tenant_max {
            share(self.reservations, tenant)
        } else {
            self.tenant_max
        }
    }

    /// The entry of a tensor that gets its pages.
    pub open spec fn entry_for(self, request: AdmissionRequestView, rank: u64) -> EntryView {
        EntryView {
            offset: self.arena.offset_for(request.payload_bytes as nat) as u64,
            allocated_bytes: self.arena.allocation(request.payload_bytes as nat)->0 as usize,
            payload_bytes: request.payload_bytes,
            rows: request.rows,
            dimension: request.dimension,
            dtype: request.dtype,
            references: 1,
            pinned: request.pinned,
            ready: false,
            owner_tenant: request.tenant,
            rank,
        }
    }

    /// The cache after a tensor gets its pages.
    pub open spec fn placed(self, request: AdmissionRequestView, rank: u64) -> CacheView {
        let entry = self.entry_for(request, rank);
        CacheView {
            arena: self.arena.allocated(request.payload_bytes as nat),
            entries: self.entries.insert(request.key, entry),
            usage: self.usage.insert(
                request.tenant,
                (share(self.usage, request.tenant) + entry.allocated_bytes) as usize,
            ),
            pinned_bytes: if request.pinned {
                (self.pinned_bytes + entry.allocated_bytes) as usize
            } else {
                self.pinned_bytes
            },
            ..self
        }
    }

    /// A step that asks a victim to leave. Where the step is contested, a tensor
    /// of no higher rank than the victim is rejected.
    pub open spec fn makes_room(
        self,
        tenant: Option<Seq<char>>,
        contested: bool,
        rank: u64,
        after: CacheView,
        step: AdmissionStep,
    ) -> bool {
        if forall|key: Seq<char>| #[trigger]
            self.entries.contains_key(key) ==> !self.may_leave(self.entries[key], tenant) {
            step == AdmissionStep::Finished(Admission::Deferred) && after == self
        } else {
            exists|key: Seq<char>| #[trigger]
                self.is_victim(tenant, key) && if contested && rank <= self.entries[key].rank {
                    step == AdmissionStep::Finished(Admission::Rejected) && after == (CacheView {
                        admission_rejections: (self.admission_rejections + 1) as u64,
                        ..self
                    })
                } else {
                    step == AdmissionStep::Evicted && after == self.evicted(key)
                }
        }
    }

    /// For whose sake entries leave: the tenant's own, while it is above its
    /// limit.
    pub open spec fn sake(self, request: AdmissionRequestView) -> Option<Seq<char>> {
        let size = self.arena.allocation(request.payload_bytes as nat)->0 as usize;
        if !request.pinned && capped_sum(share(self.usage, request.tenant), size)
            > self.tenant_limit(request.tenant) {
            Some(request.tenant)
        } else {
            None
        }
    }

    /// One step towards an admission, for a tensor of the given rank.
    pub open spec fn steps(
        self,
        request: AdmissionRequestView,
        rank: u64,
        after: CacheView,
        step: AdmissionStep,
    ) -> bool {
        let deferred = step == AdmissionStep::Finished(Admission::Deferred) && after == self;
        match self.arena.allocation(request.payload_bytes as nat) {
            None => deferred,
            Some(size) => if size > self.arena.capacity() {
                deferred
            } else if request.pinned && capped_sum(self.pinned_bytes, size as usize)
                > self.pinned_max {
                deferred
            } else if !request.pinned && capped_sum(
                share(self.usage, request.tenant),
                size as usize,
            ) > self.tenant_limit(request.tenant) {
                self.makes_room(Some(request.tenant), !request.force, rank, after, step)
            } else if self.arena.largest_free() < size {
                self.makes_room(None, !request.force && !request.pinned, rank, after, step)
            } else {
                let entry = self.entry_for(request, rank);
                step == AdmissionStep::Finished(
                    Admission::Admitted {
                        offset: entry.offset,
                        allocated_bytes: entry.allocated_bytes,
                    },
                ) && after == self.placed(request, rank)
            },
        }
    }

    /// The frequency of a key that asks for pages: its estimate, at least one.
    pub open spec fn demand(self, key: Seq<char>) -> u16 {
        if self.sketch.estimate(key) == 0 {
            1
        } else {
            self.sketch.estimate(key)
        }
    }

    /// The bytes of all entries that a tenant owns.
    pub open spec fn owned(self, tenant: Seq<char>) -> nat {
        map_total(
            self.entries,
            |entry: EntryView|
                if entry.owner_tenant == tenant {
                    entry.allocated_bytes as nat
                } else {
                    0
                },
        )
    }

    /// The bytes of all pinned entries.
    pub open spec fn pinned(self) -> nat {
        map_total(
            self.entries,
            |entry: EntryView|
                if entry.pinned {
                    entry.allocated_bytes as nat
                } else {
                    0
                },
        )
    }

    /// The bytes of all entries.
    pub open spec fn held(self) -> nat {
        map_total(self.entries, |entry: EntryView| entry.allocated_bytes as nat)
    }

    /// The last four counters can each be raised.
    pub open spec fn countable(self) -> bool {
        &&& self.hits < u64::MAX
        &&& self.misses < u64::MAX
        &&& self.admission_rejections < u64::MAX
    }
}

/// Whether the function may give `rank` to a key that asks for pages.
pub open spec fn weighs<W: Fn(u64, u16, usize) -> u64>(
    weigh: W,
    cache: CacheView,
    request: AdmissionRequestView,
    rank: u64,
) -> bool {
    call_ensures(
        weigh,
        (
            cache.inflation,
            cache.demand(request.key),
            cache.arena.allocation(request.payload_bytes as nat)->0 as usize,
        ),
        rank,
    )
}

/// Steps, the last of which decides: each with the rank that the function gives
/// in the state before the step.
pub open spec fn admits<W: Fn(u64, u16, usize) -> u64>(
    weigh: W,
    before: CacheView,
    request: AdmissionRequestView,
    after: CacheView,
    admission: Admission,
    evictions: nat,
) -> bool
    decreases evictions,
{
    if before.arena.allocation(request.payload_bytes as nat) is None {
        admission == Admission::Deferred && after == before
    } else if evictions == 0 {
        exists|rank: u64| #[trigger]
            weighs(weigh, before, request, rank) && before.steps(
                request,
                rank,
                after,
                AdmissionStep::Finished(admission),
            )
    } else {
        exists|rank: u64, next: CacheView|
            weighs(weigh, before, request, rank) && #[trigger] before.steps(
                request,
                rank,
                next,
                AdmissionStep::Evicted,
            ) && admits(weigh, next, request, after, admission, (evictions - 1) as nat)
    }
}

/// The bytes of an entry that a tenant owns.
pub open spec fn owned_by(tenant: Seq<char>) -> spec_fn(CacheEntry) -> nat {
    |entry: CacheEntry|
        if entry.owner_tenant@ == tenant {
            entry.allocated_bytes as nat
        } else {
            0
        }
}

/// The bytes of an entry that is pinned.
pub open spec fn pinned_weight() -> spec_fn(CacheEntry) -> nat {
    |entry: CacheEntry|
        if entry.pinned {
            entry.allocated_bytes as nat
        } else {
            0
        }
}

/// The bytes of an entry.
pub open spec fn entry_weight() -> spec_fn(CacheEntry) -> nat {
    |entry: CacheEntry| entry.allocated_bytes as nat
}

/// The payload bytes of an entry.
pub open spec fn payload_weight() -> spec_fn(CacheEntry) -> nat {
    |entry: CacheEntry| entry.payload_bytes as nat
}

/// One for an entry that is pinned.
pub open spec fn pinned_count() -> spec_fn(CacheEntry) -> nat {
    |entry: CacheEntry|
        if entry.pinned {
            1
        } else {
            0
        }
}

/// A number of bytes.
pub open spec fn usage_weight() -> spec_fn(usize) -> nat {
    |bytes: usize| bytes as nat
}

/// The tensors in a device's arena.
pub struct GpuCache {
    allocator: PageRunAllocator,
    entries: Table<CacheEntry>,
    sketch: TinyLfu,
    inflation: u64,
    tenant_allocated: Table<usize>,
    tenant_reservations: Table<usize>,
    default_tenant_max_bytes: usize,
    pinned_max_bytes: usize,
    pinned_bytes: usize,
    pub hits: u64,
    pub misses: u64,
    pub evictions: u64,
    pub admission_rejections: u64,
}

impl View for GpuCache {
    type V = CacheView;

    closed spec fn view(&self) -> CacheView {
        CacheView {
            arena: self.allocator@,
            entries: Map::new(
                |key: Seq<char>| self.entries@.contains_key(key),
                |key: Seq<char>| self.entries@[key]@,
            ),
            sketch: self.sketch@,
            inflation: self.inflation,
            usage: self.tenant_allocated@,
            reservations: self.tenant_reservations@,
            tenant_max: self.default_tenant_max_bytes,
            pinned_max: self.pinned_max_bytes,
            pinned_bytes: self.pinned_bytes,
            hits: self.hits,
            misses: self.misses,
            evictions: self.evictions,
            admission_rejections: self.admission_rejections,
        }
    }
}

impl GpuCache {
    /// The bytes of all entries that a tenant owns.
    pub closed spec fn owned_bytes(&self, tenant: Seq<char>) -> nat {
        total(self.entries.slots(), owned_by(tenant))
    }

    /// The bytes of all entries.
    pub closed spec fn held_bytes(&self) -> nat {
        total(self.entries.slots(), entry_weight())
    }

    /// The payload bytes of all entries.
    pub closed spec fn payload_total(&self) -> nat {
        total(self.entries.slots(), payload_weight())
    }

    /// The bytes of all pinned entries.
    pub closed spec fn pinned_total(&self) -> nat {
        total(self.entries.slots(), pinned_weight())
    }

    /// The number of pinned entries.
    pub closed spec fn pinned_number(&self) -> nat {
        total(self.entries.slots(), pinned_count())
    }

    /// The number of entries.
    pub closed spec fn entry_number(&self) -> nat {
        self.entries.slots().len()
    }

    /// The number of tenants that use pages.
    pub closed spec fn tenant_number(&self) -> nat {
        self.tenant_allocated.slots().len()
    }

    /// Every entry stands for its own allocation in the arena; no tenant is
    /// charged less than its entries take up, all tenants together not more than
    /// is allocated; the pinned bytes cover the pinned entries and stay within
    /// their budget.
    pub closed spec fn wf(&self) -> bool {
        &&& self.allocator.wf()
        &&& self.sketch@.wf()
        &&& self.entries.wf()
        &&& self.tenant_allocated.wf()
        &&& self.tenant_reservations.wf()
        &&& forall|i: int|
            0 <= i < self.entries.slots().len() ==> self.allocator@.holds(
                (#[trigger] self.entries.slots()[i]).offset as int,
                self.entries.slots()[i].allocated_bytes as int,
            )
        &&& forall|i: int, j: int|
            0 <= i < j < self.entries.slots().len() ==> (#[trigger] self.entries.slots()[i]).offset != (
            #[trigger] self.entries.slots()[j]).offset
        &&& forall|i: int|
            0 <= i < self.entries.slots().len() ==> (#[trigger] self.entries.slots()[i]).payload_bytes
                <= self.entries.slots()[i].allocated_bytes
        &&& self.held_bytes() <= self.allocator@.allocated_bytes()
        &&& total(self.tenant_allocated.slots(), usage_weight()) <= self.allocator@.allocated_bytes()
        &&& forall|tenant: Seq<char>| #[trigger]
            self.owned_bytes(tenant) <= share(self.tenant_allocated@, tenant)
        &&& self.pinned_total() <= self.pinned_bytes <= self.pinned_max_bytes < usize::MAX
    }

    /// Nothing is lost: the entries take up all that is allocated, and every
    /// tenant and the pinned budget are charged exactly for their entries.
    pub closed spec fn exact(&self) -> bool {
        &&& self.held_bytes() == self.allocator@.allocated_bytes()
        &&& forall|tenant: Seq<char>| #[trigger]
            self.owned_bytes(tenant) == share(self.tenant_allocated@, tenant)
        &&& self.pinned_total() == self.pinned_bytes
    }

    /// What the state of a well-formed cache satisfies.
    pub proof fn lemma_view(&self)
        requires
            self.wf(),
        ensures
            self@.arena.block_bytes > 0,
            tiles(self@.arena.runs, self@.arena.block_count as int),
            self@.arena.capacity() <= usize::MAX,
            self@.sketch.wf(),
            self@.pinned_bytes <= self@.pinned_max,
            forall|key: Seq<char>| #[trigger]
                self@.entries.contains_key(key) ==> self@.arena.holds(
                    self@.entries[key].offset as int,
                    self@.entries[key].allocated_bytes as int,
                ),
    {
        self.allocator.lemma_view();
        self.entries.lemma_slots();
        assert forall|key: Seq<char>| #[trigger] self@.entries.contains_key(key) implies self@.arena.holds(
            self@.entries[key].offset as int,
            self@.entries[key].allocated_bytes as int,
        ) by {
            assert(self.entries@.contains_key(key));
            let i = self.entries.slot_of(key);
            assert(self.entries.slots()[i] == self.entries@[key]);
        }
    }

    /// What a well-formed cache keeps account of: a tenant is charged at least for its
    /// entries and the pinned budget at least for the pinned ones, and all entries are
    /// allocated. Where nothing is lost, each is charged exactly.
    pub proof fn lemma_account(&self, tenant: Seq<char>)
        requires
            self.wf(),
        ensures
            self@.entries.dom().finite(),
            self.entry_number() == self@.entries.dom().len(),
            self@.owned(tenant) <= share(self@.usage, tenant),
            self@.pinned() <= self@.pinned_bytes,
            self@.held() <= self@.arena.allocated_bytes(),
            self.exact() ==> self@.owned(tenant) == share(self@.usage, tenant),
            self.exact() ==> self@.pinned() == self@.pinned_bytes,
            self.exact() ==> self@.held() == self@.arena.allocated_bytes(),
    {
        let entries = self@.entries;
        assert(entries.dom() =~= self.entries@.dom());
        self.entries.lemma_total(
            entries,
            owned_by(tenant),
            |entry: EntryView|
                if entry.owner_tenant == tenant {
                    entry.allocated_bytes as nat
                } else {
                    0
                },
        );
        self.entries.lemma_total(
            entries,
            pinned_weight(),
            |entry: EntryView|
                if entry.pinned {
                    entry.allocated_bytes as nat
                } else {
                    0
                },
        );
        self.entries.lemma_total(
            entries,
            entry_weight(),
            |entry: EntryView| entry.allocated_bytes as nat,
        );
        assert(self.owned_bytes(tenant) <= share(self.tenant_allocated@, tenant));
        if self.exact() {
            assert(self.owned_bytes(tenant) == share(self.tenant_allocated@, tenant));
        }
    }

    pub fn new(capacity: usize, block_bytes: usize) -> (result: Result<Self, &'static str>)
        requires
            capacity * 100 <= usize::MAX,
        ensures
            match result {
                Ok(cache) => {
                    &&& cache.wf()
                    &&& cache.exact()
                    &&& 0 < block_bytes <= capacity
                    &&& block_bytes % 256 == 0
                    &&& cache.entry_number() == 0
                    &&& cache.tenant_number() == 0
                    &&& cache@ == CacheView::fresh(
                        capacity,
                        block_bytes,
                        100,
                        100,
                        Map::<Seq<char>, usize>::empty(),
                    )
                    &&& cache@.tenant_max == capacity
                    &&& cache@.pinned_max == capacity
                },
                Err(message) => if capacity == 0 || block_bytes == 0 || block_bytes % 256 != 0 {
                    message@ == "invalid fixed-block arena"@
                } else {
                    capacity < block_bytes && message@ == "fixed-block arena is too small"@
                },
            },
    {
        Self::new_with_limits(capacity, block_bytes, 100, 100, Table::new())
    }

    /// A cache over an arena of `capacity` bytes, in which a tenant may use
    /// `tenant_max_percent` of the bytes, or what is reserved for it where that
    /// is more, and pinned entries `pinned_max_percent`.
    pub fn new_with_limits(
        capacity: usize,
        block_bytes: usize,
        tenant_max_percent: u8,
        pinned_max_percent: u8,
        tenant_reservations: Table<usize>,
    ) -> (result: Result<Self, &'static str>)
        requires
            tenant_reservations.wf(),
            tenant_max_percent <= 100 ==> capacity * tenant_max_percent <= usize::MAX,
            pinned_max_percent <= 100 ==> capacity * pinned_max_percent <= usize::MAX,
        ensures
            ({
                let refused = tenant_max_percent == 0 || tenant_max_percent > 100
                    || pinned_max_percent > 100 || total(
                    tenant_reservations.slots(),
                    usage_weight(),
                ) > capacity;
                match result {
                    Ok(cache) => {
                        &&& !refused
                        &&& 0 < block_bytes <= capacity
                        &&& block_bytes % 256 == 0
                        &&& cache.wf()
                        &&& cache.exact()
                        &&& cache.entry_number() == 0
                        &&& cache.tenant_number() == 0
                        &&& cache@ == CacheView::fresh(
                            capacity,
                            block_bytes,
                            tenant_max_percent,
                            pinned_max_percent,
                            tenant_reservations@,
                        )
                    },
                    Err(message) => if refused {
                        message@ == "invalid GPU tenant cache policy"@
                    } else if capacity == 0 || block_bytes == 0 || block_bytes % 256 != 0 {
                        message@ == "invalid fixed-block arena"@
                    } else {
                        capacity < block_bytes && message@ == "fixed-block arena is too small"@
                    },
                }
            }),
    {
        if tenant_max_percent == 0 || tenant_max_percent > 100 || pinned_max_percent > 100 {
            return Err("invalid GPU tenant cache policy");
        }
        let mut left: usize = capacity;
        let mut i: usize = 0;
        assert(tenant_reservations.slots().take(0) =~= Seq::<usize>::empty());
        while i < tenant_reservations.len()
            invariant
                i <= tenant_reservations.slots().len(),
                left <= capacity,
                capacity - left == total(tenant_reservations.slots().take(i as int), usage_weight()),
            decreases tenant_reservations.slots().len() - i,
        {
            let bytes: usize = *tenant_reservations.value(i);
            proof {
                let slots = tenant_reservations.slots();
                assert(slots.take(i + 1) =~= slots.take(i as int).push(slots[i as int]));
                lemma_total_push(slots.take(i as int), slots[i as int], usage_weight());
                lemma_total_prefix(slots, i as int + 1);
            }
            if bytes > left {
                return Err("invalid GPU tenant cache policy");
            }
            left = left - bytes;
            i += 1;
        }
        assert(tenant_reservations.slots().take(i as int) =~= tenant_reservations.slots());
        let allocator: PageRunAllocator = match PageRunAllocator::new(capacity, block_bytes) {
            Ok(allocator) => allocator,
            Err(message) => return Err(message),
        };
        let cache = GpuCache {
            allocator,
            entries: Table::new(),
            sketch: TinyLfu::new(SKETCH_WIDTH),
            inflation: 0,
            tenant_allocated: Table::new(),
            tenant_reservations,
            default_tenant_max_bytes: capacity * (tenant_max_percent as usize) / 100,
            pinned_max_bytes: capacity * (pinned_max_percent as usize) / 100,
            pinned_bytes: 0,
            hits: 0,
            misses: 0,
            evictions: 0,
            admission_rejections: 0,
        };
        proof {
            cache.allocator.lemma_view();
            assert(cache@.entries =~= Map::<Seq<char>, EntryView>::empty());
            reveal_with_fuel(crate::allocator::used_before, 2);
            assert(crate::allocator::used_before(cache.allocator@.runs, 1) == 0);
            assert(0 * cache.allocator@.block_bytes == 0) by (nonlinear_arith);
            assert(cache.held_bytes() == 0);
        }
        Ok(cache)
    }

    pub fn capacity(&self) -> (bytes: usize)
        requires
            self.wf(),
        ensures
            bytes == self@.arena.capacity(),
    {
        self.allocator.capacity()
    }

    pub fn block_bytes(&self) -> (bytes: usize)
        ensures
            bytes == self@.arena.block_bytes,
    {
        self.allocator.block_bytes()
    }

    pub fn entry_count(&self) -> (count: usize)
        ensures
            count == self.entry_number(),
    {
        self.entries.len()
    }

    /// The most references that an entry has, zero where there is no entry.
    pub fn most_references(&self) -> (most: usize)
        requires
            self.wf(),
        ensures
            forall|key: Seq<char>| #[trigger]
                self@.entries.contains_key(key) ==> self@.entries[key].references <= most,
            most == 0 || exists|key: Seq<char>| #[trigger]
                self@.entries.contains_key(key) && self@.entries[key].references == most,
    {
        let mut most: usize = 0;
        let mut i: usize = 0;
        proof {
            self.entries.lemma_slots();
        }
        while i < self.entries.len()
            invariant
                self.wf(),
                i <= self.entries.slots().len(),
                self.entries.names().len() == self.entries.slots().len(),
                forall|j: int|
                    0 <= j < i ==> (#[trigger] self.entries.slots()[j]).references <= most,
                most == 0 || exists|key: Seq<char>| #[trigger]
                    self@.entries.contains_key(key) && self@.entries[key].references == most,
            decreases self.entries.slots().len() - i,
        {
            let references: usize = self.entries.value(i).references;
            if references > most {
                most = references;
                proof {
                    self.entries.lemma_slots();
                    let key = self.entries.names()[i as int];
                    assert(self.entries@.contains_key(key));
                    assert(self@.entries.contains_key(key));
                }
            }
            i += 1;
        }
        proof {
            self.entries.lemma_slots();
            assert forall|key: Seq<char>| #[trigger] self@.entries.contains_key(
                key,
            ) implies self@.entries[key].references <= most by {
                assert(self.entries@.contains_key(key));
                assert(self.entries.slots()[self.entries.slot_of(key)].references <= most);
            }
        }
        most
    }

    pub fn tenant_count(&self) -> (count: usize)
        ensures
            count == self.tenant_number(),
    {
        self.tenant_allocated.len()
    }

    pub fn pinned_bytes(&self) -> (bytes: usize)
        ensures
            bytes == self@.pinned_bytes,
    {
        self.pinned_bytes
    }

    pub fn free_bytes(&self) -> (bytes: usize)
        requires
            self.wf(),
        ensures
            bytes == self@.arena.free_bytes(),
    {
        self.allocator.free_bytes()
    }

    pub fn largest_free_extent(&self) -> (bytes: usize)
        requires
            self.wf(),
        ensures
            bytes == self@.arena.largest_free(),
    {
        self.allocator.largest_free()
    }

    /// The hits, misses, evictions and rejections.
    pub fn counters(&self) -> (counters: (u64, u64, u64, u64))
        ensures
            counters == (
                self@.hits,
                self@.misses,
                self@.evictions,
                self@.admission_rejections,
            ),
    {
        (self.hits, self.misses, self.evictions, self.admission_rejections)
    }

    pub fn allocated_bytes(&self) -> (bytes: usize)
        requires
            self.wf(),
        ensures
            bytes == self@.arena.allocated_bytes(),
            bytes + self@.arena.free_bytes() == self@.arena.capacity(),
    {
        self.allocator.allocated_bytes()
    }
}

impl GpuCache {
    /// An entry whose place, size, owner and pinning stay the same changes
    /// nothing that the cache keeps account of.
    proof fn lemma_same_account(before: &GpuCache, after: &GpuCache, slot: int)
        requires
            before.wf(),
            0 <= slot < before.entries.slots().len(),
            after.entries.wf(),
            after.entries.slots() == before.entries.slots().update(slot, after.entries.slots()[slot]),
            after.entries.slots()[slot].offset == before.entries.slots()[slot].offset,
            after.entries.slots()[slot].allocated_bytes
                == before.entries.slots()[slot].allocated_bytes,
            after.entries.slots()[slot].payload_bytes == before.entries.slots()[slot].payload_bytes,
            after.entries.slots()[slot].owner_tenant@ == before.entries.slots()[slot].owner_tenant@,
            after.entries.slots()[slot].pinned == before.entries.slots()[slot].pinned,
            after.allocator == before.allocator,
            after.sketch@.wf(),
            after.tenant_allocated == before.tenant_allocated,
            after.tenant_reservations == before.tenant_reservations,
            after.pinned_max_bytes == before.pinned_max_bytes,
            after.pinned_bytes == before.pinned_bytes,
        ensures
            after.wf(),
            before.exact() ==> after.exact(),
    {
        let slots = before.entries.slots();
        let entry = after.entries.slots()[slot];
        lemma_total_update(slots, slot, entry, entry_weight());
        lemma_total_update(slots, slot, entry, pinned_weight());
        assert forall|tenant: Seq<char>| #[trigger] after.owned_bytes(tenant) == before.owned_bytes(
            tenant,
        ) by {
            lemma_total_update(slots, slot, entry, owned_by(tenant));
        }
        assert forall|tenant: Seq<char>| #[trigger] after.owned_bytes(tenant) <= share(
            after.tenant_allocated@,
            tenant,
        ) by {
            assert(before.owned_bytes(tenant) <= share(before.tenant_allocated@, tenant));
        }
        if before.exact() {
            assert forall|tenant: Seq<char>| #[trigger] after.owned_bytes(tenant) == share(
                after.tenant_allocated@,
                tenant,
            ) by {
                assert(before.owned_bytes(tenant) == share(before.tenant_allocated@, tenant));
            }
        }
    }

    /// Looks a tensor up, counts the access, and refers to the entry on a hit.
    pub fn get<W: Fn(u64, u16, usize) -> u64>(&mut self, key: &str, weigh: &W) -> (result: Option<
        CacheEntry,
    >)
        requires
            old(self).wf(),
            old(self)@.countable(),
            old(self)@.visible(key@) ==> old(self)@.entries[key@].references < usize::MAX,
            forall|inflation: u64, frequency: u16, bytes: usize|
                call_requires(*weigh, (inflation, frequency, bytes)),
        ensures
            final(self).wf(),
            old(self).exact() ==> final(self).exact(),
            final(self).entry_number() == old(self).entry_number(),
            match result {
                None => !old(self)@.visible(key@) && final(self)@ == (CacheView {
                    sketch: old(self)@.sketch.counted(key@),
                    misses: (old(self)@.misses + 1) as u64,
                    ..old(self)@
                }),
                Some(entry) => {
                    let before = old(self)@.entries[key@];
                    &&& old(self)@.visible(key@)
                    &&& call_ensures(
                        *weigh,
                        (
                            old(self)@.inflation,
                            old(self)@.sketch.frequency(key@),
                            before.allocated_bytes,
                        ),
                        entry.rank,
                    )
                    &&& entry@ == (EntryView {
                        references: (before.references + 1) as usize,
                        rank: entry.rank,
                        ..before
                    })
                    &&& final(self)@ == (CacheView {
                        sketch: old(self)@.sketch.counted(key@),
                        entries: old(self)@.entries.insert(key@, entry@),
                        hits: (old(self)@.hits + 1) as u64,
                        ..old(self)@
                    })
                },
            },
    {
        let ghost before = *self;
        let frequency: u16 = self.sketch.increment(key);
        let slot: usize = match self.entries.find(key) {
            Some(slot) if self.entries.value(slot).ready => slot,
            _ => {
                self.misses = self.misses + 1;
                assert(self@.entries =~= before@.entries);
                proof {
                    before.lemma_kept_account(&*self);
                }
                return None;
            },
        };
        let entry: &CacheEntry = self.entries.value(slot);
        let rank: u64 = weigh(self.inflation, frequency, entry.allocated_bytes);
        let mut entry: CacheEntry = entry.duplicate();
        entry.references = entry.references + 1;
        entry.rank = rank;
        let copy: CacheEntry = entry.duplicate();
        proof {
            self.entries.lemma_slots();
        }
        self.entries.set(slot, entry);
        self.hits = self.hits + 1;
        proof {
            Self::lemma_same_account(&before, &*self, slot as int);
            assert(self@.entries =~= before@.entries.insert(key@, copy@));
        }
        Some(copy)
    }

    /// Where no entry changes, nothing that the cache keeps account of does.
    proof fn lemma_kept_account(&self, after: &GpuCache)
        requires
            self.wf(),
            after.entries == self.entries,
            after.allocator == self.allocator,
            after.sketch@.wf(),
            after.tenant_allocated == self.tenant_allocated,
            after.tenant_reservations == self.tenant_reservations,
            after.pinned_max_bytes == self.pinned_max_bytes,
            after.pinned_bytes == self.pinned_bytes,
        ensures
            after.wf(),
            self.exact() ==> after.exact(),
    {
        assert forall|tenant: Seq<char>| #[trigger] after.owned_bytes(tenant) == self.owned_bytes(
            tenant,
        ) by {}
        assert forall|tenant: Seq<char>| #[trigger] after.owned_bytes(tenant) <= share(
            after.tenant_allocated@,
            tenant,
        ) by {
            assert(self.owned_bytes(tenant) <= share(self.tenant_allocated@, tenant));
        }
        if self.exact() {
            assert forall|tenant: Seq<char>| #[trigger] after.owned_bytes(tenant) == share(
                after.tenant_allocated@,
                tenant,
            ) by {
                assert(self.owned_bytes(tenant) == share(self.tenant_allocated@, tenant));
            }
        }
    }
}

impl GpuCache {
    /// Refers to a loaded entry without counting an access.
    pub fn acquire_existing(&mut self, key: &str) -> (result: Option<CacheEntry>)
        requires
            old(self).wf(),
            old(self)@.visible(key@) ==> old(self)@.entries[key@].references < usize::MAX,
        ensures
            final(self).wf(),
            old(self).exact() ==> final(self).exact(),
            final(self).entry_number() == old(self).entry_number(),
            match result {
                None => !old(self)@.visible(key@) && final(self)@ == old(self)@,
                Some(entry) => {
                    let before = old(self)@.entries[key@];
                    &&& old(self)@.visible(key@)
                    &&& entry@ == (EntryView {
                        references: (before.references + 1) as usize,
                        ..before
                    })
                    &&& final(self)@ == (CacheView {
                        entries: old(self)@.entries.insert(key@, entry@),
                        ..old(self)@
                    })
                },
            },
    {
        let ghost before = *self;
        let slot: usize = match self.entries.find(key) {
            Some(slot) => slot,
            None => {
                return None;
            },
        };
        if !self.entries.value(slot).ready {
            return None;
        }
        let mut entry: CacheEntry = self.entries.value(slot).duplicate();
        entry.references = entry.references + 1;
        let copy: CacheEntry = entry.duplicate();
        proof {
            self.entries.lemma_slots();
        }
        self.entries.set(slot, entry);
        proof {
            Self::lemma_same_account(&before, &*self, slot as int);
            assert(self@.entries =~= before@.entries.insert(key@, copy@));
        }
        Some(copy)
    }

    /// Counts an access that no lookup was made for.
    pub fn record_access_miss(&mut self, key: &str)
        requires
            old(self).wf(),
            old(self)@.countable(),
        ensures
            final(self).wf(),
            old(self).exact() ==> final(self).exact(),
            final(self).entry_number() == old(self).entry_number(),
            final(self)@ == (CacheView {
                sketch: old(self)@.sketch.counted(key@),
                misses: (old(self)@.misses + 1) as u64,
                ..old(self)@
            }),
    {
        let ghost before = *self;
        self.sketch.increment(key);
        self.misses = self.misses + 1;
        proof {
            before.lemma_kept_account(&*self);
            assert(self@.entries =~= before@.entries);
        }
    }

    /// Whether a tensor is loaded.
    pub fn contains(&self, key: &str) -> (result: bool)
        requires
            self.wf(),
        ensures
            result == self@.visible(key@),
    {
        match self.entries.get(key) {
            Some(entry) => entry.ready,
            None => false,
        }
    }

    /// The entry of a key, loaded or not.
    pub fn entry(&self, key: &str) -> (result: Option<&CacheEntry>)
        requires
            self.wf(),
        ensures
            match result {
                Some(entry) => self@.entries.contains_key(key@) && entry@ == self@.entries[key@],
                None => !self@.entries.contains_key(key@),
            },
    {
        self.entries.get(key)
    }

    /// Lets go of an entry.
    pub fn release(&mut self, key: &str) -> (result: Result<(), &'static str>)
        requires
            old(self).wf(),
        ensures
            final(self).wf(),
            old(self).exact() ==> final(self).exact(),
            final(self).entry_number() == old(self).entry_number(),
            match result {
                Ok(()) => {
                    let before = old(self)@.entries[key@];
                    &&& old(self)@.entries.contains_key(key@)
                    &&& before.references > 0
                    &&& final(self)@ == (CacheView {
                        entries: old(self)@.entries.insert(
                            key@,
                            EntryView { references: (before.references - 1) as usize, ..before },
                        ),
                        ..old(self)@
                    })
                },
                Err(message) => {
                    &&& final(self)@ == old(self)@
                    &&& if old(self)@.entries.contains_key(key@) {
                        old(self)@.entries[key@].references == 0 && message@
                            == "GPU cache entry was released twice"@
                    } else {
                        message@ == "GPU cache entry disappeared"@
                    }
                },
            },
    {
        let ghost before = *self;
        let slot: usize = match self.entries.find(key) {
            Some(slot) => slot,
            None => {
                return Err("GPU cache entry disappeared");
            },
        };
        if self.entries.value(slot).references == 0 {
            return Err("GPU cache entry was released twice");
        }
        let mut entry: CacheEntry = self.entries.value(slot).duplicate();
        entry.references = entry.references - 1;
        let ghost view = entry@;
        proof {
            self.entries.lemma_slots();
        }
        self.entries.set(slot, entry);
        proof {
            Self::lemma_same_account(&before, &*self, slot as int);
            assert(self@.entries =~= before@.entries.insert(key@, view));
        }
        Ok(())
    }

    /// Makes an entry visible once its upload is done.
    pub fn mark_ready(&mut self, key: &str) -> (result: Result<(), &'static str>)
        requires
            old(self).wf(),
        ensures
            final(self).wf(),
            old(self).exact() ==> final(self).exact(),
            final(self).entry_number() == old(self).entry_number(),
            match result {
                Ok(()) => old(self)@.entries.contains_key(key@) && final(self)@ == (CacheView {
                    entries: old(self)@.entries.insert(
                        key@,
                        EntryView { ready: true, ..old(self)@.entries[key@] },
                    ),
                    ..old(self)@
                }),
                Err(message) => !old(self)@.entries.contains_key(key@) && final(self)@ == old(self)@
                    && message@ == "GPU cache entry disappeared before upload completed"@,
            },
    {
        let ghost before = *self;
        let slot: usize = match self.entries.find(key) {
            Some(slot) => slot,
            None => {
                return Err("GPU cache entry disappeared before upload completed");
            },
        };
        let mut entry: CacheEntry = self.entries.value(slot).duplicate();
        entry.ready = true;
        let ghost view = entry@;
        proof {
            self.entries.lemma_slots();
        }
        self.entries.set(slot, entry);
        proof {
            Self::lemma_same_account(&before, &*self, slot as int);
            assert(self@.entries =~= before@.entries.insert(key@, view));
        }
        Ok(())
    }

    pub fn pinned_entries(&self) -> (count: usize)
        ensures
            count == self.pinned_number(),
    {
        let mut count: usize = 0;
        let mut i: usize = 0;
        assert(self.entries.slots().take(0) =~= Seq::<CacheEntry>::empty());
        while i < self.entries.len()
            invariant
                i <= self.entries.slots().len(),
                count <= i,
                count == total(self.entries.slots().take(i as int), pinned_count()),
            decreases self.entries.slots().len() - i,
        {
            proof {
                let slots = self.entries.slots();
                assert(slots.take(i + 1) =~= slots.take(i as int).push(slots[i as int]));
                lemma_total_push(slots.take(i as int), slots[i as int], pinned_count());
            }
            if self.entries.value(i).pinned {
                count += 1;
            }
            i += 1;
        }
        assert(self.entries.slots().take(i as int) =~= self.entries.slots());
        count
    }

    /// The payload bytes of all entries.
    pub fn payload_bytes(&self) -> (bytes: usize)
        requires
            self.wf(),
        ensures
            bytes == self.payload_total(),
            bytes <= self@.arena.allocated_bytes(),
    {
        let mut bytes: usize = 0;
        let mut i: usize = 0;
        proof {
            self.allocator.lemma_view();
            assert(self.entries.slots().take(0) =~= Seq::<CacheEntry>::empty());
        }
        while i < self.entries.len()
            invariant
                self.wf(),
                self.allocator@.allocated_bytes() <= usize::MAX,
                i <= self.entries.slots().len(),
                bytes == total(self.entries.slots().take(i as int), payload_weight()),
                bytes <= total(self.entries.slots().take(i as int), entry_weight()),
            decreases self.entries.slots().len() - i,
        {
            proof {
                let slots = self.entries.slots();
                assert(slots.take(i + 1) =~= slots.take(i as int).push(slots[i as int]));
                lemma_total_push(slots.take(i as int), slots[i as int], payload_weight());
                lemma_total_push(slots.take(i as int), slots[i as int], entry_weight());
                assert(slots[i as int].payload_bytes <= slots[i as int].allocated_bytes);
                lemma_total_prefix(slots, i as int + 1);
                assert(total(slots.take(i + 1), entry_weight()) <= total(slots, entry_weight()));
            }
            bytes = bytes + self.entries.value(i).payload_bytes;
            i += 1;
        }
        assert(self.entries.slots().take(i as int) =~= self.entries.slots());
        bytes
    }

    /// Whether an entry may leave.
    fn can_leave(&self, entry: &CacheEntry, tenant: Option<&str>) -> (result: bool)
        requires
            self.wf(),
        ensures
            result == self@.may_leave(
                entry@,
                match tenant {
                    Some(tenant) => Some(tenant@),
                    None => None,
                },
            ),
    {
        if entry.references != 0 || entry.pinned {
            return false;
        }
        match tenant {
            Some(tenant) => entry.owner_tenant == tenant.to_owned(),
            None => {
                let usage: usize = self.used_by(entry.owner_tenant.as_str());
                let reservation: usize = match self.tenant_reservations.get(
                    entry.owner_tenant.as_str(),
                ) {
                    Some(bytes) => *bytes,
                    None => 0,
                };
                usage.saturating_sub(entry.allocated_bytes) >= reservation
            },
        }
    }

    /// The bytes that a tenant is charged for.
    fn used_by(&self, tenant: &str) -> (bytes: usize)
        requires
            self.wf(),
        ensures
            bytes == share(self@.usage, tenant@),
    {
        match self.tenant_allocated.get(tenant) {
            Some(bytes) => *bytes,
            None => 0,
        }
    }

    /// Finds an entry that may leave and has the lowest rank of those.
    fn victim(&self, tenant: Option<&str>) -> (result: Option<usize>)
        requires
            self.wf(),
        ensures
            ({
                let sake: Option<Seq<char>> = match tenant {
                    Some(tenant) => Some(tenant@),
                    None => None,
                };
                match result {
                    Some(slot) => slot < self.entries.slots().len() && self@.is_victim(
                        sake,
                        self.entries.names()[slot as int],
                    ),
                    None => forall|key: Seq<char>| #[trigger]
                        self@.entries.contains_key(key) ==> !self@.may_leave(
                            self@.entries[key],
                            sake,
                        ),
                }
            }),
    {
        let ghost sake: Option<Seq<char>> = match tenant {
            Some(tenant) => Some(tenant@),
            None => None,
        };
        let mut found: Option<usize> = None;
        let mut i: usize = 0;
        while i < self.entries.len()
            invariant
                self.wf(),
                i <= self.entries.slots().len(),
                sake == match tenant {
                    Some(tenant) => Some(tenant@),
                    None => None,
                },
                match found {
                    Some(slot) => {
                        &&& slot < i
                        &&& self@.may_leave(self.entries.slots()[slot as int]@, sake)
                        &&& forall|j: int|
                            0 <= j < i && self@.may_leave(
                                (#[trigger] self.entries.slots()[j])@,
                                sake,
                            ) ==> self.entries.slots()[slot as int].rank <= self.entries.slots()[j].rank
                    },
                    None => forall|j: int|
                        0 <= j < i ==> !self@.may_leave((#[trigger] self.entries.slots()[j])@, sake),
                },
            decreases self.entries.slots().len() - i,
        {
            let entry: &CacheEntry = self.entries.value(i);
            if self.can_leave(entry, tenant) {
                let better: bool = match found {
                    Some(slot) => entry.rank < self.entries.value(slot).rank,
                    None => true,
                };
                if better {
                    found = Some(i);
                }
            }
            i += 1;
        }
        proof {
            self.entries.lemma_slots();
            match found {
                Some(slot) => {
                    let key = self.entries.names()[slot as int];
                    assert(self.entries@.contains_key(key));
                    assert forall|other: Seq<char>| #[trigger]
                        self@.entries.contains_key(other) && self@.may_leave(
                            self@.entries[other],
                            sake,
                        ) implies self@.entries[key].rank <= self@.entries[other].rank by {
                        assert(self.entries@.contains_key(other));
                        let j = self.entries.slot_of(other);
                        assert(self.entries.slots()[j]@ == self@.entries[other]);
                    }
                },
                None => {
                    assert forall|key: Seq<char>| #[trigger] self@.entries.contains_key(key) implies
                        !self@.may_leave(self@.entries[key], sake) by {
                        assert(self.entries@.contains_key(key));
                        let j = self.entries.slot_of(key);
                        assert(self.entries.slots()[j]@ == self@.entries[key]);
                    }
                },
            }
        }
        found
    }
}

impl GpuCache {
    /// The bytes that a tenant is charged for, after it gives back some.
    proof fn lemma_lowered(before: &Table<usize>, tenant: Seq<char>, bytes: usize, other: Seq<char>)
        requires
            before@.contains_key(tenant) ==> bytes <= before@[tenant],
        ensures
            share(lowered(before@, tenant, bytes), other) == if other == tenant
                && before@.contains_key(tenant) {
                (before@[tenant] - bytes) as usize
            } else {
                share(before@, other)
            },
    {
    }

    /// Takes an entry out of the cache.
    fn remove_entry(&mut self, key: &str) -> (result: Result<CacheEntry, &'static str>)
        requires
            old(self).wf(),
        ensures
            final(self).wf(),
            old(self).exact() ==> final(self).exact(),
            match result {
                Ok(entry) => {
                    &&& old(self)@.entries.contains_key(key@)
                    &&& entry@ == old(self)@.entries[key@]
                    &&& final(self)@ == old(self)@.dropped(key@)
                    &&& final(self).entry_number() + 1 == old(self).entry_number()
                    &&& final(self)@.arena.allocated_bytes() + entry.allocated_bytes
                        == old(self)@.arena.allocated_bytes()
                },
                Err(message) => !old(self)@.entries.contains_key(key@) && final(self)@ == old(self)@
                    && final(self).entry_number() == old(self).entry_number() && message@
                    == "GPU cache entry disappeared"@,
            },
    {
        let ghost before = *self;
        proof {
            self.entries.lemma_slots();
            self.tenant_allocated.lemma_slots();
            self.allocator.lemma_view();
        }
        let entry: CacheEntry = match self.entries.remove(key) {
            Some(entry) => entry,
            None => {
                proof {
                    assert(self@.entries =~= before@.entries);
                    assert forall|tenant: Seq<char>| #[trigger] self.owned_bytes(tenant)
                        == before.owned_bytes(tenant) by {}
                    self.lemma_wf_from(&before);
                }
                return Err("GPU cache entry disappeared");
            },
        };
        let ghost slot = before.entries.slot_of(key@);
        let ghost slots = before.entries.slots();
        let ghost index = choose|index: int|
            0 <= index < before.allocator@.runs.len() && (#[trigger] before.allocator@.runs[index]).used
                && entry.offset == before.allocator@.runs[index].start * before.allocator@.block_bytes
                && entry.allocated_bytes == before.allocator@.runs[index].blocks
                * before.allocator@.block_bytes;
        proof {
            assert(slots[slot] == entry);
            assert(before.allocator@.holds(slots[slot].offset as int, slots[slot].allocated_bytes as int));
            let start = before.allocator@.runs[index].start as int;
            let size = before.allocator@.block_bytes as int;
            vstd::arithmetic::div_mod::lemma_div_multiples_vanish(start, size);
            vstd::arithmetic::div_mod::lemma_mod_multiples_basic(start, size);
            vstd::arithmetic::mul::lemma_mul_is_commutative(start, size);
            assert(begins_at(before.allocator@.runs, start, index));
            lemma_indexes(
                before.allocator@.runs,
                before.allocator@.block_count as int,
                0,
                start,
                index,
            );
            crate::allocator::lemma_within(
                before.allocator@.runs,
                before.allocator@.block_count as int,
                index,
            );
            assert(start * size <= before.allocator@.capacity()) by (nonlinear_arith)
                requires
                    start <= before.allocator@.block_count,
                    size == before.allocator@.block_bytes,
                    before.allocator@.capacity() == before.allocator@.block_count
                        * before.allocator@.block_bytes,
            ;
        }
        match self.allocator.release(entry.offset as usize) {
            Ok(()) => {},
            Err(message) => {
                return Err(message);
            },
        }
        if entry.pinned {
            self.pinned_bytes = self.pinned_bytes.saturating_sub(entry.allocated_bytes);
        }
        let tenant: &str = entry.owner_tenant.as_str();
        match self.tenant_allocated.find(tenant) {
            None => {},
            Some(place) => {
                let usage: usize = (*self.tenant_allocated.value(place)).saturating_sub(
                    entry.allocated_bytes,
                );
                if usage == 0 {
                    self.tenant_allocated.remove(tenant);
                } else {
                    self.tenant_allocated.set(place, usage);
                }
            },
        }
        proof {
            let owner = entry.owner_tenant@;
            lemma_total_without(slots, slot, entry_weight());
            lemma_total_without(slots, slot, pinned_weight());
            assert forall|tenant: Seq<char>| #[trigger] self.owned_bytes(tenant) + owned_by(tenant)(entry)
                == before.owned_bytes(tenant) by {
                lemma_total_without(slots, slot, owned_by(tenant));
            }
            assert(before.owned_bytes(owner) <= share(before.tenant_allocated@, owner));
            assert(self.owned_bytes(owner) + owned_by(owner)(entry) == before.owned_bytes(owner));
            // Charges.
            if before.tenant_allocated@.contains_key(owner) {
                let place = before.tenant_allocated.slot_of(owner);
                let left = difference(before.tenant_allocated@[owner], entry.allocated_bytes);
                lemma_total_without(before.tenant_allocated.slots(), place, usage_weight());
                lemma_total_update(before.tenant_allocated.slots(), place, left, usage_weight());
            }
            assert(self.tenant_allocated@ =~= lowered(
                before.tenant_allocated@,
                owner,
                entry.allocated_bytes,
            ));
            assert forall|tenant: Seq<char>| #[trigger] self.owned_bytes(tenant) <= share(
                self.tenant_allocated@,
                tenant,
            ) by {
                assert(self.owned_bytes(tenant) + owned_by(tenant)(entry) == before.owned_bytes(tenant));
                assert(before.owned_bytes(tenant) <= share(before.tenant_allocated@, tenant));
                Self::lemma_lowered(&before.tenant_allocated, owner, entry.allocated_bytes, tenant);
            }
            if before.exact() {
                assert forall|tenant: Seq<char>| #[trigger] self.owned_bytes(tenant) == share(
                    self.tenant_allocated@,
                    tenant,
                ) by {
                    assert(self.owned_bytes(tenant) + owned_by(tenant)(entry) == before.owned_bytes(
                        tenant,
                    ));
                    assert(before.owned_bytes(tenant) == share(before.tenant_allocated@, tenant));
                    Self::lemma_lowered(&before.tenant_allocated, owner, entry.allocated_bytes, tenant);
                }
            }
            // Pages.
            assert forall|i: int| 0 <= i < self.entries.slots().len() implies self.allocator@.holds(
                (#[trigger] self.entries.slots()[i]).offset as int,
                self.entries.slots()[i].allocated_bytes as int,
            ) by {
                let j = if i == slot {
                    slots.len() - 1
                } else {
                    i
                };
                let other = self.entries.slots()[i];
                assert(slots[j] == other);
                assert(before.allocator@.holds(slots[j].offset as int, slots[j].allocated_bytes as int));
                let k = choose|k: int|
                    0 <= k < before.allocator@.runs.len() && (#[trigger] before.allocator@.runs[k]).used
                        && other.offset == before.allocator@.runs[k].start
                        * before.allocator@.block_bytes && other.allocated_bytes
                        == before.allocator@.runs[k].blocks * before.allocator@.block_bytes;
                let run = before.allocator@.runs[k];
                if j < slot {
                    assert(slots[j].offset != slots[slot].offset);
                } else {
                    assert(slots[slot].offset != slots[j].offset);
                }
                assert(before.allocator@.runs.contains(run));
                release_frees_one_run(
                    before.allocator@.runs,
                    before.allocator@.block_count as int,
                    index,
                    run,
                );
                let m = choose|m: int| 0 <= m < self.allocator@.runs.len() && self.allocator@.runs[m] == run;
                assert(self.allocator@.runs[m].used);
            }
            assert forall|i: int, j: int| 0 <= i < j < self.entries.slots().len() implies (
            #[trigger] self.entries.slots()[i]).offset != (#[trigger] self.entries.slots()[j]).offset by {
                let a = if i == slot {
                    slots.len() - 1
                } else {
                    i
                };
                let b = if j == slot {
                    slots.len() - 1
                } else {
                    j
                };
                if a < b {
                    assert(slots[a].offset != slots[b].offset);
                } else {
                    assert(slots[b].offset != slots[a].offset);
                }
            }
            assert forall|i: int| 0 <= i < self.entries.slots().len() implies (
            #[trigger] self.entries.slots()[i]).payload_bytes
                <= self.entries.slots()[i].allocated_bytes by {
                let j = if i == slot {
                    slots.len() - 1
                } else {
                    i
                };
                assert(slots[j].payload_bytes <= slots[j].allocated_bytes);
            }
            assert(self@.entries =~= before@.entries.remove(key@));
        }
        Ok(entry)
    }

    /// The same parts make the same account.
    proof fn lemma_wf_from(&self, before: &GpuCache)
        requires
            before.wf(),
            self.entries.wf(),
            self.entries.slots() == before.entries.slots(),
            self.allocator == before.allocator,
            self.sketch == before.sketch,
            self.tenant_allocated == before.tenant_allocated,
            self.tenant_reservations == before.tenant_reservations,
            self.pinned_max_bytes == before.pinned_max_bytes,
            self.pinned_bytes == before.pinned_bytes,
        ensures
            self.wf(),
            before.exact() ==> self.exact(),
    {
        assert forall|tenant: Seq<char>| #[trigger] self.owned_bytes(tenant) <= share(
            self.tenant_allocated@,
            tenant,
        ) by {
            assert(before.owned_bytes(tenant) <= share(before.tenant_allocated@, tenant));
        }
        if before.exact() {
            assert forall|tenant: Seq<char>| #[trigger] self.owned_bytes(tenant) == share(
                self.tenant_allocated@,
                tenant,
            ) by {
                assert(before.owned_bytes(tenant) == share(before.tenant_allocated@, tenant));
            }
        }
    }

    /// Takes an entry out of the cache and frees its pages.
    pub fn remove(&mut self, key: &str) -> (result: Result<(), &'static str>)
        requires
            old(self).wf(),
        ensures
            final(self).wf(),
            old(self).exact() ==> final(self).exact(),
            match result {
                Ok(()) => old(self)@.entries.contains_key(key@) && final(self)@ == old(self)@.dropped(
                    key@,
                ) && final(self).entry_number() + 1 == old(self).entry_number(),
                Err(message) => !old(self)@.entries.contains_key(key@) && final(self)@ == old(self)@
                    && final(self).entry_number() == old(self).entry_number() && message@
                    == "GPU cache entry disappeared"@,
            },
    {
        match self.remove_entry(key) {
            Ok(_) => Ok(()),
            Err(message) => Err(message),
        }
    }
}

impl GpuCache {
    /// Lets a victim leave and raises the inflation to its rank.
    fn evict(&mut self, slot: usize)
        requires
            old(self).wf(),
            slot < old(self).entries.slots().len(),
            old(self)@.evictions < u64::MAX,
        ensures
            final(self).wf(),
            old(self).exact() ==> final(self).exact(),
            final(self)@ == old(self)@.evicted(old(self).entries.names()[slot as int]),
            final(self).entry_number() + 1 == old(self).entry_number(),
    {
        let key: String = self.entries.key(slot).clone();
        proof {
            self.entries.lemma_slots();
            assert(self.entries@.contains_key(self.entries.names()[slot as int]));
        }
        let ghost before = *self;
        match self.remove_entry(key.as_str()) {
            Ok(entry) => {
                let ghost middle = *self;
                if entry.rank > self.inflation {
                    self.inflation = entry.rank;
                }
                self.evictions = self.evictions + 1;
                proof {
                    middle.lemma_kept_account(&*self);
                    assert(self@.entries =~= middle@.entries);
                }
            },
            Err(_) => {},
        }
    }

    /// Asks a victim to leave.
    fn make_room(&mut self, tenant: Option<&str>, contested: bool, rank: u64) -> (step: AdmissionStep)
        requires
            old(self).wf(),
            old(self)@.evictions < u64::MAX,
            old(self)@.admission_rejections < u64::MAX,
        ensures
            final(self).wf(),
            old(self).exact() ==> final(self).exact(),
            old(self)@.makes_room(
                match tenant {
                    Some(tenant) => Some(tenant@),
                    None => None,
                },
                contested,
                rank,
                final(self)@,
                step,
            ),
            final(self).entry_number() == if step == AdmissionStep::Evicted {
                old(self).entry_number() - 1
            } else {
                old(self).entry_number() as int
            },
    {
        let ghost sake: Option<Seq<char>> = match tenant {
            Some(tenant) => Some(tenant@),
            None => None,
        };
        let slot: usize = match self.victim(tenant) {
            Some(slot) => slot,
            None => {
                return AdmissionStep::Finished(Admission::Deferred);
            },
        };
        proof {
            self.entries.lemma_slots();
            let key = self.entries.names()[slot as int];
            assert(self.entries@.contains_key(key));
            assert(self@.is_victim(sake, key));
            assert(self@.entries.contains_key(key));
        }
        if contested && rank <= self.entries.value(slot).rank {
            let ghost before = *self;
            self.admission_rejections = self.admission_rejections + 1;
            proof {
                before.lemma_kept_account(&*self);
                assert(self@.entries =~= before@.entries);
            }
            return AdmissionStep::Finished(Admission::Rejected);
        }
        self.evict(slot);
        AdmissionStep::Evicted
    }

    /// The pages of a tensor that was placed are its own.
    proof fn lemma_placed_pages(
        before: &GpuCache,
        after: &GpuCache,
        request: AdmissionRequestView,
        entry: CacheEntry,
    )
        requires
            before.wf(),
            after.allocator.wf(),
            before.allocator@.allocation(request.payload_bytes as nat) is Some,
            best_fit(
                before.allocator@.runs,
                before.allocator@.blocks_for(request.payload_bytes as nat) as int,
                fit_index(
                    before.allocator@.runs,
                    before.allocator@.blocks_for(request.payload_bytes as nat) as int,
                ),
            ),
            0 < before.allocator@.blocks_for(request.payload_bytes as nat) <= usize::MAX,
            after.allocator@ == before.allocator@.allocated(request.payload_bytes as nat),
            entry.offset == before.allocator@.offset_for(request.payload_bytes as nat),
            entry.allocated_bytes == before.allocator@.blocks_for(request.payload_bytes as nat)
                * before.allocator@.block_bytes,
        ensures
            after.allocator@.holds(entry.offset as int, entry.allocated_bytes as int),
            forall|i: int|
                0 <= i < before.entries.slots().len() ==> after.allocator@.holds(
                    (#[trigger] before.entries.slots()[i]).offset as int,
                    before.entries.slots()[i].allocated_bytes as int,
                ) && before.entries.slots()[i].offset != entry.offset,
    {
        before.allocator.lemma_view();
        let arena = before.allocator@;
        let required = arena.blocks_for(request.payload_bytes as nat) as usize;
        let index = fit_index(arena.runs, required as int);
        let head = Run { start: arena.runs[index].start, blocks: required, used: true };
        assert(after.allocator@.runs[index] == head);
        assert forall|i: int| 0 <= i < before.entries.slots().len() implies after.allocator@.holds(
            (#[trigger] before.entries.slots()[i]).offset as int,
            before.entries.slots()[i].allocated_bytes as int,
        ) && before.entries.slots()[i].offset != entry.offset by {
            let other = before.entries.slots()[i];
            assert(arena.holds(other.offset as int, other.allocated_bytes as int));
            let k = choose|k: int|
                0 <= k < arena.runs.len() && (#[trigger] arena.runs[k]).used && other.offset
                    == arena.runs[k].start * arena.block_bytes && other.allocated_bytes
                    == arena.runs[k].blocks * arena.block_bytes;
            let run = arena.runs[k];
            assert(arena.runs.contains(run));
            allocate_keeps_allocations(
                arena.runs,
                arena.block_count as int,
                index,
                required,
                run,
            );
            let m = choose|m: int| 0 <= m < after.allocator@.runs.len() && after.allocator@.runs[m] == run;
            assert(after.allocator@.runs[m].used);
            assert(run.blocks > 0 && arena.runs[index].blocks > 0);
            if run.start == arena.runs[index].start {
                crate::allocator::allocations_are_disjoint(
                    arena.runs,
                    arena.block_count as int,
                    k,
                    index,
                    run.start as int,
                );
            }
            let a = run.start as int;
            let b = arena.runs[index].start as int;
            assert(a * arena.block_bytes != b * arena.block_bytes) by (nonlinear_arith)
                requires
                    a != b,
                    arena.block_bytes > 0,
            ;
        }
    }

    /// Placing a tensor keeps the account.
    proof fn lemma_placed(
        before: &GpuCache,
        after: &GpuCache,
        request: AdmissionRequestView,
        entry: CacheEntry,
    )
        requires
            before.wf(),
            after.allocator.wf(),
            before.allocator@.allocation(request.payload_bytes as nat) is Some,
            best_fit(
                before.allocator@.runs,
                before.allocator@.blocks_for(request.payload_bytes as nat) as int,
                fit_index(
                    before.allocator@.runs,
                    before.allocator@.blocks_for(request.payload_bytes as nat) as int,
                ),
            ),
            0 < before.allocator@.blocks_for(request.payload_bytes as nat) <= usize::MAX,
            after.allocator@ == before.allocator@.allocated(request.payload_bytes as nat),
            after.allocator@.allocated_bytes() == before.allocator@.allocated_bytes()
                + entry.allocated_bytes,
            entry.offset == before.allocator@.offset_for(request.payload_bytes as nat),
            entry.allocated_bytes == before.allocator@.blocks_for(request.payload_bytes as nat)
                * before.allocator@.block_bytes,
            entry.payload_bytes == request.payload_bytes,
            entry.pinned == request.pinned,
            entry.owner_tenant@ == request.tenant,
            after.entries.wf(),
            after.entries@ == before.entries@.insert(request.key, entry),
            after.entries.slots() == if before.entries@.contains_key(request.key) {
                before.entries.slots().update(before.entries.slot_of(request.key), entry)
            } else {
                before.entries.slots().push(entry)
            },
            after.sketch == before.sketch,
            after.tenant_allocated.wf(),
            share(before.tenant_allocated@, request.tenant) + entry.allocated_bytes <= usize::MAX,
            ({
                let charge = (share(before.tenant_allocated@, request.tenant)
                    + entry.allocated_bytes) as usize;
                &&& after.tenant_allocated@ == before.tenant_allocated@.insert(request.tenant, charge)
                &&& after.tenant_allocated.slots() == if before.tenant_allocated@.contains_key(
                    request.tenant,
                ) {
                    before.tenant_allocated.slots().update(
                        before.tenant_allocated.slot_of(request.tenant),
                        charge,
                    )
                } else {
                    before.tenant_allocated.slots().push(charge)
                }
            }),
            after.tenant_reservations == before.tenant_reservations,
            after.pinned_max_bytes == before.pinned_max_bytes,
            after.pinned_bytes == if request.pinned {
                before.pinned_bytes + entry.allocated_bytes
            } else {
                before.pinned_bytes as int
            },
            after.pinned_bytes <= after.pinned_max_bytes,
        ensures
            after.wf(),
            before.exact() && !before.entries@.contains_key(request.key) ==> after.exact(),
            after@.entries == before@.entries.insert(request.key, entry@),
    {
        Self::lemma_placed_pages(before, after, request, entry);
        before.entries.lemma_slots();
        before.tenant_allocated.lemma_slots();
        let slots = before.entries.slots();
        let slot = before.entries.slot_of(request.key);
        let replaced = before.entries@.contains_key(request.key);
        let charge = (share(before.tenant_allocated@, request.tenant) + entry.allocated_bytes) as usize;
        if replaced {
            lemma_total_update(slots, slot, entry, entry_weight());
            lemma_total_update(slots, slot, entry, pinned_weight());
        } else {
            lemma_total_push(slots, entry, entry_weight());
            lemma_total_push(slots, entry, pinned_weight());
        }
        let charges = before.tenant_allocated.slots();
        if before.tenant_allocated@.contains_key(request.tenant) {
            lemma_total_update(
                charges,
                before.tenant_allocated.slot_of(request.tenant),
                charge,
                usage_weight(),
            );
        } else {
            lemma_total_push(charges, charge, usage_weight());
        }
        assert forall|tenant: Seq<char>| #[trigger] after.owned_bytes(tenant) <= before.owned_bytes(tenant)
            + owned_by(tenant)(entry) && (!replaced ==> after.owned_bytes(tenant)
            == before.owned_bytes(tenant) + owned_by(tenant)(entry)) by {
            if replaced {
                lemma_total_update(slots, slot, entry, owned_by(tenant));
            } else {
                lemma_total_push(slots, entry, owned_by(tenant));
            }
        }
        assert forall|tenant: Seq<char>| #[trigger] after.owned_bytes(tenant) <= share(
            after.tenant_allocated@,
            tenant,
        ) by {
            assert(before.owned_bytes(tenant) <= share(before.tenant_allocated@, tenant));
        }
        if before.exact() && !replaced {
            assert forall|tenant: Seq<char>| #[trigger] after.owned_bytes(tenant) == share(
                after.tenant_allocated@,
                tenant,
            ) by {
                assert(before.owned_bytes(tenant) == share(before.tenant_allocated@, tenant));
            }
        }
        let size = before.allocator@.block_bytes as int;
        before.allocator.lemma_view();
        let payload = request.payload_bytes as int;
        vstd::arithmetic::div_mod::lemma_fundamental_div_mod(payload - 1, size);
        vstd::arithmetic::div_mod::lemma_mod_bound(payload - 1, size);
        assert(payload <= ((payload - 1) / size + 1) * size) by (nonlinear_arith)
            requires
                payload - 1 == size * ((payload - 1) / size) + (payload - 1) % size,
                (payload - 1) % size < size,
        ;
        assert forall|i: int| 0 <= i < after.entries.slots().len() implies (
        #[trigger] after.entries.slots()[i]).payload_bytes <= after.entries.slots()[i].allocated_bytes by {
            if after.entries.slots()[i] != entry {
                assert(slots[i].payload_bytes <= slots[i].allocated_bytes);
            }
        }
        assert forall|i: int, j: int| 0 <= i < j < after.entries.slots().len() implies (
        #[trigger] after.entries.slots()[i]).offset != (#[trigger] after.entries.slots()[j]).offset by {
            let place = if replaced {
                slot
            } else {
                slots.len() as int
            };
            if i == place {
                assert(slots[j].offset != entry.offset);
            } else if j == place {
                assert(slots[i].offset != entry.offset);
            } else {
                assert(slots[i].offset != slots[j].offset);
            }
        }
        assert(after@.entries =~= before@.entries.insert(request.key, entry@));
    }

    /// Gives a tensor its pages.
    fn place(&mut self, request: &AdmissionRequest, size: usize, rank: u64) -> (admission: Admission)
        requires
            old(self).wf(),
            old(self)@.arena.allocation(request.payload_bytes as nat) == Some(size as nat),
            old(self)@.arena.largest_free() >= size,
            request.pinned ==> old(self)@.pinned_bytes + size <= old(self)@.pinned_max,
        ensures
            final(self).wf(),
            old(self).exact() && !old(self)@.entries.contains_key(request.key@)
                ==> final(self).exact(),
            final(self)@ == old(self)@.placed(request@, rank),
            admission == (Admission::Admitted {
                offset: old(self)@.entry_for(request@, rank).offset,
                allocated_bytes: size,
            }),
            final(self).entry_number() == if old(self)@.entries.contains_key(request.key@) {
                old(self).entry_number()
            } else {
                old(self).entry_number() + 1
            },
    {
        let ghost before = *self;
        let ghost arena = self.allocator@;
        let ghost required = arena.blocks_for(request.payload_bytes as nat) as usize;
        proof {
            self.allocator.lemma_view();
            let blocks = largest_free_blocks(arena.runs, arena.runs.len() as int);
            let needed = arena.blocks_for(request.payload_bytes as nat) as int;
            assert(blocks >= needed) by (nonlinear_arith)
                requires
                    blocks * arena.block_bytes >= needed * arena.block_bytes,
                    arena.block_bytes > 0,
            ;
            assert(needed > 0) by {
                assert((request.payload_bytes - 1) / arena.block_bytes as int >= 0) by (nonlinear_arith)
                    requires
                        request.payload_bytes >= 1,
                        arena.block_bytes >= 1,
                ;
            }
            largest_free_decides(arena.runs, arena.runs.len() as int, needed);
            self.entries.lemma_slots();
            self.tenant_allocated.lemma_slots();
        }
        let (offset, allocated_bytes) = match self.allocator.allocate(request.payload_bytes) {
            Some(allocation) => allocation,
            None => {
                return Admission::Deferred;
            },
        };
        proof {
            self.allocator.lemma_view();
        }
        let entry = CacheEntry {
            offset: offset as u64,
            allocated_bytes,
            payload_bytes: request.payload_bytes,
            rows: request.rows,
            dimension: request.dimension,
            dtype: request.dtype,
            references: 1,
            pinned: request.pinned,
            ready: false,
            owner_tenant: request.tenant.clone(),
            rank,
        };
        let ghost placed = entry;
        self.entries.insert(request.key.clone(), entry);
        let usage: usize = match self.tenant_allocated.get(request.tenant.as_str()) {
            Some(bytes) => *bytes,
            None => 0,
        };
        proof {
            if before.tenant_allocated@.contains_key(request.tenant@) {
                lemma_total_covers(
                    before.tenant_allocated.slots(),
                    before.tenant_allocated.slot_of(request.tenant@),
                    usage_weight(),
                );
            }
        }
        self.tenant_allocated.insert(request.tenant.clone(), usage + allocated_bytes);
        if request.pinned {
            self.pinned_bytes = self.pinned_bytes + allocated_bytes;
        }
        proof {
            self.entries.lemma_slots();
            Self::lemma_placed(&before, &*self, request@, placed);
        }
        Admission::Admitted { offset: offset as u64, allocated_bytes }
    }
}

impl GpuCache {
    /// One step towards an admission, for a tensor of the given rank.
    pub fn admission_step(&mut self, request: &AdmissionRequest, rank: u64) -> (step: AdmissionStep)
        requires
            old(self).wf(),
            old(self)@.evictions < u64::MAX,
            old(self)@.admission_rejections < u64::MAX,
        ensures
            final(self).wf(),
            old(self).exact() && !old(self)@.entries.contains_key(request.key@)
                ==> final(self).exact(),
            old(self)@.steps(request@, rank, final(self)@, step),
            step == AdmissionStep::Evicted ==> final(self).entry_number() + 1
                == old(self).entry_number(),
            step != AdmissionStep::Evicted ==> final(self).entry_number() <= old(
                self,
            ).entry_number() + 1,
    {
        let size: usize = match self.allocator.allocation_bytes(request.payload_bytes) {
            Some(size) => size,
            None => {
                return AdmissionStep::Finished(Admission::Deferred);
            },
        };
        if size > self.allocator.capacity() {
            return AdmissionStep::Finished(Admission::Deferred);
        }
        if request.pinned && self.pinned_bytes.saturating_add(size) > self.pinned_max_bytes {
            return AdmissionStep::Finished(Admission::Deferred);
        }
        if !request.pinned {
            let tenant: &str = request.tenant.as_str();
            let reservation: usize = match self.tenant_reservations.get(tenant) {
                Some(bytes) => *bytes,
                None => 0,
            };
            let limit: usize = if reservation > self.default_tenant_max_bytes {
                reservation
            } else {
                self.default_tenant_max_bytes
            };
            if self.used_by(tenant).saturating_add(size) > limit {
                return self.make_room(Some(tenant), !request.force, rank);
            }
        }
        if self.allocator.largest_free() < size {
            return self.make_room(None, !request.force && !request.pinned, rank);
        }
        AdmissionStep::Finished(self.place(request, size, rank))
    }

    /// Asks for pages. Entries leave, the lowest rank first, until the tenant is
    /// within its limit and a free run is large enough; unless it is forced, a
    /// tensor whose rank is not above that of the entry to leave is rejected.
    pub fn admit_for_tenant<W: Fn(u64, u16, usize) -> u64>(
        &mut self,
        request: &AdmissionRequest,
        weigh: &W,
    ) -> (admission: Admission)
        requires
            old(self).wf(),
            old(self)@.evictions + old(self).entry_number() < u64::MAX,
            old(self)@.admission_rejections < u64::MAX,
            forall|inflation: u64, frequency: u16, bytes: usize|
                call_requires(*weigh, (inflation, frequency, bytes)),
        ensures
            final(self).wf(),
            old(self).exact() && !old(self)@.entries.contains_key(request.key@)
                ==> final(self).exact(),
            exists|evictions: nat| #[trigger]
                admits(*weigh, old(self)@, request@, final(self)@, admission, evictions),
            final(self)@.evictions + final(self).entry_number() <= old(self)@.evictions + old(
                self,
            ).entry_number() + 1,
            final(self)@.admission_rejections <= old(self)@.admission_rejections + 1,
    {
        let size: usize = match self.allocator.allocation_bytes(request.payload_bytes) {
            Some(size) => size,
            None => {
                assert(admits(*weigh, old(self)@, request@, self@, Admission::Deferred, 0));
                return Admission::Deferred;
            },
        };
        let ghost mut done: nat = 0;
        loop
            invariant
                self.wf(),
                old(self).exact() && !old(self)@.entries.contains_key(request.key@) ==> self.exact()
                    && !self@.entries.contains_key(request.key@),
                self@.evictions + self.entry_number() < u64::MAX,
                self@.evictions + self.entry_number() <= old(self)@.evictions + old(
                    self,
                ).entry_number(),
                self@.admission_rejections < u64::MAX,
                self@.admission_rejections == old(self)@.admission_rejections,
                self@.arena.block_bytes == old(self)@.arena.block_bytes,
                self@.arena.allocation(request.payload_bytes as nat) == Some(size as nat),
                forall|inflation: u64, frequency: u16, bytes: usize|
                    call_requires(*weigh, (inflation, frequency, bytes)),
                forall|after: CacheView, admission: Admission, evictions: nat| #[trigger]
                    admits(*weigh, self@, request@, after, admission, evictions) ==> admits(
                        *weigh,
                        old(self)@,
                        request@,
                        after,
                        admission,
                        evictions + done,
                    ),
            decreases self.entry_number(),
        {
            let ghost before = self@;
            let estimate: u16 = self.sketch.estimate(request.key.as_str());
            let frequency: u16 = if estimate == 0 {
                1
            } else {
                estimate
            };
            let rank: u64 = weigh(self.inflation, frequency, size);
            assert(weighs(*weigh, before, request@, rank));
            let step: AdmissionStep = self.admission_step(request, rank);
            match step {
                AdmissionStep::Finished(admission) => {
                    proof {
                        assert(admits(*weigh, before, request@, self@, admission, 0));
                        assert(admits(*weigh, old(self)@, request@, self@, admission, 0 + done));
                    }
                    return admission;
                },
                AdmissionStep::Evicted => {
                    proof {
                        let next = self@;
                        assert(before.steps(request@, rank, next, AdmissionStep::Evicted));
                        assert forall|after: CacheView, admission: Admission, evictions: nat| #[trigger]
                            admits(*weigh, next, request@, after, admission, evictions) implies admits(
                            *weigh,
                            old(self)@,
                            request@,
                            after,
                            admission,
                            evictions + (done + 1),
                        ) by {
                            assert(admits(*weigh, before, request@, after, admission, evictions + 1));
                        }
                        done = done + 1;
                    }
                },
            }
        }
    }

    /// Asks for pages in the name of the default tenant.
    pub fn admit_default<W: Fn(u64, u16, usize) -> u64>(
        &mut self,
        key: String,
        payload_bytes: usize,
        rows: u32,
        dimension: u32,
        dtype: u8,
        pinned: bool,
        force: bool,
        weigh: &W,
    ) -> (admission: Admission)
        requires
            old(self).wf(),
            old(self)@.evictions + old(self).entry_number() < u64::MAX,
            old(self)@.admission_rejections < u64::MAX,
            forall|inflation: u64, frequency: u16, bytes: usize|
                call_requires(*weigh, (inflation, frequency, bytes)),
        ensures
            final(self).wf(),
            old(self).exact() && !old(self)@.entries.contains_key(key@) ==> final(self).exact(),
            exists|evictions: nat| #[trigger]
                admits(
                    *weigh,
                    old(self)@,
                    AdmissionRequestView {
                        tenant: "__default__"@,
                        key: key@,
                        payload_bytes,
                        rows,
                        dimension,
                        dtype,
                        pinned,
                        force,
                    },
                    final(self)@,
                    admission,
                    evictions,
                ),
            final(self)@.evictions + final(self).entry_number() <= old(self)@.evictions + old(
                self,
            ).entry_number() + 1,
            final(self)@.admission_rejections <= old(self)@.admission_rejections + 1,
    {
        let request = AdmissionRequest {
            tenant: "__default__".to_owned(),
            key,
            payload_bytes,
            rows,
            dimension,
            dtype,
            pinned,
            force,
        };
        self.admit_for_tenant(&request, weigh)
    }
}

/// What an admission does to the entries: the tensor has its pages and one
/// reference, or no entry is new; the other entries that are left are as before;
/// and an entry that is in use or pinned stays.
pub proof fn admission_keeps_used_entries<W: Fn(u64, u16, usize) -> u64>(
    weigh: W,
    before: CacheView,
    request: AdmissionRequestView,
    after: CacheView,
    admission: Admission,
    evictions: nat,
)
    requires
        admits(weigh, before, request, after, admission, evictions),
    ensures
        forall|key: Seq<char>| #[trigger]
            after.entries.contains_key(key) && !(admission is Admitted && key == request.key)
                ==> before.entries.contains_key(key) && after.entries[key] == before.entries[key],
        match admission {
            Admission::Admitted { offset, allocated_bytes } => {
                let entry = after.entries[request.key];
                &&& after.entries.contains_key(request.key)
                &&& entry.offset == offset
                &&& entry.allocated_bytes == allocated_bytes
                &&& entry.payload_bytes == request.payload_bytes
                &&& entry.rows == request.rows
                &&& entry.dimension == request.dimension
                &&& entry.dtype == request.dtype
                &&& entry.pinned == request.pinned
                &&& entry.owner_tenant == request.tenant
                &&& entry.references == 1
                &&& !entry.ready
            },
            _ => true,
        },
        forall|key: Seq<char>| #[trigger]
            before.entries.contains_key(key) && (before.entries[key].references > 0
                || before.entries[key].pinned) && key != request.key ==> after.entries.contains_key(
                key,
            ),
        after.hits == before.hits,
        after.misses == before.misses,
    decreases evictions,
{
    if before.arena.allocation(request.payload_bytes as nat) is Some && evictions > 0 {
        let (rank, next) = choose|rank: u64, next: CacheView|
            weighs(weigh, before, request, rank) && #[trigger] before.steps(
                request,
                rank,
                next,
                AdmissionStep::Evicted,
            ) && admits(weigh, next, request, after, admission, (evictions - 1) as nat);
        admission_keeps_used_entries(weigh, next, request, after, admission, (evictions - 1) as nat);
        assert forall|key: Seq<char>| #[trigger]
            after.entries.contains_key(key) && !(admission is Admitted && key
                == request.key) implies before.entries.contains_key(key) && after.entries[key]
            == before.entries[key] by {
            assert(next.entries.contains_key(key) && after.entries[key] == next.entries[key]);
        }
        assert forall|key: Seq<char>| #[trigger]
            before.entries.contains_key(key) && (before.entries[key].references > 0
                || before.entries[key].pinned) && key != request.key implies after.entries.contains_key(
            key,
        ) by {
            assert(next.entries.contains_key(key) && next.entries[key] == before.entries[key]);
        }
    }
}

/// A tensor that just got its pages is not a hit before its upload is done.
pub proof fn loading_is_not_visible(cache: CacheView, request: AdmissionRequestView, rank: u64)
    ensures
        cache.placed(request, rank).entries.contains_key(request.key),
        !cache.placed(request, rank).visible(request.key),
{
}

/// Taking a tensor out again right after it got its pages leaves the cache as
/// it was: pages, charges and pinned bytes.
pub proof fn removal_undoes_admission(cache: CacheView, request: AdmissionRequestView, rank: u64)
    requires
        tiles(cache.arena.runs, cache.arena.block_count as int),
        cache.arena.block_bytes > 0,
        cache.arena.capacity() <= usize::MAX,
        !cache.entries.contains_key(request.key),
        cache.usage.contains_key(request.tenant) ==> cache.usage[request.tenant] > 0,
        cache.arena.allocation(request.payload_bytes as nat) is Some,
        cache.arena.largest_free() >= cache.arena.allocation(request.payload_bytes as nat)->0,
        share(cache.usage, request.tenant) + cache.arena.allocation(
            request.payload_bytes as nat,
        )->0 <= usize::MAX,
        cache.pinned_bytes + cache.arena.allocation(request.payload_bytes as nat)->0 <= usize::MAX,
    ensures
        cache.placed(request, rank).dropped(request.key) == cache,
{
    let arena = cache.arena;
    let needed = arena.blocks_for(request.payload_bytes as nat) as int;
    let size = arena.block_bytes as int;
    let payload = request.payload_bytes as int;
    assert((payload - 1) / size >= 0) by (nonlinear_arith)
        requires
            payload >= 1,
            size >= 1,
    ;
    let blocks = largest_free_blocks(arena.runs, arena.runs.len() as int);
    assert(blocks >= needed) by (nonlinear_arith)
        requires
            blocks * size >= needed * size,
            size > 0,
    ;
    assert(needed <= needed * size) by (nonlinear_arith)
        requires
            needed >= 0,
            size >= 1,
    ;
    largest_free_decides(arena.runs, arena.runs.len() as int, needed);
    crate::allocator::lemma_fit_exists(arena.runs, needed);
    let index = fit_index(arena.runs, needed);
    let count = arena.block_count as int;
    assert(count <= count * size) by (nonlinear_arith)
        requires
            count >= 0,
            size >= 1,
    ;
    crate::allocator::release_undoes_allocate(arena.runs, count, index, needed as usize);
    crate::allocator::lemma_within(arena.runs, count, index);
    let during = cache.placed(request, rank);
    let start = arena.runs[index].start as int;
    assert(during.arena.runs[index].start == start);
    assert(0 <= start * size <= count * size) by (nonlinear_arith)
        requires
            0 <= start <= count,
            size > 0,
    ;
    vstd::arithmetic::div_mod::lemma_div_multiples_vanish(start, size);
    vstd::arithmetic::mul::lemma_mul_is_commutative(start, size);
    crate::allocator::lemma_taken(arena.runs, count, index, needed as usize);
    assert(begins_at(during.arena.runs, start, index));
    lemma_indexes(during.arena.runs, count, 0, start, index);
    assert(during.dropped(request.key).arena.runs == arena.runs);
    assert(during.dropped(request.key).entries =~= cache.entries);
    assert(during.dropped(request.key).usage =~= cache.usage);
}

/// What is reserved for a tenant stays: whatever leaves so that another tenant's
/// tensor gets its pages, a tenant keeps what it has, or at least its reservation.
pub proof fn reservations_are_kept<W: Fn(u64, u16, usize) -> u64>(
    weigh: W,
    before: CacheView,
    request: AdmissionRequestView,
    after: CacheView,
    admission: Admission,
    evictions: nat,
    tenant: Seq<char>,
)
    requires
        admits(weigh, before, request, after, admission, evictions),
        tenant != request.tenant,
    ensures
        after.reservations == before.reservations,
        share(after.usage, tenant) >= share(before.usage, tenant) || share(after.usage, tenant)
            >= share(before.reservations, tenant),
    decreases evictions,
{
    if before.arena.allocation(request.payload_bytes as nat) is Some && evictions > 0 {
        let (rank, next) = choose|rank: u64, next: CacheView|
            weighs(weigh, before, request, rank) && #[trigger] before.steps(
                request,
                rank,
                next,
                AdmissionStep::Evicted,
            ) && admits(weigh, next, request, after, admission, (evictions - 1) as nat);
        reservations_are_kept(
            weigh,
            next,
            request,
            after,
            admission,
            (evictions - 1) as nat,
            tenant,
        );
    }
}

/// A tensor that is not pinned gets its pages only within the limit of its
/// tenant, a pinned one only within the pinned budget, however many entries left
/// for it.
pub proof fn admission_keeps_limits<W: Fn(u64, u16, usize) -> u64>(
    weigh: W,
    before: CacheView,
    request: AdmissionRequestView,
    after: CacheView,
    admission: Admission,
    evictions: nat,
)
    requires
        admits(weigh, before, request, after, admission, evictions),
        admission is Admitted,
        before.arena.capacity() + share(before.usage, request.tenant) <= usize::MAX,
        before.arena.capacity() + before.pinned_bytes <= usize::MAX,
    ensures
        !request.pinned ==> share(after.usage, request.tenant) <= before.tenant_limit(
            request.tenant,
        ),
        request.pinned ==> after.pinned_bytes <= before.pinned_max,
    decreases evictions,
{
    if before.arena.allocation(request.payload_bytes as nat) is Some && evictions > 0 {
        let (rank, next) = choose|rank: u64, next: CacheView|
            weighs(weigh, before, request, rank) && #[trigger] before.steps(
                request,
                rank,
                next,
                AdmissionStep::Evicted,
            ) && admits(weigh, next, request, after, admission, (evictions - 1) as nat);
        admission_keeps_limits(weigh, next, request, after, admission, (evictions - 1) as nat);
    }
}

/// A rejected tensor was not forced, and had no higher rank than every entry
/// that could have left for it.
pub proof fn rejection_protects_hotter_entries(
    cache: CacheView,
    request: AdmissionRequestView,
    rank: u64,
    after: CacheView,
)
    requires
        cache.steps(request, rank, after, AdmissionStep::Finished(Admission::Rejected)),
    ensures
        !request.force,
        after.entries == cache.entries,
        after.arena == cache.arena,
        forall|key: Seq<char>| #[trigger]
            cache.entries.contains_key(key) && cache.may_leave(
                cache.entries[key],
                cache.sake(request),
            ) ==> rank <= cache.entries[key].rank,
{
    let tenant = cache.sake(request);
    assert forall|key: Seq<char>| #[trigger]
        cache.entries.contains_key(key) && cache.may_leave(cache.entries[key], tenant) implies rank
        <= cache.entries[key].rank by {
        let victim = choose|victim: Seq<char>| #[trigger]
            cache.is_victim(tenant, victim) && rank <= cache.entries[victim].rank;
    }
}

/// A sum over the first values is part of the sum over all.
pub proof fn lemma_total_prefix<T>(values: Seq<T>, count: int)
    requires
        0 <= count <= values.len(),
    ensures
        forall|weight: spec_fn(T) -> nat| #[trigger]
            total(values.take(count), weight) <= total(values, weight),
    decreases values.len() - count,
{
    if count < values.len() {
        lemma_total_prefix(values, count + 1);
        assert forall|weight: spec_fn(T) -> nat| #[trigger] total(values.take(count), weight) <= total(
            values,
            weight,
        ) by {
            assert(values.take(count + 1) =~= values.take(count).push(values[count]));
            lemma_total_push(values.take(count), values[count], weight);
            assert(total(values.take(count + 1), weight) <= total(values, weight));
        }
    } else {
        assert(values.take(count) =~= values);
    }
}

/// A tensor asks for pages with the estimate of its accesses, at least one, and with the
/// bytes of whole pages that hold its payload.
pub proof fn tensors_ask_with_their_estimate<W: Fn(u64, u16, usize) -> u64>(
    weigh: W,
    cache: CacheView,
    request: AdmissionRequestView,
    rank: u64,
)
    requires
        weighs(weigh, cache, request, rank),
    ensures
        call_ensures(
            weigh,
            (
                cache.inflation,
                vstd::math::max(cache.sketch.estimate(request.key) as int, 1) as u16,
                cache.arena.allocation(request.payload_bytes as nat)->0 as usize,
            ),
            rank,
        ),
{
}

/// After `n` accesses of a key, with none of them halved yet, it asks with a frequency
/// of at least `n`, up to the largest counter.
pub proof fn accessed_tensors_ask_as_often(
    cache: CacheView,
    keys: Seq<Seq<char>>,
    key: Seq<char>,
)
    requires
        keys.len() < 40960,
        cache.sketch == after_accesses(SketchView::empty(4096), keys),
    ensures
        cache.demand(key) >= vstd::math::min(accesses_of(keys, key) as int, 0xffff),
        cache.demand(key) >= 1,
{
    nothing_is_counted_at_first(4096, key);
    accesses_are_not_undercounted(SketchView::empty(4096), keys, key);
}

/// Whether an entry may make room for a request: nothing refers to it, it is not pinned,
/// and it is the asking tenant's own where that tenant would go above its limit, which is
/// its reservation or the common one; otherwise its tenant keeps its reservation without
/// it.
pub open spec fn makes_way(
    cache: CacheView,
    request: AdmissionRequestView,
    entry: EntryView,
) -> bool {
    &&& entry.references == 0
    &&& !entry.pinned
    &&& if !request.pinned && share(cache.usage, request.tenant) + cache.arena.allocation(
        request.payload_bytes as nat,
    )->0 > vstd::math::max(
        cache.tenant_max as int,
        share(cache.reservations, request.tenant) as int,
    ) {
        entry.owner_tenant == request.tenant
    } else {
        vstd::math::max(
            share(cache.usage, entry.owner_tenant) - entry.allocated_bytes,
            0,
        ) >= share(cache.reservations, entry.owner_tenant)
    }
}

/// The entries that may leave are those that make way.
proof fn lemma_makes_way(cache: CacheView, request: AdmissionRequestView, entry: EntryView)
    requires
        share(cache.usage, request.tenant) + cache.arena.allocation(
            request.payload_bytes as nat,
        )->0 <= usize::MAX,
    ensures
        makes_way(cache, request, entry) <==> cache.may_leave(entry, cache.sake(request)),
{
}

/// Whether more accesses give a higher rank, other things equal.
pub open spec fn prefers_frequent<W: Fn(u64, u16, usize) -> u64>(weigh: W) -> bool {
    forall|inflation: u64, less: u16, more: u16, bytes: usize, low: u64, high: u64|
        less < more && #[trigger] call_ensures(weigh, (inflation, less, bytes), low)
            && #[trigger] call_ensures(weigh, (inflation, more, bytes), high) ==> low < high
}

/// A tensor is not rejected in favour of an entry of its size and of the present
/// inflation that makes way, where the tensor was accessed more often than the entry was
/// weighed with.
pub proof fn popular_tensors_are_not_rejected<W: Fn(u64, u16, usize) -> u64>(
    weigh: W,
    cache: CacheView,
    keys: Seq<Seq<char>>,
    request: AdmissionRequestView,
    rank: u64,
    after: CacheView,
    key: Seq<char>,
    frequency: u16,
)
    requires
        prefers_frequent(weigh),
        weighs(weigh, cache, request, rank),
        keys.len() < 40960,
        cache.sketch == after_accesses(SketchView::empty(4096), keys),
        frequency < accesses_of(keys, request.key),
        share(cache.usage, request.tenant) + cache.arena.allocation(
            request.payload_bytes as nat,
        )->0 <= usize::MAX,
        cache.entries.contains_key(key),
        makes_way(cache, request, cache.entries[key]),
        call_ensures(
            weigh,
            (
                cache.inflation,
                frequency,
                cache.arena.allocation(request.payload_bytes as nat)->0 as usize,
            ),
            cache.entries[key].rank,
        ),
    ensures
        !cache.steps(request, rank, after, AdmissionStep::Finished(Admission::Rejected)),
{
    accessed_tensors_ask_as_often(cache, keys, request.key);
    assert(rank > cache.entries[key].rank);
    lemma_makes_way(cache, request, cache.entries[key]);
    if cache.steps(request, rank, after, AdmissionStep::Finished(Admission::Rejected)) {
        rejection_protects_hotter_entries(cache, request, rank, after);
    }
}

/// Where an admission ends in a rejection, however many entries left before, every entry
/// that could still make way ranks no lower than the tensor does with its accesses at the
/// inflation that was reached.
pub proof fn rejections_are_by_weight<W: Fn(u64, u16, usize) -> u64>(
    weigh: W,
    before: CacheView,
    request: AdmissionRequestView,
    after: CacheView,
    evictions: nat,
) -> (rank: u64)
    requires
        admits(weigh, before, request, after, Admission::Rejected, evictions),
    ensures
        !request.force,
        after.sketch == before.sketch,
        call_ensures(
            weigh,
            (
                after.inflation,
                vstd::math::max(after.sketch.estimate(request.key) as int, 1) as u16,
                after.arena.allocation(request.payload_bytes as nat)->0 as usize,
            ),
            rank,
        ),
        share(after.usage, request.tenant) + after.arena.allocation(
            request.payload_bytes as nat,
        )->0 <= usize::MAX ==> forall|key: Seq<char>| #[trigger]
            after.entries.contains_key(key) && makes_way(after, request, after.entries[key])
                ==> rank <= after.entries[key].rank,
    decreases evictions,
{
    if evictions == 0 {
        let rank = choose|rank: u64| #[trigger]
            weighs(weigh, before, request, rank) && before.steps(
                request,
                rank,
                after,
                AdmissionStep::Finished(Admission::Rejected),
            );
        rejection_protects_hotter_entries(before, request, rank, after);
        if share(after.usage, request.tenant) + after.arena.allocation(
            request.payload_bytes as nat,
        )->0 <= usize::MAX {
            assert forall|key: Seq<char>| #[trigger]
                after.entries.contains_key(key) && makes_way(
                    after,
                    request,
                    after.entries[key],
                ) implies rank <= after.entries[key].rank by {
                lemma_makes_way(before, request, before.entries[key]);
                assert(before.entries.contains_key(key));
            }
        }
        rank
    } else {
        let (rank, next) = choose|rank: u64, next: CacheView|
            weighs(weigh, before, request, rank) && #[trigger] before.steps(
                request,
                rank,
                next,
                AdmissionStep::Evicted,
            ) && admits(weigh, next, request, after, Admission::Rejected, (evictions - 1) as nat);
        rejections_are_by_weight(weigh, next, request, after, (evictions - 1) as nat)
    }
}

/// What leaves is one entry of the least rank among those that make way. What comes later
/// is measured against its rank.
pub proof fn the_least_rank_leaves(
    cache: CacheView,
    request: AdmissionRequestView,
    rank: u64,
    after: CacheView,
) -> (victim: Seq<char>)
    requires
        cache.steps(request, rank, after, AdmissionStep::Evicted),
        share(cache.usage, request.tenant) + cache.arena.allocation(
            request.payload_bytes as nat,
        )->0 <= usize::MAX,
    ensures
        ({
            let entry = cache.entries[victim];
            &&& cache.entries.contains_key(victim)
            &&& after.entries == cache.entries.remove(victim)
            &&& makes_way(cache, request, entry)
            &&& after.inflation as int == vstd::math::max(cache.inflation as int, entry.rank as int)
            &&& after.evictions == (cache.evictions + 1) as u64
            &&& after.admission_rejections == cache.admission_rejections
            &&& !request.force && !request.pinned ==> rank > entry.rank
            &&& forall|other: Seq<char>| #[trigger]
                cache.entries.contains_key(other) && makes_way(
                    cache,
                    request,
                    cache.entries[other],
                ) ==> entry.rank <= cache.entries[other].rank
        }),
{
    let tenant = cache.sake(request);
    let victim = choose|victim: Seq<char>| #[trigger]
        cache.is_victim(tenant, victim) && after == cache.evicted(victim) && ((!request.force
            && !request.pinned) ==> rank > cache.entries[victim].rank);
    lemma_makes_way(cache, request, cache.entries[victim]);
    assert forall|other: Seq<char>| #[trigger]
        cache.entries.contains_key(other) && makes_way(
            cache,
            request,
            cache.entries[other],
        ) implies cache.entries[victim].rank <= cache.entries[other].rank by {
        lemma_makes_way(cache, request, cache.entries[other]);
    }
    victim
}

/// A tensor for which a free run is large enough gets its pages at once where its tenant
/// stays within its limit, or the pinned bytes within theirs: nothing leaves.
pub proof fn free_pages_need_no_victim(
    cache: CacheView,
    request: AdmissionRequestView,
    rank: u64,
    after: CacheView,
    step: AdmissionStep,
)
    requires
        cache.steps(request, rank, after, step),
        cache.arena.allocation(request.payload_bytes as nat) is Some,
        cache.arena.allocation(request.payload_bytes as nat)->0 <= cache.arena.largest_free(),
        cache.arena.largest_free() <= cache.arena.capacity() <= usize::MAX,
        share(cache.usage, request.tenant) + cache.arena.allocation(
            request.payload_bytes as nat,
        )->0 <= usize::MAX,
        request.pinned ==> cache.pinned_bytes + cache.arena.allocation(
            request.payload_bytes as nat,
        )->0 <= cache.pinned_max,
        !request.pinned ==> share(cache.usage, request.tenant) + cache.arena.allocation(
            request.payload_bytes as nat,
        )->0 <= vstd::math::max(
            cache.tenant_max as int,
            share(cache.reservations, request.tenant) as int,
        ),
    ensures
        ({
            let entry = after.entries[request.key];
            &&& step == AdmissionStep::Finished(
                Admission::Admitted {
                    offset: entry.offset,
                    allocated_bytes: entry.allocated_bytes,
                },
            )
            &&& after.entries == cache.entries.insert(request.key, entry)
            &&& entry.allocated_bytes == cache.arena.allocation(request.payload_bytes as nat)->0
            &&& entry.rank == rank
            &&& entry.owner_tenant == request.tenant
            &&& share(after.usage, request.tenant) == share(cache.usage, request.tenant)
                + entry.allocated_bytes
            &&& after.pinned_bytes == cache.pinned_bytes + (if request.pinned {
                entry.allocated_bytes as int
            } else {
                0
            })
            &&& after.evictions == cache.evictions
        }),
{
}

/// A tensor larger than the arena, or a pinned one beyond the pinned budget, is put off
/// and changes nothing.
pub proof fn tensors_that_cannot_fit_are_deferred(
    cache: CacheView,
    request: AdmissionRequestView,
    rank: u64,
    after: CacheView,
    step: AdmissionStep,
)
    requires
        cache.steps(request, rank, after, step),
        cache.arena.capacity() <= usize::MAX,
        cache.pinned_max < usize::MAX,
        cache.arena.allocation(request.payload_bytes as nat) is None || cache.arena.allocation(
            request.payload_bytes as nat,
        )->0 > cache.arena.capacity() || request.pinned && cache.pinned_bytes
            + cache.arena.allocation(request.payload_bytes as nat)->0 > cache.pinned_max,
    ensures
        step == AdmissionStep::Finished(Admission::Deferred),
        after == cache,
{
}

/// A tensor that would fit is put off only where no entry makes way.
pub proof fn deferral_means_no_victim(
    cache: CacheView,
    request: AdmissionRequestView,
    rank: u64,
    after: CacheView,
    key: Seq<char>,
)
    requires
        cache.steps(request, rank, after, AdmissionStep::Finished(Admission::Deferred)),
        cache.arena.allocation(request.payload_bytes as nat) is Some,
        cache.arena.allocation(request.payload_bytes as nat)->0 <= cache.arena.capacity() <= usize::MAX,
        share(cache.usage, request.tenant) + cache.arena.allocation(
            request.payload_bytes as nat,
        )->0 <= usize::MAX,
        request.pinned ==> cache.pinned_bytes + cache.arena.allocation(
            request.payload_bytes as nat,
        )->0 <= cache.pinned_max,
        cache.entries.contains_key(key),
    ensures
        after == cache,
        !makes_way(cache, request, cache.entries[key]),
{
    lemma_makes_way(cache, request, cache.entries[key]);
}

/// A key is a hit exactly where its entry is there and loaded.
pub proof fn hits_are_loaded_entries(cache: CacheView, key: Seq<char>)
    ensures
        cache.visible(key) <==> cache.entries.contains_key(key) && cache.entries[key].ready,
{
}

/// The share of a tenant is what the map has for it, or nothing.
pub proof fn shares_are_looked_up(map: Map<Seq<char>, usize>, tenant: Seq<char>)
    ensures
        map.contains_key(tenant) ==> share(map, tenant) == map[tenant],
        !map.contains_key(tenant) ==> share(map, tenant) == 0,
{
}

/// An entry that leaves gives its bytes back to its tenant, and to no other, and to the
/// pinned bytes where it was pinned.
pub proof fn leaving_relieves_one_tenant(cache: CacheView, key: Seq<char>, tenant: Seq<char>)
    requires
        cache.entries.contains_key(key),
        share(cache.usage, cache.entries[key].owner_tenant) >= cache.entries[key].allocated_bytes,
        cache.entries[key].pinned ==> cache.pinned_bytes >= cache.entries[key].allocated_bytes,
    ensures
        ({
            let entry = cache.entries[key];
            let after = cache.dropped(key);
            &&& share(after.usage, tenant) == share(cache.usage, tenant) - (if tenant
                == entry.owner_tenant {
                entry.allocated_bytes as int
            } else {
                0
            })
            &&& after.pinned_bytes == cache.pinned_bytes - (if entry.pinned {
                entry.allocated_bytes as int
            } else {
                0
            })
            &&& after.entries == cache.entries.remove(key)
        }),
{
}

} // verus!
