//! Tensors kept in host memory, so that a device miss need not read a shard.
//!
//! Ranks are as in the device cache: numbers ordered like the floating-point
//! priorities that they stand for, from a function that the caller hands in.

use crate::cache::{capped_sum, difference, lowered, prefers_frequent, share, SKETCH_WIDTH};
use crate::sketch::{
    accesses_are_not_undercounted, accesses_of, after_accesses, nothing_is_counted_at_first, SketchView,
    TinyLfu,
};
use crate::table::{lemma_total_push, lemma_total_update, lemma_total_without, map_total, total, Table};
use std::sync::Arc;
use vstd::prelude::*;

verus! {

/// Calls `Arc::clone`: one more owner of the same value.
#[verifier::external_body]
pub(crate) fn share_payload(payload: &Arc<Vec<u8>>) -> (shared: Arc<Vec<u8>>)
    ensures
        shared == payload,
{
    Arc::clone(payload)
}

/// A tensor in host memory.
pub struct HostEntry {
    pub payload: Arc<Vec<u8>>,
    pub rank: u64,
    pub owner_tenant: String,
}

pub struct HostEntryView {
    pub payload: Seq<u8>,
    pub rank: u64,
    pub owner_tenant: Seq<char>,
}

impl View for HostEntry {
    type V = HostEntryView;

    open spec fn view(&self) -> HostEntryView {
        HostEntryView {
            payload: self.payload@,
            rank: self.rank,
            owner_tenant: self.owner_tenant@,
        }
    }
}

/// The state of a host cache.
pub struct HostView {
    pub maximum_bytes: usize,
    pub current_bytes: usize,
    pub entries: Map<Seq<char>, HostEntryView>,
    pub sketch: SketchView,
    pub inflation: u64,
    pub usage: Map<Seq<char>, usize>,
    pub tenant_max: usize,
    pub hits: u64,
    pub misses: u64,
    pub evictions: u64,
    pub admission_rejections: u64,
}

/// One step towards keeping a tensor.
#[derive(Clone, Copy, Debug, PartialEq, Eq, Structural)]
pub enum KeepStep {
    Kept,
    Refused,
    Evicted,
}

impl HostView {
    /// A cache that holds nothing, with nothing counted.
    pub open spec fn fresh(maximum_bytes: usize, tenant_max_percent: u8) -> HostView {
        HostView {
            maximum_bytes,
            current_bytes: 0,
            entries: Map::empty(),
            sketch: SketchView::empty(SKETCH_WIDTH as nat),
            inflation: 0,
            usage: Map::empty(),
            tenant_max: (maximum_bytes * tenant_max_percent / 100) as usize,
            hits: 0,
            misses: 0,
            evictions: 0,
            admission_rejections: 0,
        }
    }

    /// Whether an entry may leave: any, or one of the given tenant.
    pub open spec fn may_leave(self, entry: HostEntryView, tenant: Option<Seq<char>>) -> bool {
        match tenant {
            Some(tenant) => entry.owner_tenant == tenant,
            None => true,
        }
    }

    /// Whether no entry that may leave has a lower rank.
    pub open spec fn is_victim(self, tenant: Option<Seq<char>>, key: Seq<char>) -> bool {
        &&& self.entries.contains_key(key)
        &&& self.may_leave(self.entries[key], tenant)
        &&& forall|other: Seq<char>| #[trigger]
            self.entries.contains_key(other) && self.may_leave(self.entries[other], tenant)
                ==> self.entries[key].rank <= self.entries[other].rank
    }

    /// The cache without an entry.
    pub open spec fn dropped(self, key: Seq<char>) -> HostView {
        if self.entries.contains_key(key) {
            let entry = self.entries[key];
            HostView {
                current_bytes: difference(self.current_bytes, entry.payload.len() as usize),
                entries: self.entries.remove(key),
                usage: lowered(self.usage, entry.owner_tenant, entry.payload.len() as usize),
                ..self
            }
        } else {
            self
        }
    }

    /// The cache after a victim leaves.
    pub open spec fn evicted(self, key: Seq<char>) -> HostView {
        let rank = self.entries[key].rank;
        HostView {
            inflation: if rank > self.inflation {
                rank
            } else {
                self.inflation
            },
            evictions: (self.evictions + 1) as u64,
            ..self.dropped(key)
        }
    }

    /// The cache with one more tensor.
    pub open spec fn kept(self, tenant: Seq<char>, key: Seq<char>, payload: Seq<u8>, rank: u64) -> HostView {
        HostView {
            current_bytes: (self.current_bytes + payload.len()) as usize,
            usage: self.usage.insert(tenant, (share(self.usage, tenant) + payload.len()) as usize),
            entries: self.entries.insert(
                key,
                HostEntryView { payload, rank, owner_tenant: tenant },
            ),
            ..self
        }
    }

    /// A step that asks a victim to leave. A tensor is refused where the victim's
    /// rank is higher, and for its own tenant's sake also where it is the same.
    pub open spec fn makes_room(
        self,
        tenant: Option<Seq<char>>,
        rank: u64,
        after: HostView,
        step: KeepStep,
    ) -> bool {
        if forall|key: Seq<char>| #[trigger]
            self.entries.contains_key(key) ==> !self.may_leave(self.entries[key], tenant) {
            step == KeepStep::Refused && after == self
        } else {
            exists|key: Seq<char>| #[trigger]
                self.is_victim(tenant, key) && if rank < self.entries[key].rank || (tenant is Some
                    && rank == self.entries[key].rank) {
                    step == KeepStep::Refused && after == (HostView {
                        admission_rejections: (self.admission_rejections + 1) as u64,
                        ..self
                    })
                } else {
                    step == KeepStep::Evicted && after == self.evicted(key)
                }
        }
    }

    /// One step towards keeping a tensor of the given rank.
    pub open spec fn steps(
        self,
        tenant: Seq<char>,
        key: Seq<char>,
        payload: Seq<u8>,
        rank: u64,
        after: HostView,
        step: KeepStep,
    ) -> bool {
        let size = payload.len() as usize;
        if capped_sum(share(self.usage, tenant), size) > self.tenant_max {
            self.makes_room(Some(tenant), rank, after, step)
        } else if self.current_bytes + size > self.maximum_bytes {
            self.makes_room(None, rank, after, step)
        } else {
            step == KeepStep::Kept && after == self.kept(tenant, key, payload, rank)
        }
    }

    /// The bytes of all tensors that a tenant owns.
    pub open spec fn owned(self, tenant: Seq<char>) -> nat {
        map_total(
            self.entries,
            |entry: HostEntryView|
                if entry.owner_tenant == tenant {
                    entry.payload.len()
                } else {
                    0
                },
        )
    }

    /// The bytes of all tensors.
    pub open spec fn held(self) -> nat {
        map_total(self.entries, |entry: HostEntryView| entry.payload.len())
    }

    /// The frequency of a key that asks to be kept: its estimate, at least one.
    pub open spec fn demand(self, key: Seq<char>) -> u16 {
        if self.sketch.estimate(key) == 0 {
            1
        } else {
            self.sketch.estimate(key)
        }
    }
}

/// Whether the function may give `rank` to a tensor that asks to be kept.
pub open spec fn host_weighs<W: Fn(u64, u16, usize) -> u64>(
    weigh: W,
    cache: HostView,
    key: Seq<char>,
    payload: Seq<u8>,
    rank: u64,
) -> bool {
    call_ensures(weigh, (cache.inflation, cache.demand(key), payload.len() as usize), rank)
}

/// Steps, the last of which keeps the tensor or refuses it.
pub open spec fn keeps<W: Fn(u64, u16, usize) -> u64>(
    weigh: W,
    before: HostView,
    tenant: Seq<char>,
    key: Seq<char>,
    payload: Seq<u8>,
    after: HostView,
    evictions: nat,
) -> bool
    decreases evictions,
{
    if evictions == 0 {
        exists|rank: u64| #[trigger]
            host_weighs(weigh, before, key, payload, rank) && (before.steps(
                tenant,
                key,
                payload,
                rank,
                after,
                KeepStep::Kept,
            ) || before.steps(tenant, key, payload, rank, after, KeepStep::Refused))
    } else {
        exists|rank: u64, next: HostView|
            host_weighs(weigh, before, key, payload, rank) && #[trigger] before.steps(
                tenant,
                key,
                payload,
                rank,
                next,
                KeepStep::Evicted,
            ) && keeps(weigh, next, tenant, key, payload, after, (evictions - 1) as nat)
    }
}

/// What it means to offer a tensor to a cache: an older tensor with the same key
/// leaves, and the tensor is kept or refused.
pub open spec fn stores<W: Fn(u64, u16, usize) -> u64>(
    weigh: W,
    before: HostView,
    tenant: Seq<char>,
    key: Seq<char>,
    payload: Seq<u8>,
    after: HostView,
) -> bool {
    if before.maximum_bytes == 0 || payload.len() > before.maximum_bytes {
        after == before
    } else {
        exists|evictions: nat| #[trigger]
            keeps(weigh, before.dropped(key), tenant, key, payload, after, evictions)
    }
}

/// The bytes of an entry.
pub open spec fn host_weight() -> spec_fn(HostEntry) -> nat {
    |entry: HostEntry| entry.payload@.len()
}

/// The bytes of an entry that a tenant owns.
pub open spec fn host_owned(tenant: Seq<char>) -> spec_fn(HostEntry) -> nat {
    |entry: HostEntry|
        if entry.owner_tenant@ == tenant {
            entry.payload@.len()
        } else {
            0
        }
}

/// The tensors in host memory.
pub struct HostCache {
    maximum_bytes: usize,
    current_bytes: usize,
    entries: Table<HostEntry>,
    sketch: TinyLfu,
    inflation: u64,
    tenant_bytes: Table<usize>,
    default_tenant_max_bytes: usize,
    hits: u64,
    misses: u64,
    evictions: u64,
    admission_rejections: u64,
}

impl View for HostCache {
    type V = HostView;

    closed spec fn view(&self) -> HostView {
        HostView {
            maximum_bytes: self.maximum_bytes,
            current_bytes: self.current_bytes,
            entries: Map::new(
                |key: Seq<char>| self.entries@.contains_key(key),
                |key: Seq<char>| self.entries@[key]@,
            ),
            sketch: self.sketch@,
            inflation: self.inflation,
            usage: self.tenant_bytes@,
            tenant_max: self.default_tenant_max_bytes,
            hits: self.hits,
            misses: self.misses,
            evictions: self.evictions,
            admission_rejections: self.admission_rejections,
        }
    }
}

/// The figures of a host cache.
#[derive(Clone, Copy, Debug, PartialEq, Eq, Structural)]
pub struct HostCacheStatus {
    pub capacity_bytes: usize,
    pub used_bytes: usize,
    pub entries: usize,
    pub tenants: usize,
    pub hits: u64,
    pub misses: u64,
    pub evictions: u64,
    pub admission_rejections: u64,
}

impl HostCache {
    /// The number of tenants that own an entry.
    pub closed spec fn tenant_number(&self) -> nat {
        self.tenant_bytes.slots().len()
    }

    /// The figures of the cache.
    pub fn status(&self) -> (status: HostCacheStatus)
        ensures
            status.capacity_bytes == self@.maximum_bytes,
            status.used_bytes == self@.current_bytes,
            status.entries == self.entry_number(),
            status.tenants == self.tenant_number(),
            status.hits == self@.hits,
            status.misses == self@.misses,
            status.evictions == self@.evictions,
            status.admission_rejections == self@.admission_rejections,
    {
        HostCacheStatus {
            capacity_bytes: self.maximum_bytes,
            used_bytes: self.current_bytes,
            entries: self.entries.len(),
            tenants: self.tenant_bytes.len(),
            hits: self.hits,
            misses: self.misses,
            evictions: self.evictions,
            admission_rejections: self.admission_rejections,
        }
    }

    /// The bytes of the entries that a tenant owns.
    pub closed spec fn owned_bytes(&self, tenant: Seq<char>) -> nat {
        total(self.entries.slots(), host_owned(tenant))
    }

    /// The number of entries.
    pub closed spec fn entry_number(&self) -> nat {
        self.entries.slots().len()
    }

    /// The bytes are counted, for all entries and for each tenant, and stay
    /// within the limit.
    pub closed spec fn wf(&self) -> bool {
        &&& self.sketch@.wf()
        &&& self.entries.wf()
        &&& self.tenant_bytes.wf()
        &&& self.current_bytes == total(self.entries.slots(), host_weight())
        &&& self.current_bytes <= self.maximum_bytes
        &&& forall|tenant: Seq<char>| #[trigger]
            self.owned_bytes(tenant) == share(self.tenant_bytes@, tenant)
    }

    /// What the state of a well-formed cache satisfies.
    pub proof fn lemma_view(&self)
        requires
            self.wf(),
        ensures
            self@.sketch.wf(),
            self@.current_bytes <= self@.maximum_bytes,
            forall|tenant: Seq<char>| #[trigger]
                share(self@.usage, tenant) <= self@.current_bytes,
    {
        assert forall|tenant: Seq<char>| #[trigger] share(self@.usage, tenant) <= self@.current_bytes by {
            assert(self.owned_bytes(tenant) == share(self.tenant_bytes@, tenant));
            lemma_owned_within(self.entries.slots(), tenant);
        }
    }

    /// What a well-formed cache keeps account of: its bytes are those of its tensors,
    /// and a tenant is charged exactly for its own.
    pub proof fn lemma_account(&self, tenant: Seq<char>)
        requires
            self.wf(),
        ensures
            self@.entries.dom().finite(),
            self.entry_number() == self@.entries.dom().len(),
            self@.owned(tenant) == share(self@.usage, tenant),
            self@.held() == self@.current_bytes,
    {
        let entries = self@.entries;
        assert(entries.dom() =~= self.entries@.dom());
        self.entries.lemma_total(
            entries,
            host_owned(tenant),
            |entry: HostEntryView|
                if entry.owner_tenant == tenant {
                    entry.payload.len()
                } else {
                    0
                },
        );
        self.entries.lemma_total(
            entries,
            host_weight(),
            |entry: HostEntryView| entry.payload.len(),
        );
        assert(self.owned_bytes(tenant) == share(self.tenant_bytes@, tenant));
    }

    /// A cache of at most `maximum_bytes` bytes, in which a tenant may use
    /// `tenant_max_percent` of them.
    pub fn new(maximum_bytes: usize, tenant_max_percent: u8) -> (cache: Self)
        requires
            maximum_bytes * tenant_max_percent <= usize::MAX,
        ensures
            cache.wf(),
            cache.entry_number() == 0,
            cache.tenant_number() == 0,
            cache@ == HostView::fresh(maximum_bytes, tenant_max_percent),
    {
        let cache = HostCache {
            maximum_bytes,
            current_bytes: 0,
            entries: Table::new(),
            sketch: TinyLfu::new(SKETCH_WIDTH),
            inflation: 0,
            tenant_bytes: Table::new(),
            default_tenant_max_bytes: maximum_bytes * (tenant_max_percent as usize) / 100,
            hits: 0,
            misses: 0,
            evictions: 0,
            admission_rejections: 0,
        };
        assert(cache@.entries =~= Map::<Seq<char>, HostEntryView>::empty());
        cache
    }

    /// An entry whose payload and owner stay the same changes no account.
    proof fn lemma_same_account(before: &HostCache, after: &HostCache, slot: int)
        requires
            before.wf(),
            0 <= slot < before.entries.slots().len(),
            after.entries.wf(),
            after.entries.slots() == before.entries.slots().update(slot, after.entries.slots()[slot]),
            after.entries.slots()[slot].payload@ == before.entries.slots()[slot].payload@,
            after.entries.slots()[slot].owner_tenant@ == before.entries.slots()[slot].owner_tenant@,
            after.sketch@.wf(),
            after.tenant_bytes == before.tenant_bytes,
            after.current_bytes == before.current_bytes,
            after.maximum_bytes == before.maximum_bytes,
        ensures
            after.wf(),
    {
        let slots = before.entries.slots();
        let entry = after.entries.slots()[slot];
        lemma_total_update(slots, slot, entry, host_weight());
        assert forall|tenant: Seq<char>| #[trigger] after.owned_bytes(tenant) == share(
            after.tenant_bytes@,
            tenant,
        ) by {
            lemma_total_update(slots, slot, entry, host_owned(tenant));
            assert(before.owned_bytes(tenant) == share(before.tenant_bytes@, tenant));
        }
    }

    /// Where no entry changes, no account does.
    proof fn lemma_kept_account(&self, after: &HostCache)
        requires
            self.wf(),
            after.entries == self.entries,
            after.sketch@.wf(),
            after.tenant_bytes == self.tenant_bytes,
            after.current_bytes == self.current_bytes,
            after.maximum_bytes == self.maximum_bytes,
        ensures
            after.wf(),
    {
        assert forall|tenant: Seq<char>| #[trigger] after.owned_bytes(tenant) == share(
            after.tenant_bytes@,
            tenant,
        ) by {
            assert(self.owned_bytes(tenant) == share(self.tenant_bytes@, tenant));
        }
    }

    /// Looks a tensor up and counts the access.
    pub fn get<W: Fn(u64, u16, usize) -> u64>(&mut self, key: &str, weigh: &W) -> (result: Option<
        Arc<Vec<u8>>,
    >)
        requires
            old(self).wf(),
            old(self)@.hits < u64::MAX,
            old(self)@.misses < u64::MAX,
            forall|inflation: u64, frequency: u16, bytes: usize|
                call_requires(*weigh, (inflation, frequency, bytes)),
        ensures
            final(self).wf(),
            final(self).entry_number() == old(self).entry_number(),
            match result {
                None => !old(self)@.entries.contains_key(key@) && final(self)@ == (HostView {
                    sketch: old(self)@.sketch.counted(key@),
                    misses: (old(self)@.misses + 1) as u64,
                    ..old(self)@
                }),
                Some(payload) => {
                    let before = old(self)@.entries[key@];
                    let rank = final(self)@.entries[key@].rank;
                    &&& old(self)@.entries.contains_key(key@)
                    &&& payload@ == before.payload
                    &&& call_ensures(
                        *weigh,
                        (
                            old(self)@.inflation,
                            old(self)@.sketch.frequency(key@),
                            before.payload.len() as usize,
                        ),
                        rank,
                    )
                    &&& final(self)@ == (HostView {
                        sketch: old(self)@.sketch.counted(key@),
                        entries: old(self)@.entries.insert(key@, HostEntryView { rank, ..before }),
                        hits: (old(self)@.hits + 1) as u64,
                        ..old(self)@
                    })
                },
            },
    {
        let ghost before = *self;
        let frequency: u16 = self.sketch.increment(key);
        let slot: usize = match self.entries.find(key) {
            Some(slot) => slot,
            None => {
                self.misses = self.misses + 1;
                proof {
                    before.lemma_kept_account(&*self);
                    assert(self@.entries =~= before@.entries);
                }
                return None;
            },
        };
        let entry: &HostEntry = self.entries.value(slot);
        let rank: u64 = weigh(self.inflation, frequency, entry.payload.len());
        let payload: Arc<Vec<u8>> = share_payload(&entry.payload);
        let changed = HostEntry {
            payload: share_payload(&entry.payload),
            rank,
            owner_tenant: entry.owner_tenant.clone(),
        };
        let ghost view = changed@;
        proof {
            self.entries.lemma_slots();
        }
        self.entries.set(slot, changed);
        self.hits = self.hits + 1;
        proof {
            Self::lemma_same_account(&before, &*self, slot as int);
            assert(self@.entries =~= before@.entries.insert(key@, view));
        }
        Some(payload)
    }

    /// Takes a tensor out.
    fn remove(&mut self, key: &str) -> (result: Option<HostEntry>)
        requires
            old(self).wf(),
        ensures
            final(self).wf(),
            final(self)@ == old(self)@.dropped(key@),
            match result {
                Some(entry) => old(self)@.entries.contains_key(key@) && entry@
                    == old(self)@.entries[key@] && final(self).entry_number() + 1
                    == old(self).entry_number(),
                None => !old(self)@.entries.contains_key(key@) && final(self).entry_number()
                    == old(self).entry_number(),
            },
    {
        let ghost before = *self;
        proof {
            self.entries.lemma_slots();
            self.tenant_bytes.lemma_slots();
        }
        let entry: HostEntry = match self.entries.remove(key) {
            Some(entry) => entry,
            None => {
                proof {
                    assert(self@.entries =~= before@.entries);
                    assert forall|tenant: Seq<char>| #[trigger] self.owned_bytes(tenant) == share(
                        self.tenant_bytes@,
                        tenant,
                    ) by {
                        assert(before.owned_bytes(tenant) == share(before.tenant_bytes@, tenant));
                    }
                }
                return None;
            },
        };
        let ghost slot = before.entries.slot_of(key@);
        let ghost slots = before.entries.slots();
        let size: usize = entry.payload.len();
        proof {
            lemma_total_without(slots, slot, host_weight());
        }
        self.current_bytes = self.current_bytes.saturating_sub(size);
        let tenant: &str = entry.owner_tenant.as_str();
        match self.tenant_bytes.find(tenant) {
            None => {},
            Some(place) => {
                let left: usize = (*self.tenant_bytes.value(place)).saturating_sub(size);
                if left == 0 {
                    self.tenant_bytes.remove(tenant);
                } else {
                    self.tenant_bytes.set(place, left);
                }
            },
        }
        proof {
            let owner = entry.owner_tenant@;
            assert(self.tenant_bytes@ =~= lowered(before.tenant_bytes@, owner, size));
            lemma_total_without(slots, slot, host_owned(owner));
            assert(before.owned_bytes(owner) == share(before.tenant_bytes@, owner));
            assert forall|tenant: Seq<char>| #[trigger] self.owned_bytes(tenant) == share(
                self.tenant_bytes@,
                tenant,
            ) by {
                lemma_total_without(slots, slot, host_owned(tenant));
                assert(before.owned_bytes(tenant) == share(before.tenant_bytes@, tenant));
            }
            assert(self@.entries =~= before@.entries.remove(key@));
        }
        Some(entry)
    }

    /// Finds an entry that may leave and has the lowest rank of those.
    fn victim(&self, tenant: Option<&str>) -> (result: Option<usize>)
        requires
            self.wf(),
        ensures
            ({
                let sake: Option<Seq<char>> = match tenant {
                    Some(tenant) => Some(tenant@),
                    None => None,
                };
                match result {
                    Some(slot) => slot < self.entries.slots().len() && self@.is_victim(
                        sake,
                        self.entries.names()[slot as int],
                    ),
                    None => forall|key: Seq<char>| #[trigger]
                        self@.entries.contains_key(key) ==> !self@.may_leave(
                            self@.entries[key],
                            sake,
                        ),
                }
            }),
    {
        let ghost sake: Option<Seq<char>> = match tenant {
            Some(tenant) => Some(tenant@),
            None => None,
        };
        let mut found: Option<usize> = None;
        let mut i: usize = 0;
        while i < self.entries.len()
            invariant
                self.wf(),
                i <= self.entries.slots().len(),
                sake == match tenant {
                    Some(tenant) => Some(tenant@),
                    None => None,
                },
                match found {
                    Some(slot) => {
                        &&& slot < i
                        &&& self@.may_leave(self.entries.slots()[slot as int]@, sake)
                        &&& forall|j: int|
                            0 <= j < i && self@.may_leave(
                                (#[trigger] self.entries.slots()[j])@,
                                sake,
                            ) ==> self.entries.slots()[slot as int].rank <= self.entries.slots()[j].rank
                    },
                    None => forall|j: int|
                        0 <= j < i ==> !self@.may_leave((#[trigger] self.entries.slots()[j])@, sake),
                },
            decreases self.entries.slots().len() - i,
        {
            let entry: &HostEntry = self.entries.value(i);
            let eligible: bool = match tenant {
                Some(tenant) => crate::text::same_text(entry.owner_tenant.as_str(), tenant),
                None => true,
            };
            if eligible {
                let better: bool = match found {
                    Some(slot) => entry.rank < self.entries.value(slot).rank,
                    None => true,
                };
                if better {
                    found = Some(i);
                }
            }
            i += 1;
        }
        proof {
            self.entries.lemma_slots();
            match found {
                Some(slot) => {
                    let key = self.entries.names()[slot as int];
                    assert(self.entries@.contains_key(key));
                    assert forall|other: Seq<char>| #[trigger]
                        self@.entries.contains_key(other) && self@.may_leave(
                            self@.entries[other],
                            sake,
                        ) implies self@.entries[key].rank <= self@.entries[other].rank by {
                        assert(self.entries@.contains_key(other));
                        let j = self.entries.slot_of(other);
                        assert(self.entries.slots()[j]@ == self@.entries[other]);
                    }
                },
                None => {
                    assert forall|key: Seq<char>| #[trigger] self@.entries.contains_key(key) implies
                        !self@.may_leave(self@.entries[key], sake) by {
                        assert(self.entries@.contains_key(key));
                        let j = self.entries.slot_of(key);
                        assert(self.entries.slots()[j]@ == self@.entries[key]);
                    }
                },
            }
        }
        found
    }

    /// Asks a victim to leave.
    fn make_room(&mut self, tenant: Option<&str>, rank: u64) -> (step: KeepStep)
        requires
            old(self).wf(),
            old(self)@.evictions < u64::MAX,
            old(self)@.admission_rejections < u64::MAX,
        ensures
            final(self).wf(),
            old(self)@.makes_room(
                match tenant {
                    Some(tenant) => Some(tenant@),
                    None => None,
                },
                rank,
                final(self)@,
                step,
            ),
            step != KeepStep::Kept,
            step == KeepStep::Evicted ==> final(self).entry_number() + 1
                == old(self).entry_number(),
            step == KeepStep::Refused ==> final(self).entry_number() == old(self).entry_number(),
    {
        let ghost sake: Option<Seq<char>> = match tenant {
            Some(tenant) => Some(tenant@),
            None => None,
        };
        let slot: usize = match self.victim(tenant) {
            Some(slot) => slot,
            None => {
                return KeepStep::Refused;
            },
        };
        let key: String = self.entries.key(slot).clone();
        let lowest: u64 = self.entries.value(slot).rank;
        proof {
            self.entries.lemma_slots();
            assert(self.entries@.contains_key(key@));
            assert(self@.is_victim(sake, key@));
            assert(self@.entries.contains_key(key@));
        }
        if rank < lowest || (tenant.is_some() && rank == lowest) {
            let ghost before = *self;
            self.admission_rejections = self.admission_rejections + 1;
            proof {
                before.lemma_kept_account(&*self);
                assert(self@.entries =~= before@.entries);
            }
            return KeepStep::Refused;
        }
        self.remove(key.as_str());
        let ghost middle = *self;
        if lowest > self.inflation {
            self.inflation = lowest;
        }
        self.evictions = self.evictions + 1;
        proof {
            middle.lemma_kept_account(&*self);
            assert(self@.entries =~= middle@.entries);
        }
        KeepStep::Evicted
    }

    /// One step towards keeping a tensor of the given rank.
    fn keep_step(&mut self, tenant: &str, key: &String, payload: &Arc<Vec<u8>>, rank: u64) -> (step:
        KeepStep)
        requires
            old(self).wf(),
            !old(self)@.entries.contains_key(key@),
            payload@.len() <= old(self)@.maximum_bytes,
            old(self)@.evictions < u64::MAX,
            old(self)@.admission_rejections < u64::MAX,
        ensures
            final(self).wf(),
            old(self)@.steps(tenant@, key@, payload@, rank, final(self)@, step),
            step == KeepStep::Evicted ==> final(self).entry_number() + 1
                == old(self).entry_number(),
            step == KeepStep::Refused ==> final(self).entry_number() == old(self).entry_number(),
            step == KeepStep::Kept ==> final(self).entry_number() == old(self).entry_number() + 1,
    {
        let size: usize = payload.len();
        let usage: usize = match self.tenant_bytes.get(tenant) {
            Some(bytes) => *bytes,
            None => 0,
        };
        if usage.saturating_add(size) > self.default_tenant_max_bytes {
            return self.make_room(Some(tenant), rank);
        }
        if size > self.maximum_bytes - self.current_bytes {
            return self.make_room(None, rank);
        }
        let ghost before = *self;
        proof {
            self.lemma_view();
            self.entries.lemma_slots();
            self.tenant_bytes.lemma_slots();
            assert(share(self@.usage, tenant@) <= self@.current_bytes);
        }
        let entry = HostEntry {
            payload: share_payload(payload),
            rank,
            owner_tenant: tenant.to_owned(),
        };
        let ghost placed = entry;
        self.current_bytes = self.current_bytes + size;
        self.tenant_bytes.insert(tenant.to_owned(), usage + size);
        self.entries.insert(key.clone(), entry);
        proof {
            let slots = before.entries.slots();
            lemma_total_push(slots, placed, host_weight());
            assert forall|other: Seq<char>| #[trigger] self.owned_bytes(other) == share(
                self.tenant_bytes@,
                other,
            ) by {
                lemma_total_push(slots, placed, host_owned(other));
                assert(before.owned_bytes(other) == share(before.tenant_bytes@, other));
            }
            assert(self@.entries =~= before@.entries.insert(key@, placed@));
        }
        KeepStep::Kept
    }

    /// Keeps a tensor, if it is worth it: entries leave, the lowest rank first,
    /// while the tenant or the cache is above its limit.
    pub fn put<W: Fn(u64, u16, usize) -> u64>(
        &mut self,
        tenant: &str,
        key: String,
        payload: Arc<Vec<u8>>,
        weigh: &W,
    )
        requires
            old(self).wf(),
            old(self)@.evictions + old(self).entry_number() < u64::MAX,
            old(self)@.admission_rejections < u64::MAX,
            forall|inflation: u64, frequency: u16, bytes: usize|
                call_requires(*weigh, (inflation, frequency, bytes)),
        ensures
            final(self).wf(),
            stores(*weigh, old(self)@, tenant@, key@, payload@, final(self)@),
            final(self)@.evictions + final(self).entry_number() <= old(self)@.evictions + old(
                self,
            ).entry_number() + 1,
            final(self)@.admission_rejections <= old(self)@.admission_rejections + 1,
            final(self)@.hits == old(self)@.hits,
            final(self)@.misses == old(self)@.misses,
    {
        if self.maximum_bytes == 0 || payload.len() > self.maximum_bytes {
            return;
        }
        self.remove(key.as_str());
        let ghost start = self@;
        let ghost mut done: nat = 0;
        loop
            invariant
                self.wf(),
                start == old(self)@.dropped(key@),
                !self@.entries.contains_key(key@),
                payload@.len() <= self@.maximum_bytes,
                self@.evictions + self.entry_number() < u64::MAX,
                self@.evictions + self.entry_number() <= old(self)@.evictions + old(
                    self,
                ).entry_number(),
                self@.admission_rejections < u64::MAX,
                self@.admission_rejections == old(self)@.admission_rejections,
                self@.hits == old(self)@.hits,
                self@.misses == old(self)@.misses,
                !(old(self)@.maximum_bytes == 0 || payload@.len() > old(self)@.maximum_bytes),
                forall|inflation: u64, frequency: u16, bytes: usize|
                    call_requires(*weigh, (inflation, frequency, bytes)),
                forall|after: HostView, evictions: nat| #[trigger]
                    keeps(*weigh, self@, tenant@, key@, payload@, after, evictions) ==> keeps(
                        *weigh,
                        start,
                        tenant@,
                        key@,
                        payload@,
                        after,
                        evictions + done,
                    ),
            decreases self.entry_number(),
        {
            let ghost before = self@;
            let estimate: u16 = self.sketch.estimate(key.as_str());
            let frequency: u16 = if estimate == 0 {
                1
            } else {
                estimate
            };
            let rank: u64 = weigh(self.inflation, frequency, payload.len());
            assert(host_weighs(*weigh, before, key@, payload@, rank));
            let step: KeepStep = self.keep_step(tenant, &key, &payload, rank);
            match step {
                KeepStep::Evicted => {
                    proof {
                        let next = self@;
                        assert(before.steps(tenant@, key@, payload@, rank, next, KeepStep::Evicted));
                        assert forall|after: HostView, evictions: nat| #[trigger]
                            keeps(*weigh, next, tenant@, key@, payload@, after, evictions) implies keeps(
                            *weigh,
                            start,
                            tenant@,
                            key@,
                            payload@,
                            after,
                            evictions + (done + 1),
                        ) by {
                            assert(keeps(
                                *weigh,
                                before,
                                tenant@,
                                key@,
                                payload@,
                                after,
                                evictions + 1,
                            ));
                        }
                        done = done + 1;
                    }
                },
                _ => {
                    proof {
                        assert(keeps(*weigh, before, tenant@, key@, payload@, self@, 0));
                        assert(keeps(*weigh, start, tenant@, key@, payload@, self@, 0 + done));
                    }
                    return;
                },
            }
        }
    }
}

/// What a tenant owns is part of all entries.
proof fn lemma_owned_within(slots: Seq<HostEntry>, tenant: Seq<char>)
    ensures
        total(slots, host_owned(tenant)) <= total(slots, host_weight()),
    decreases slots.len(),
{
    if slots.len() > 0 {
        lemma_owned_within(slots.drop_last(), tenant);
    }
}

/// What is kept is found: the next lookup of the key gives the same bytes.
pub proof fn kept_is_found(
    cache: HostView,
    tenant: Seq<char>,
    key: Seq<char>,
    payload: Seq<u8>,
    rank: u64,
    after: HostView,
)
    requires
        cache.steps(tenant, key, payload, rank, after, KeepStep::Kept),
    ensures
        after.entries.contains_key(key),
        after.entries[key].payload == payload,
        forall|other: Seq<char>|
            other != key && cache.entries.contains_key(other) ==> after.entries.contains_key(other)
                && #[trigger] after.entries[other] == cache.entries[other],
{
}

/// After `n` accesses of a key, with none of them halved yet, it asks to be kept with a
/// frequency of at least `n`, up to the largest counter.
pub proof fn accessed_tensors_ask_as_often(cache: HostView, keys: Seq<Seq<char>>, key: Seq<char>)
    requires
        keys.len() < 40960,
        cache.sketch == after_accesses(SketchView::empty(4096), keys),
    ensures
        cache.demand(key) >= vstd::math::min(accesses_of(keys, key) as int, 0xffff),
        cache.demand(key) >= 1,
        cache.demand(key) as int == vstd::math::max(cache.sketch.estimate(key) as int, 1),
{
    nothing_is_counted_at_first(4096, key);
    accesses_are_not_undercounted(SketchView::empty(4096), keys, key);
}

/// Whether a tensor would take its tenant above its limit.
pub open spec fn is_over_limit(cache: HostView, tenant: Seq<char>, size: int) -> bool {
    share(cache.usage, tenant) + size > cache.tenant_max
}

/// A tensor is not refused in favour of an entry of its size and of the present inflation
/// where it was accessed more often than the entry was weighed with: an entry of its own
/// tenant where that would go above its limit, or any.
pub proof fn popular_tensors_are_not_refused<W: Fn(u64, u16, usize) -> u64>(
    weigh: W,
    cache: HostView,
    keys: Seq<Seq<char>>,
    tenant: Seq<char>,
    key: Seq<char>,
    payload: Seq<u8>,
    rank: u64,
    after: HostView,
    held: Seq<char>,
    frequency: u16,
)
    requires
        prefers_frequent(weigh),
        host_weighs(weigh, cache, key, payload, rank),
        keys.len() < 40960,
        cache.sketch == after_accesses(SketchView::empty(4096), keys),
        frequency < accesses_of(keys, key),
        share(cache.usage, tenant) + payload.len() <= usize::MAX,
        cache.entries.contains_key(held),
        is_over_limit(cache, tenant, payload.len() as int) ==> cache.entries[held].owner_tenant
            == tenant,
        call_ensures(
            weigh,
            (cache.inflation, frequency, payload.len() as usize),
            cache.entries[held].rank,
        ),
    ensures
        !cache.steps(tenant, key, payload, rank, after, KeepStep::Refused),
{
    accessed_tensors_ask_as_often(cache, keys, key);
    assert(rank > cache.entries[held].rank);
    if cache.steps(tenant, key, payload, rank, after, KeepStep::Refused) {
        let sake = if is_over_limit(cache, tenant, payload.len() as int) {
            Some(tenant)
        } else {
            None
        };
        assert(cache.may_leave(cache.entries[held], sake));
        let victim = choose|victim: Seq<char>| #[trigger]
            cache.is_victim(sake, victim) && (rank < cache.entries[victim].rank || (sake is Some
                && rank == cache.entries[victim].rank));
        assert(cache.entries[victim].rank <= cache.entries[held].rank);
    }
}

/// What leaves is one entry of the least rank: of the tenant's own where it would go above
/// its limit, or of all. It ranks no higher than the tensor that comes.
pub proof fn the_least_rank_leaves(
    cache: HostView,
    tenant: Seq<char>,
    key: Seq<char>,
    payload: Seq<u8>,
    rank: u64,
    after: HostView,
) -> (victim: Seq<char>)
    requires
        cache.steps(tenant, key, payload, rank, after, KeepStep::Evicted),
        share(cache.usage, tenant) + payload.len() <= usize::MAX,
    ensures
        ({
            let over = is_over_limit(cache, tenant, payload.len() as int);
            let entry = cache.entries[victim];
            &&& cache.entries.contains_key(victim)
            &&& after.entries == cache.entries.remove(victim)
            &&& over ==> entry.owner_tenant == tenant && entry.rank < rank
            &&& entry.rank <= rank
            &&& after.inflation as int == vstd::math::max(cache.inflation as int, entry.rank as int)
            &&& forall|other: Seq<char>| #[trigger]
                cache.entries.contains_key(other) && (over ==> cache.entries[other].owner_tenant
                    == tenant) ==> entry.rank <= cache.entries[other].rank
        }),
{
    let sake = if is_over_limit(cache, tenant, payload.len() as int) {
        Some(tenant)
    } else {
        None
    };
    let victim = choose|victim: Seq<char>| #[trigger]
        cache.is_victim(sake, victim) && !(rank < cache.entries[victim].rank || (sake is Some && rank
            == cache.entries[victim].rank)) && after == cache.evicted(victim);
    assert forall|other: Seq<char>| #[trigger]
        cache.entries.contains_key(other) && (is_over_limit(cache, tenant, payload.len() as int)
            ==> cache.entries[other].owner_tenant == tenant) implies cache.entries[victim].rank
        <= cache.entries[other].rank by {
        assert(cache.may_leave(cache.entries[other], sake));
    }
    victim
}

/// A tensor is kept at once exactly where its tenant and the cache stay within their
/// limits with it; both are charged with its bytes, and nothing leaves.
pub proof fn tensors_within_the_limits_are_kept(
    cache: HostView,
    tenant: Seq<char>,
    key: Seq<char>,
    payload: Seq<u8>,
    rank: u64,
    after: HostView,
    step: KeepStep,
)
    requires
        cache.steps(tenant, key, payload, rank, after, step),
        share(cache.usage, tenant) + payload.len() <= usize::MAX,
    ensures
        step == KeepStep::Kept <==> share(cache.usage, tenant) + payload.len() <= cache.tenant_max
            && cache.current_bytes + payload.len() <= cache.maximum_bytes,
        step == KeepStep::Kept ==> {
            &&& after.current_bytes == cache.current_bytes + payload.len()
            &&& share(after.usage, tenant) == share(cache.usage, tenant) + payload.len()
            &&& after.entries == cache.entries.insert(
                key,
                HostEntryView { payload, rank, owner_tenant: tenant },
            )
            &&& after.evictions == cache.evictions
        },
{
}

/// A tensor larger than the cache is not kept, and an empty cache keeps nothing.
pub proof fn oversized_tensors_change_nothing<W: Fn(u64, u16, usize) -> u64>(
    weigh: W,
    before: HostView,
    tenant: Seq<char>,
    key: Seq<char>,
    payload: Seq<u8>,
    after: HostView,
)
    requires
        stores(weigh, before, tenant, key, payload, after),
        before.maximum_bytes == 0 || payload.len() > before.maximum_bytes,
    ensures
        after == before,
{
}

} // verus!
