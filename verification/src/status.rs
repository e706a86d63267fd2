//! The figures of the devices and the host cache.

use crate::engine::{DeviceState, Engine};
use crate::host_cache::HostCacheStatus;
use vstd::prelude::*;

verus! {

/// The figures of a device.
#[derive(Clone, Copy, Debug, PartialEq, Eq, Structural)]
pub struct DeviceStatus {
    pub slot: usize,
    pub device: i32,
    pub capacity_bytes: usize,
    pub block_bytes: usize,
    pub free_bytes: usize,
    pub largest_free_extent_bytes: usize,
    pub allocated_bytes: usize,
    pub payload_bytes: usize,
    pub internal_waste_bytes: usize,
    pub entries: usize,
    pub pinned_entries: usize,
    pub pinned_bytes: usize,
    pub tenants: usize,
    pub hits: u64,
    pub misses: u64,
    pub evictions: u64,
    pub admission_rejections: u64,
    pub h2d_batches: u64,
    pub h2d_bytes: u64,
}

/// The figures of an engine.
#[derive(Clone, Debug)]
pub struct EngineStatus {
    pub devices: Vec<DeviceStatus>,
    pub host: HostCacheStatus,
    pub batch_read_calls: u64,
    pub batch_read_bytes: u64,
}

/// Whether figures are those of a device.
pub open spec fn is_status(status: DeviceStatus, state: DeviceState, slot: int, device: i32) -> bool {
    let cache = state.cache@;
    &&& status.slot == slot
    &&& status.device == device
    &&& status.capacity_bytes == cache.arena.capacity()
    &&& status.block_bytes == cache.arena.block_bytes
    &&& status.free_bytes == cache.arena.free_bytes()
    &&& status.largest_free_extent_bytes == cache.arena.largest_free()
    &&& status.allocated_bytes == cache.arena.allocated_bytes()
    &&& status.payload_bytes == state.cache.payload_total()
    &&& status.internal_waste_bytes == cache.arena.allocated_bytes() - state.cache.payload_total()
    &&& status.entries == state.cache.entry_number()
    &&& status.pinned_entries == state.cache.pinned_number()
    &&& status.pinned_bytes == cache.pinned_bytes
    &&& status.tenants == state.cache.tenant_number()
    &&& status.hits == cache.hits
    &&& status.misses == cache.misses
    &&& status.evictions == cache.evictions
    &&& status.admission_rejections == cache.admission_rejections
    &&& status.h2d_batches == state.h2d_batches
    &&& status.h2d_bytes == state.h2d_bytes
}

fn device_status(state: &DeviceState, slot: usize, device: i32) -> (status: DeviceStatus)
    requires
        state.cache.wf(),
    ensures
        is_status(status, *state, slot as int, device),
        status.free_bytes + status.allocated_bytes == status.capacity_bytes,
{
    let (hits, misses, evictions, admission_rejections): (u64, u64, u64, u64) = state.cache.counters();
    let allocated_bytes: usize = state.cache.allocated_bytes();
    let payload_bytes: usize = state.cache.payload_bytes();
    DeviceStatus {
        slot,
        device,
        capacity_bytes: state.cache.capacity(),
        block_bytes: state.cache.block_bytes(),
        free_bytes: state.cache.free_bytes(),
        largest_free_extent_bytes: state.cache.largest_free_extent(),
        allocated_bytes,
        payload_bytes,
        internal_waste_bytes: allocated_bytes.saturating_sub(payload_bytes),
        entries: state.cache.entry_count(),
        pinned_entries: state.cache.pinned_entries(),
        pinned_bytes: state.cache.pinned_bytes(),
        tenants: state.cache.tenant_count(),
        hits,
        misses,
        evictions,
        admission_rejections,
        h2d_batches: state.h2d_batches,
        h2d_bytes: state.h2d_bytes,
    }
}

impl Engine {
    /// The figures of the engine, where `ordinals` holds the numbers by which the
    /// machine knows the devices.
    pub fn status_snapshot(&self, ordinals: &[i32]) -> (status: EngineStatus)
        requires
            self.wf(),
            ordinals@.len() == self.devices@.len(),
        ensures
            status.devices@.len() == self.devices@.len(),
            forall|d: int|
                0 <= d < status.devices@.len() ==> is_status(
                    #[trigger] status.devices@[d],
                    self.devices@[d],
                    d,
                    ordinals@[d],
                ) && status.devices@[d].free_bytes + status.devices@[d].allocated_bytes
                    == status.devices@[d].capacity_bytes,
            status.host.capacity_bytes == self.store@.host.maximum_bytes,
            status.host.used_bytes == self.store@.host.current_bytes,
            status.host.entries == self.store.cached_number(),
            status.host.tenants == self.store.tenant_number(),
            status.host.hits == self.store@.host.hits,
            status.host.misses == self.store@.host.misses,
            status.host.evictions == self.store@.host.evictions,
            status.host.admission_rejections == self.store@.host.admission_rejections,
            status.batch_read_calls == self.store@.batch_read_calls,
            status.batch_read_bytes == self.store@.batch_read_bytes,
    {
        let mut devices: Vec<DeviceStatus> = Vec::new();
        let mut d: usize = 0;
        while d < self.devices.len()
            invariant
                d <= self.devices@.len(),
                self.wf(),
                ordinals@.len() == self.devices@.len(),
                devices@.len() == d,
                forall|e: int|
                    0 <= e < d ==> is_status(
                        #[trigger] devices@[e],
                        self.devices@[e],
                        e,
                        ordinals@[e],
                    ) && devices@[e].free_bytes + devices@[e].allocated_bytes
                        == devices@[e].capacity_bytes,
            decreases self.devices@.len() - d,
        {
            assert(self.devices@[d as int].cache.wf());
            devices.push(device_status(&self.devices[d], d, ordinals[d]));
            d += 1;
        }
        let (batch_read_calls, batch_read_bytes): (u64, u64) = self.store.read_status();
        EngineStatus {
            devices,
            host: self.store.host_cache_status(),
            batch_read_calls,
            batch_read_bytes,
        }
    }

    /// Counts an upload of so many bytes to a device.
    pub fn count_upload(&mut self, device: usize, bytes: u64)
        requires
            old(self).wf(),
            device < old(self).devices@.len(),
            old(self).devices@[device as int].h2d_batches < u64::MAX,
            old(self).devices@[device as int].h2d_bytes + bytes <= u64::MAX,
        ensures
            final(self).wf(),
            final(self).store == old(self).store,
            final(self).next_device == old(self).next_device,
            final(self).quantization_registry == old(self).quantization_registry,
            final(self).devices@ == old(self).devices@.update(
                device as int,
                (DeviceState {
                    cache: old(self).devices@[device as int].cache,
                    h2d_batches: (old(self).devices@[device as int].h2d_batches + 1) as u64,
                    h2d_bytes: (old(self).devices@[device as int].h2d_bytes + bytes) as u64,
                }),
            ),
    {
        let ghost before = self.devices@;
        let batches: u64 = self.devices[device].h2d_batches;
        let total: u64 = self.devices[device].h2d_bytes;
        self.devices[device].h2d_batches = batches + 1;
        self.devices[device].h2d_bytes = total + bytes;
        proof {
            assert forall|d: int| 0 <= d < self.devices@.len() implies (
            #[trigger] self.devices@[d]).cache.wf() by {
                assert(before[d].cache.wf());
            }
        }
    }
}

} // verus!
