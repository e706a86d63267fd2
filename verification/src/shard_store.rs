//! The shards of all model contracts, behind a cache in host memory.
//!
//! To resolve tensors, plan the reads, read the ranges of each group, cut the
//! tensors out of them, and hand them back group by group.

use crate::digest::{sha256, sha256_digest};
use crate::host_cache::{host_weighs, keeps, share_payload, stores, HostCache, HostCacheStatus, HostEntryView, HostView, KeepStep};
use crate::protocol::{Descriptor, DescriptorView};
use crate::reads::{
    authentic, cut_out, digest_matches, ends_within, in_file_order, range_views, ranges_cover_the_tensors,
    ranges_of, read_items, read_ranges, sort_reads, RangeView, ReadItem, ReadRange,
};
use crate::shard::{
    cache_key, colon_free, keys_tell_tensors_apart, key_text, tensor_bytes, tensor_size,
    ContractStore, ContractView, Entry, EntryPlace, ShardError, ShardFile, ShardFileView, StoreError,
    StoreErrorView,
};
use crate::sketch::SketchView;
use crate::table::Table;
use crate::text::same_text;
use std::sync::Arc;
use vstd::prelude::*;
use vstd::string::StrSliceExecFns;

verus! {

/// The state of a store.
pub struct StoreView {
    pub contracts: Map<Seq<char>, ContractView>,
    pub roots: Seq<(Seq<char>, Seq<char>)>,
    pub host: HostView,
    pub batch_read_calls: u64,
    pub batch_read_bytes: u64,
    pub verify_full_shards: bool,
}

/// The contracts of a table.
pub open spec fn contract_views(table: Map<Seq<char>, ContractStore>) -> Map<Seq<char>, ContractView> {
    Map::new(|name: Seq<char>| table.contains_key(name), |name: Seq<char>| table[name]@)
}

/// What reading an index gave.
pub open spec fn index_view(index: Result<ContractStore, StoreError>) -> Result<
    ContractView,
    StoreErrorView,
> {
    match index {
        Ok(contract) => Ok(contract@),
        Err(error) => Err(error@),
    }
}

/// The contracts and their directories.
pub open spec fn root_views(roots: Seq<(String, String)>) -> Seq<(Seq<char>, Seq<char>)> {
    Seq::new(roots.len(), |i: int| (roots[i].0@, roots[i].1@))
}

/// The contracts after the first `count` directories.
pub open spec fn contracts_of(
    roots: Seq<(Seq<char>, Seq<char>)>,
    indexes: Seq<Result<ContractStore, StoreError>>,
    count: int,
) -> Result<Map<Seq<char>, ContractView>, StoreErrorView>
    decreases count,
{
    if count <= 0 {
        Ok(Map::empty())
    } else {
        match contracts_of(roots, indexes, count - 1) {
            Err(error) => Err(error),
            Ok(before) => {
                let name = roots[count - 1].0;
                if name.len() == 0 || before.contains_key(name) {
                    Err(StoreErrorView::InvalidContract(name))
                } else {
                    match index_view(indexes[count - 1]) {
                        Err(error) => Err(error),
                        Ok(contract) => Ok(before.insert(name, contract)),
                    }
                }
            },
        }
    }
}

/// A fault of the first directories is the fault of all of them.
proof fn lemma_contracts_stop(
    roots: Seq<(Seq<char>, Seq<char>)>,
    indexes: Seq<Result<ContractStore, StoreError>>,
    count: int,
    all: int,
)
    requires
        0 <= count <= all,
    ensures
        contracts_of(roots, indexes, count) is Err ==> contracts_of(roots, indexes, all)
            == contracts_of(roots, indexes, count),
    decreases all,
{
    if count < all {
        lemma_contracts_stop(roots, indexes, count, all - 1);
    }
}

/// Where the tensor of a descriptor lies, or why it cannot be read.
pub open spec fn located(
    contracts: Map<Seq<char>, ContractView>,
    descriptor: DescriptorView,
) -> Result<EntryPlace, ShardError> {
    if !contracts.contains_key(descriptor.contract) {
        Err(ShardError::UnknownContract)
    } else if !contracts[descriptor.contract].entries.contains_key(descriptor.digest) {
        Err(ShardError::MissingTensor)
    } else {
        let entry = contracts[descriptor.contract].entries[descriptor.digest];
        if entry.rows != descriptor.rows || entry.dimension != descriptor.dimension || entry.dtype
            != descriptor.dtype {
            Err(ShardError::DescriptorMismatch)
        } else {
            match tensor_size(descriptor.rows, descriptor.dimension, descriptor.dtype) {
                Err(error) => Err(error),
                Ok(bytes) => if entry.length != bytes {
                    Err(ShardError::DescriptorMismatch)
                } else {
                    Ok(entry)
                },
            }
        }
    }
}

/// The wanted tensors of one shard.
pub struct GroupView {
    pub contract: Seq<char>,
    pub shard: Seq<char>,
    pub items: Seq<ReadItem>,
}

/// The group of a shard.
pub open spec fn group_at(groups: Seq<GroupView>, contract: Seq<char>, shard: Seq<char>) -> Option<int>
    decreases groups.len(),
{
    if groups.len() == 0 {
        None
    } else if groups.last().contract == contract && groups.last().shard == shard {
        Some(groups.len() - 1)
    } else {
        group_at(groups.drop_last(), contract, shard)
    }
}

/// The groups with one more wanted tensor.
pub open spec fn grouped(
    groups: Seq<GroupView>,
    contract: Seq<char>,
    shard: Seq<char>,
    item: ReadItem,
) -> Seq<GroupView> {
    match group_at(groups, contract, shard) {
        Some(at) => groups.update(
            at,
            GroupView { items: groups[at].items.push(item), ..groups[at] },
        ),
        None => groups.push(GroupView { contract, shard, items: seq![item] }),
    }
}

/// The wanted tensors of the first `count` descriptors, shard by shard, where
/// those that `host` holds are not wanted.
pub open spec fn groups_of(
    contracts: Map<Seq<char>, ContractView>,
    host: Map<Seq<char>, HostEntryView>,
    descriptors: Seq<Descriptor>,
    count: int,
) -> Seq<GroupView>
    decreases count,
{
    if count <= 0 {
        Seq::empty()
    } else {
        let before = groups_of(contracts, host, descriptors, count - 1);
        let descriptor = descriptors[count - 1]@;
        if host.contains_key(key_text(descriptor)) {
            before
        } else {
            let place = located(contracts, descriptor)->Ok_0;
            grouped(
                before,
                descriptor.contract,
                place.shard,
                ReadItem {
                    index: (count - 1) as usize,
                    offset: place.offset,
                    length: place.length,
                },
            )
        }
    }
}

/// The sketch after the first `count` descriptors were looked up.
pub open spec fn sketch_after(sketch: SketchView, descriptors: Seq<Descriptor>, count: int) -> SketchView
    decreases count,
{
    if count <= 0 {
        sketch
    } else {
        sketch_after(sketch, descriptors, count - 1).counted(key_text(descriptors[count - 1]@))
    }
}

/// How many of the first `count` descriptors the host cache holds.
pub open spec fn held(host: Map<Seq<char>, HostEntryView>, descriptors: Seq<Descriptor>, count: int) -> nat
    decreases count,
{
    if count <= 0 {
        0
    } else {
        held(host, descriptors, count - 1) + if host.contains_key(
            key_text(descriptors[count - 1]@),
        ) {
            1nat
        } else {
            0nat
        }
    }
}

/// Whether two caches hold the same tensors.
pub open spec fn same_tensors(
    before: Map<Seq<char>, HostEntryView>,
    after: Map<Seq<char>, HostEntryView>,
) -> bool {
    &&& after.dom() == before.dom()
    &&& forall|key: Seq<char>| #[trigger]
        after.contains_key(key) ==> after[key].payload == before[key].payload
            && after[key].owner_tenant == before[key].owner_tenant
}

/// Where a key is last asked for among the first `count` descriptors.
pub open spec fn last_asked(descriptors: Seq<Descriptor>, key: Seq<char>, count: int) -> Option<int>
    decreases count,
{
    if count <= 0 {
        None
    } else if key_text(descriptors[count - 1]@) == key {
        Some(count - 1)
    } else {
        last_asked(descriptors, key, count - 1)
    }
}

/// Whether the tensors that were asked for have the ranks that the function gave at
/// their last access, and the others keep theirs.
pub open spec fn ranked<W: Fn(u64, u16, usize) -> u64>(
    weigh: W,
    before: HostView,
    after: HostView,
    descriptors: Seq<Descriptor>,
    count: int,
) -> bool {
    forall|key: Seq<char>| #[trigger]
        after.entries.contains_key(key) ==> match last_asked(descriptors, key, count) {
            None => after.entries[key].rank == before.entries[key].rank,
            Some(last) => call_ensures(
                weigh,
                (
                    before.inflation,
                    sketch_after(before.sketch, descriptors, last).frequency(key),
                    before.entries[key].payload.len() as usize,
                ),
                after.entries[key].rank,
            ),
        }
}

/// What looking up the first `count` descriptors does to a host cache: the
/// accesses are counted, the tensors stay, and those that were asked for get new
/// ranks.
pub open spec fn looked_up<W: Fn(u64, u16, usize) -> u64>(
    weigh: W,
    before: HostView,
    after: HostView,
    descriptors: Seq<Descriptor>,
    count: int,
) -> bool {
    &&& same_tensors(before.entries, after.entries)
    &&& ranked(weigh, before, after, descriptors, count)
    &&& after.hits == before.hits + held(before.entries, descriptors, count)
    &&& after.misses == before.misses + count - held(before.entries, descriptors, count)
    &&& after.sketch == sketch_after(before.sketch, descriptors, count)
    &&& after == (HostView {
        entries: after.entries,
        hits: after.hits,
        misses: after.misses,
        sketch: after.sketch,
        ..before
    })
}

/// One more descriptor was looked up.
proof fn lemma_looked_up<W: Fn(u64, u16, usize) -> u64>(
    weigh: W,
    start: HostView,
    before: HostView,
    after: HostView,
    descriptors: Seq<Descriptor>,
    count: int,
)
    requires
        count >= 0,
        looked_up(weigh, start, before, descriptors, count),
        ({
            let key = key_text(descriptors[count]@);
            let rank = after.entries[key].rank;
            if before.entries.contains_key(key) {
                &&& call_ensures(
                    weigh,
                    (
                        before.inflation,
                        before.sketch.frequency(key),
                        before.entries[key].payload.len() as usize,
                    ),
                    rank,
                )
                &&& after.entries == before.entries.insert(
                    key,
                    HostEntryView { rank, ..before.entries[key] },
                )
            } else {
                after.entries == before.entries
            }
        }),
    ensures
        same_tensors(start.entries, after.entries),
        ranked(weigh, start, after, descriptors, count + 1),
{
    let key = key_text(descriptors[count]@);
    assert(after.entries.dom() =~= before.entries.dom());
    assert forall|other: Seq<char>| #[trigger] after.entries.contains_key(
        other,
    ) implies before.entries.contains_key(other) && after.entries[other].payload
        == start.entries[other].payload && after.entries[other].owner_tenant
        == start.entries[other].owner_tenant by {
        assert(before.entries.dom().contains(other));
        assert(before.entries.contains_key(other));
    }
    assert forall|other: Seq<char>| #[trigger] after.entries.contains_key(other) implies match last_asked(
        descriptors,
        other,
        count + 1,
    ) {
        None => after.entries[other].rank == start.entries[other].rank,
        Some(last) => call_ensures(
            weigh,
            (
                start.inflation,
                sketch_after(start.sketch, descriptors, last).frequency(other),
                start.entries[other].payload.len() as usize,
            ),
            after.entries[other].rank,
        ),
    } by {
        assert(before.entries.contains_key(other));
    }
}

/// The reads from one shard.
pub struct ReadGroup {
    pub contract: String,
    pub shard: String,
    pub ranges: Vec<ReadRange>,
}

/// Whether the ranges are those of some order of the wanted tensors, and that
/// order is the order of the file.
pub open spec fn reads_of(group: ReadGroup, wanted: GroupView) -> bool {
    &&& group.contract@ == wanted.contract
    &&& group.shard@ == wanted.shard
    &&& exists|sorted: Seq<ReadItem>|
        in_file_order(sorted) && sorted.to_multiset() == wanted.items.to_multiset() && range_views(
            group.ranges@,
        ) == #[trigger] ranges_of(sorted)
}

/// Whether the ranges of a group can be read: they lie in a known shard, and
/// each holds its tensors.
pub open spec fn readable(group: ReadGroup, contracts: Map<Seq<char>, ContractView>, count: int) -> bool {
    &&& contracts.contains_key(group.contract@)
    &&& contracts[group.contract@].shards.contains_key(group.shard@)
    &&& group.ranges@.len() > 0
    &&& forall|r: int|
        0 <= r < group.ranges@.len() ==> (#[trigger] group.ranges@[r])@.holds()
            && group.ranges@[r]@.end
            <= contracts[group.contract@].shards[group.shard@].size
    &&& forall|r: int, i: int|
        0 <= r < group.ranges@.len() && 0 <= i < group.ranges@[r].items@.len() ==> (
        #[trigger] group.ranges@[r].items@[i]).index < count
}

/// What is known of the wanted tensors, and what has to be read for the others.
pub struct ResolvePlan {
    pub output: Vec<Option<Arc<Vec<u8>>>>,
    pub groups: Vec<ReadGroup>,
}

/// The wanted tensors of one shard.
struct Wanted {
    contract: String,
    shard: String,
    items: Vec<ReadItem>,
}

impl View for Wanted {
    type V = GroupView;

    closed spec fn view(&self) -> GroupView {
        GroupView { contract: self.contract@, shard: self.shard@, items: self.items@ }
    }
}

spec fn wanted_views(list: Seq<Wanted>) -> Seq<GroupView> {
    Seq::new(list.len(), |i: int| list[i]@)
}

/// Whether every tensor of a group lies in the group's shard.
spec fn group_fits(group: GroupView, contracts: Map<Seq<char>, ContractView>, count: int) -> bool {
    &&& contracts.contains_key(group.contract)
    &&& contracts[group.contract].shards.contains_key(group.shard)
    &&& group.items.len() > 0
    &&& ends_within(group.items, contracts[group.contract].shards[group.shard].size as int)
    &&& forall|i: int| 0 <= i < group.items.len() ==> (#[trigger] group.items[i]).index < count
}

/// The tensors of a range are among those of all ranges.
proof fn lemma_range_items(ranges: Seq<RangeView>, r: int, i: int)
    requires
        0 <= r < ranges.len(),
        0 <= i < ranges[r].items.len(),
    ensures
        read_items(ranges).contains(ranges[r].items[i]),
    decreases ranges.len(),
{
    let front = read_items(ranges.drop_last());
    if r < ranges.len() - 1 {
        lemma_range_items(ranges.drop_last(), r, i);
        let at = choose|at: int| 0 <= at < front.len() && front[at] == ranges[r].items[i];
        assert(read_items(ranges)[at] == ranges[r].items[i]);
    } else {
        assert(read_items(ranges)[front.len() + i] == ranges[r].items[i]);
    }
}

/// Finds the group of a shard.
fn find_group(groups: &Vec<Wanted>, contract: &str, shard: &str) -> (result: Option<usize>)
    ensures
        match result {
            Some(at) => group_at(wanted_views(groups@), contract@, shard@) == Some(at as int) && at
                < groups@.len(),
            None => group_at(wanted_views(groups@), contract@, shard@) is None,
        },
{
    let mut i: usize = groups.len();
    assert(wanted_views(groups@).subrange(0, groups@.len() as int) =~= wanted_views(groups@));
    while i > 0
        invariant
            i <= groups@.len(),
            group_at(wanted_views(groups@), contract@, shard@) == group_at(
                wanted_views(groups@).subrange(0, i as int),
                contract@,
                shard@,
            ),
        decreases i,
    {
        let ghost front = wanted_views(groups@).subrange(0, i as int);
        i -= 1;
        assert(front.drop_last() =~= wanted_views(groups@).subrange(0, i as int));
        assert(front.last() == groups@[i as int]@);
        if same_text(groups[i].contract.as_str(), contract) && same_text(
            groups[i].shard.as_str(),
            shard,
        ) {
            return Some(i);
        }
    }
    None
}

/// A found group is the group of the shard.
proof fn lemma_group_at(groups: Seq<GroupView>, contract: Seq<char>, shard: Seq<char>)
    ensures
        match group_at(groups, contract, shard) {
            Some(at) => 0 <= at < groups.len() && groups[at].contract == contract
                && groups[at].shard == shard,
            None => true,
        },
    decreases groups.len(),
{
    if groups.len() > 0 {
        lemma_group_at(groups.drop_last(), contract, shard);
    }
}

/// Adds a wanted tensor to its group.
fn add_wanted(groups: &mut Vec<Wanted>, contract: &str, shard: String, item: ReadItem)
    ensures
        wanted_views(final(groups)@) == grouped(wanted_views(old(groups)@), contract@, shard@, item),
{
    let ghost before = wanted_views(groups@);
    match find_group(groups, contract, shard.as_str()) {
        Some(at) => {
            groups[at].items.push(item);
            assert(wanted_views(groups@) =~= grouped(before, contract@, shard@, item));
        },
        None => {
            let mut items: Vec<ReadItem> = Vec::new();
            items.push(item);
            assert(items@ =~= seq![item]);
            groups.push(Wanted { contract: contract.to_owned(), shard, items });
            assert(wanted_views(groups@) =~= grouped(before, contract@, shard@, item));
        },
    }
}

/// Adding a tensor that lies in its shard keeps every tensor in its shard.
proof fn lemma_grouped_fits(
    groups: Seq<GroupView>,
    contracts: Map<Seq<char>, ContractView>,
    contract: Seq<char>,
    shard: Seq<char>,
    item: ReadItem,
)
    requires
        forall|g: int| 0 <= g < groups.len() ==> group_fits(
            #[trigger] groups[g],
            contracts,
            item.index as int,
        ),
        contracts.contains_key(contract),
        contracts[contract].shards.contains_key(shard),
        item.end() <= contracts[contract].shards[shard].size,
    ensures
        forall|g: int|
            0 <= g < grouped(groups, contract, shard, item).len() ==> group_fits(
                #[trigger] grouped(groups, contract, shard, item)[g],
                contracts,
                item.index + 1,
            ),
{
    lemma_group_at(groups, contract, shard);
    let after = grouped(groups, contract, shard, item);
    assert forall|g: int| 0 <= g < after.len() implies group_fits(
        #[trigger] after[g],
        contracts,
        item.index + 1,
    ) by {
        if g < groups.len() {
            assert(group_fits(groups[g], contracts, item.index as int));
            let old_items = groups[g].items;
            let items = after[g].items;
            assert forall|i: int| 0 <= i < items.len() implies (#[trigger] items[i]).index < item.index
                + 1 && items[i].end() <= contracts[after[g].contract].shards[after[g].shard].size by {
                if i < old_items.len() {
                    assert(items[i] == old_items[i]);
                }
            }
        }
    }
}

/// Plans the reads of one group.
fn plan_group(wanted: &Wanted, contracts: Ghost<Map<Seq<char>, ContractView>>, count: Ghost<int>) -> (group:
    ReadGroup)
    requires
        group_fits(wanted@, contracts@, count@),
    ensures
        reads_of(group, wanted@),
        readable(group, contracts@, count@),
{
    let sorted: Vec<ReadItem> = sort_reads(&wanted.items);
    let ghost size = contracts@[wanted.contract@].shards[wanted.shard@].size;
    proof {
        sorted@.to_multiset_ensures();
        wanted.items@.to_multiset_ensures();
        assert(sorted@.len() == wanted.items@.len());
        assert forall|i: int| 0 <= i < sorted@.len() implies (#[trigger] sorted@[i]).end() <= size
            && sorted@[i].index < count@ by {
            let item = sorted@[i];
            assert(sorted@.contains(item));
            assert(sorted@.to_multiset().count(item) > 0);
            assert(wanted.items@.contains(item));
            let at = choose|at: int| 0 <= at < wanted.items@.len() && wanted.items@[at] == item;
            assert(wanted@.items[at] == item);
        }
        ranges_cover_the_tensors(sorted@, size as u64);
    }
    let ranges: Vec<ReadRange> = read_ranges(&sorted);
    proof {
        let views = range_views(ranges@);
        assert forall|r: int| 0 <= r < ranges@.len() implies (#[trigger] ranges@[r])@.holds()
            && ranges@[r]@.end <= size by {
            assert(views[r] == ranges@[r]@);
        }
        assert forall|r: int, i: int|
            0 <= r < ranges@.len() && 0 <= i < ranges@[r].items@.len() implies (
        #[trigger] ranges@[r].items@[i]).index < count@ by {
            assert(views[r].items == ranges@[r].items@);
            lemma_range_items(views, r, i);
            let item = ranges@[r].items@[i];
            let at = choose|at: int| 0 <= at < sorted@.len() && sorted@[at] == item;
            assert(sorted@[at].index < count@);
        }
    }
    ReadGroup { contract: wanted.contract.clone(), shard: wanted.shard.clone(), ranges }
}

/// Whether the host cache or a shard has the tensor of a descriptor.
pub open spec fn resolvable(
    contracts: Map<Seq<char>, ContractView>,
    host: Map<Seq<char>, HostEntryView>,
    descriptor: DescriptorView,
) -> bool {
    host.contains_key(key_text(descriptor)) || located(contracts, descriptor) is Ok
}

/// What is known of a tensor before the reads.
pub open spec fn known(
    host: Map<Seq<char>, HostEntryView>,
    descriptor: DescriptorView,
    output: Option<Arc<Vec<u8>>>,
) -> bool {
    match output {
        Some(payload) => host.contains_key(key_text(descriptor)) && payload@ == host[key_text(
            descriptor,
        )].payload,
        None => !host.contains_key(key_text(descriptor)),
    }
}

/// The bytes of the outputs.
pub open spec fn output_views(list: Seq<Option<Arc<Vec<u8>>>>) -> Seq<Option<Seq<u8>>> {
    Seq::new(
        list.len(),
        |i: int|
            match list[i] {
                Some(payload) => Some(payload@),
                None => None,
            },
    )
}

/// The outputs after the first `count` tensors were handed back.
pub open spec fn delivered(
    output: Seq<Option<Seq<u8>>>,
    resolved: Seq<(usize, Arc<Vec<u8>>)>,
    count: int,
) -> Seq<Option<Seq<u8>>>
    decreases count,
{
    if count <= 0 {
        output
    } else {
        delivered(output, resolved, count - 1).update(
            resolved[count - 1].0 as int,
            Some(resolved[count - 1].1@),
        )
    }
}

/// What offering the first `count` tensors does to a host cache.
pub open spec fn offered<W: Fn(u64, u16, usize) -> u64>(
    weigh: W,
    before: HostView,
    tenant: Seq<char>,
    descriptors: Seq<Descriptor>,
    resolved: Seq<(usize, Arc<Vec<u8>>)>,
    count: int,
    after: HostView,
) -> bool
    decreases count,
{
    if count <= 0 {
        after == before
    } else {
        exists|middle: HostView|
            offered(weigh, before, tenant, descriptors, resolved, count - 1, middle) && #[trigger] stores(
                weigh,
                middle,
                tenant,
                key_text(descriptors[resolved[count - 1].0 as int]@),
                resolved[count - 1].1@,
                after,
            )
    }
}

/// The bytes of the first `count` ranges.
pub open spec fn range_bytes(ranges: Seq<ReadRange>, count: int) -> int
    decreases count,
{
    if count <= 0 {
        0
    } else {
        range_bytes(ranges, count - 1) + ranges[count - 1].end - ranges[count - 1].start
    }
}

/// The shards of all model contracts, behind a cache in host memory.
pub struct ShardStore {
    contracts: Table<ContractStore>,
    roots: Vec<(String, String)>,
    host_cache: HostCache,
    pub batch_read_calls: u64,
    pub batch_read_bytes: u64,
    verify_full_shards: bool,
}

impl View for ShardStore {
    type V = StoreView;

    closed spec fn view(&self) -> StoreView {
        StoreView {
            contracts: contract_views(self.contracts@),
            roots: root_views(self.roots@),
            host: self.host_cache@,
            batch_read_calls: self.batch_read_calls,
            batch_read_bytes: self.batch_read_bytes,
            verify_full_shards: self.verify_full_shards,
        }
    }
}

/// Whether contracts have different names, none of them empty.
pub open spec fn names_differ(roots: Seq<(Seq<char>, Seq<char>)>) -> bool {
    &&& forall|i: int| 0 <= i < roots.len() ==> (#[trigger] roots[i]).0.len() > 0
    &&& forall|i: int, j: int|
        0 <= i < j < roots.len() ==> (#[trigger] roots[i]).0 != (#[trigger] roots[j]).0
}

/// Whether the contracts are those that the directories are of.
pub open spec fn contracts_of_roots(
    contracts: Map<Seq<char>, ContractView>,
    roots: Seq<(Seq<char>, Seq<char>)>,
) -> bool {
    forall|name: Seq<char>| #[trigger]
        contracts.contains_key(name) <==> exists|i: int|
            0 <= i < roots.len() && (#[trigger] roots[i]).0 == name
}

/// Every contract of the result is named in the directories.
proof fn lemma_contract_names(
    roots: Seq<(Seq<char>, Seq<char>)>,
    indexes: Seq<Result<ContractStore, StoreError>>,
    count: int,
)
    requires
        0 <= count <= roots.len(),
        contracts_of(roots, indexes, count) is Ok,
    ensures
        forall|name: Seq<char>| #[trigger]
            (contracts_of(roots, indexes, count)->Ok_0).contains_key(name) <==> exists|i: int|
                0 <= i < count && (#[trigger] roots[i]).0 == name,
        names_differ(roots.subrange(0, count)),
    decreases count,
{
    if count > 0 {
        lemma_contract_names(roots, indexes, count - 1);
        let before = contracts_of(roots, indexes, count - 1)->Ok_0;
        let after = contracts_of(roots, indexes, count)->Ok_0;
        let shorter = roots.subrange(0, count - 1);
        let longer = roots.subrange(0, count);
        assert forall|name: Seq<char>| #[trigger] after.contains_key(name) <==> exists|i: int|
            0 <= i < count && (#[trigger] roots[i]).0 == name by {
            if after.contains_key(name) {
                if name == roots[count - 1].0 {
                } else {
                    assert(before.contains_key(name));
                }
            }
            if exists|i: int| 0 <= i < count && (#[trigger] roots[i]).0 == name {
                let i = choose|i: int| 0 <= i < count && (#[trigger] roots[i]).0 == name;
                if i < count - 1 {
                    assert(before.contains_key(name));
                }
            }
        }
        assert forall|i: int| 0 <= i < longer.len() implies (#[trigger] longer[i]).0.len() > 0 by {
            if i < count - 1 {
                assert(shorter[i] == longer[i]);
            }
        }
        assert forall|i: int, j: int| 0 <= i < j < longer.len() implies (#[trigger] longer[i]).0 != (
        #[trigger] longer[j]).0 by {
            if j < count - 1 {
                assert(shorter[i] == longer[i] && shorter[j] == longer[j]);
            } else {
                assert(roots[i].0 == longer[i].0);
                if longer[i].0 == longer[j].0 {
                    assert(before.contains_key(longer[j].0));
                }
            }
        }
    }
}

/// Reading the indexes of directories whose contracts have different names
/// fails only where an index does, and with the error of the first one that does.
pub proof fn reload_fails_with_an_index(
    roots: Seq<(Seq<char>, Seq<char>)>,
    indexes: Seq<Result<ContractStore, StoreError>>,
    count: int,
)
    requires
        names_differ(roots),
        0 <= count <= roots.len(),
    ensures
        match contracts_of(roots, indexes, count) {
            Ok(contracts) => forall|i: int|
                0 <= i < count ==> index_view(#[trigger] indexes[i]) is Ok && contracts.contains_key(
                    roots[i].0,
                ) && contracts[roots[i].0] == index_view(indexes[i])->Ok_0,
            Err(error) => exists|i: int|
                0 <= i < count && index_view(#[trigger] indexes[i]) == Err::<
                    ContractView,
                    StoreErrorView,
                >(error) && forall|j: int| 0 <= j < i ==> index_view(#[trigger] indexes[j]) is Ok,
        },
    decreases count,
{
    if count > 0 {
        reload_fails_with_an_index(roots, indexes, count - 1);
        match contracts_of(roots, indexes, count - 1) {
            Err(error) => {
                let i = choose|i: int|
                    0 <= i < count - 1 && index_view(#[trigger] indexes[i]) == Err::<
                        ContractView,
                        StoreErrorView,
                    >(error) && forall|j: int| 0 <= j < i ==> index_view(#[trigger] indexes[j]) is Ok;
                assert(index_view(indexes[i]) == Err::<ContractView, StoreErrorView>(error));
            },
            Ok(before) => {
                lemma_contract_names(roots, indexes, count - 1);
                let name = roots[count - 1].0;
                if before.contains_key(name) {
                    let i = choose|i: int| 0 <= i < count - 1 && (#[trigger] roots[i]).0 == name;
                    assert(roots[i].0 != roots[count - 1].0);
                }
                match index_view(indexes[count - 1]) {
                    Err(error) => {
                        assert(index_view(indexes[count - 1]) == Err::<ContractView, StoreErrorView>(error));
                    },
                    Ok(contract) => {
                        let after = contracts_of(roots, indexes, count)->Ok_0;
                        assert forall|i: int| 0 <= i < count implies index_view(
                            #[trigger] indexes[i],
                        ) is Ok && after.contains_key(roots[i].0) && after[roots[i].0] == index_view(
                            indexes[i],
                        )->Ok_0 by {
                            if i < count - 1 {
                                assert(roots[i].0 != roots[count - 1].0);
                            }
                        }
                    },
                }
            },
        }
    }
}

/// Collects the contracts of the directories.
fn open_all(roots: &Vec<(String, String)>, indexes: Vec<Result<ContractStore, StoreError>>) -> (result:
    Result<Table<ContractStore>, StoreError>)
    requires
        indexes@.len() == roots@.len(),
        forall|i: int|
            0 <= i < indexes@.len() ==> ((#[trigger] indexes@[i]) is Ok ==> indexes@[i]->Ok_0.wf()),
    ensures
        match result {
            Ok(contracts) => {
                &&& contracts.wf()
                &&& forall|name: Seq<char>| #[trigger]
                    contracts@.contains_key(name) ==> contracts@[name].wf()
                &&& contracts_of(root_views(roots@), indexes@, roots@.len() as int) == Ok::<
                    Map<Seq<char>, ContractView>,
                    StoreErrorView,
                >(contract_views(contracts@))
            },
            Err(error) => contracts_of(root_views(roots@), indexes@, roots@.len() as int) == Err::<
                Map<Seq<char>, ContractView>,
                StoreErrorView,
            >(error@),
        },
{
    let ghost all = indexes@;
    let ghost names = root_views(roots@);
    let mut rest: Vec<Result<ContractStore, StoreError>> = indexes;
    let mut contracts: Table<ContractStore> = Table::new();
    let mut i: usize = 0;
    assert(contract_views(contracts@) =~= Map::<Seq<char>, ContractView>::empty());
    assert(rest@ =~= all.subrange(0, all.len() as int));
    while i < roots.len()
        invariant
            i <= roots@.len(),
            all.len() == roots@.len(),
            all == indexes@,
            names == root_views(roots@),
            rest@ == all.subrange(i as int, all.len() as int),
            forall|i: int|
                0 <= i < all.len() ==> ((#[trigger] all[i]) is Ok ==> all[i]->Ok_0.wf()),
            contracts.wf(),
            forall|name: Seq<char>| #[trigger]
                contracts@.contains_key(name) ==> contracts@[name].wf(),
            contracts_of(names, all, i as int) == Ok::<Map<Seq<char>, ContractView>, StoreErrorView>(
                contract_views(contracts@),
            ),
        decreases roots@.len() - i,
    {
        proof {
            lemma_contracts_stop(names, all, i as int + 1, all.len() as int);
            assert(names[i as int].0 == roots@[i as int].0@);
            assert(all[i as int] == rest@[0]);
        }
        let ghost before = contract_views(contracts@);
        let name: &String = &roots[i].0;
        if name.as_str().unicode_len() == 0 || contracts.get(name.as_str()).is_some() {
            return Err(StoreError::InvalidContract(name.clone()));
        }
        let contract: ContractStore = rest.remove(0)?;
        let ghost view = contract@;
        contracts.insert(name.clone(), contract);
        proof {
            assert(contract_views(contracts@) =~= before.insert(name@, view));
            assert(rest@ =~= all.subrange(i as int + 1, all.len() as int));
        }
        i += 1;
    }
    Ok(contracts)
}

/// Finds where the tensor of a descriptor lies.
fn locate(contracts: &Table<ContractStore>, descriptor: &Descriptor) -> (result: Result<
    (String, u64, usize),
    ShardError,
>)
    requires
        contracts.wf(),
        forall|name: Seq<char>| #[trigger]
            contracts@.contains_key(name) ==> contracts@[name].wf(),
    ensures
        match result {
            Ok((shard, offset, length)) => {
                let place = located(contract_views(contracts@), descriptor@);
                place is Ok && place->Ok_0.shard == shard@ && place->Ok_0.offset == offset
                    && place->Ok_0.length == length
            },
            Err(error) => located(contract_views(contracts@), descriptor@) == Err::<
                EntryPlace,
                ShardError,
            >(error),
        },
{
    let contract: &ContractStore = match contracts.get(descriptor.contract.as_str()) {
        Some(contract) => contract,
        None => {
            return Err(ShardError::UnknownContract);
        },
    };
    assert(contract_views(contracts@)[descriptor.contract@] == contract@);
    let entry: &Entry = match contract.entries.get(descriptor.digest.as_str()) {
        Some(entry) => entry,
        None => {
            return Err(ShardError::MissingTensor);
        },
    };
    assert(contract@.entries[descriptor.digest@] == entry@);
    if entry.rows != descriptor.rows || entry.dimension != descriptor.dimension || entry.dtype
        != descriptor.dtype {
        return Err(ShardError::DescriptorMismatch);
    }
    let bytes: usize = tensor_bytes(descriptor.rows, descriptor.dimension, descriptor.dtype)?;
    if entry.length != bytes {
        return Err(ShardError::DescriptorMismatch);
    }
    Ok((entry.shard.clone(), entry.offset, entry.length))
}

/// Whether an output holds a tensor.
pub open spec fn holds_payload(output: Option<Arc<Vec<u8>>>, payload: Arc<Vec<u8>>) -> bool {
    match output {
        Some(held) => held@ == payload@,
        None => false,
    }
}

/// Hands out the resolved tensors. All of them have to be there.
pub fn collect_outputs(output: &Vec<Option<Arc<Vec<u8>>>>) -> (result: Result<
    Vec<Arc<Vec<u8>>>,
    ShardError,
>)
    ensures
        match result {
            Ok(payloads) => payloads@.len() == output@.len() && forall|i: int|
                0 <= i < payloads@.len() ==> holds_payload(output@[i], #[trigger] payloads@[i]),
            Err(error) => error == ShardError::NoPayload && exists|i: int|
                0 <= i < output@.len() && (#[trigger] output@[i]) is None,
        },
{
    let mut payloads: Vec<Arc<Vec<u8>>> = Vec::new();
    let mut i: usize = 0;
    while i < output.len()
        invariant
            i <= output@.len(),
            payloads@.len() == i,
            forall|j: int|
                0 <= j < i ==> holds_payload(output@[j], #[trigger] payloads@[j]),
        decreases output@.len() - i,
    {
        match &output[i] {
            Some(payload) => {
                payloads.push(share_payload(payload));
            },
            None => {
                assert(output@[i as int] is None);
                return Err(ShardError::NoPayload);
            },
        }
        i += 1;
    }
    Ok(payloads)
}

impl ShardStore {
    /// The number of tensors in the host cache.
    pub closed spec fn cached_number(&self) -> nat {
        self.host_cache.entry_number()
    }

    /// The parts are well-formed, and the contracts are those of the
    /// directories.
    pub closed spec fn wf(&self) -> bool {
        &&& self.contracts.wf()
        &&& forall|name: Seq<char>| #[trigger]
            self.contracts@.contains_key(name) ==> self.contracts@[name].wf()
        &&& self.host_cache.wf()
        &&& names_differ(root_views(self.roots@))
        &&& contracts_of_roots(contract_views(self.contracts@), root_views(self.roots@))
    }

    /// What the state of a well-formed store satisfies: no two directories are of one
    /// contract, the contracts are those of the directories, and every contract is
    /// well-formed.
    pub proof fn lemma_view(&self)
        requires
            self.wf(),
        ensures
            names_differ(self@.roots),
            contracts_of_roots(self@.contracts, self@.roots),
            forall|name: Seq<char>| #[trigger]
                self@.contracts.contains_key(name) ==> self@.contracts[name].wf(),
    {
        assert forall|name: Seq<char>| #[trigger] self@.contracts.contains_key(
            name,
        ) implies self@.contracts[name].wf() by {
            assert(self.contracts@.contains_key(name));
        }
    }

    /// Whether the counters have room for `count` more accesses.
    pub open spec fn countable(&self, count: int) -> bool {
        &&& self@.host.hits + count <= u64::MAX
        &&& self@.host.misses + count <= u64::MAX
        &&& self@.host.evictions + self.cached_number() + count < u64::MAX
        &&& self@.host.admission_rejections + count < u64::MAX
    }

    /// Tests whether the counters have room for `count` more accesses.
    pub fn has_room(&self, count: usize) -> (result: bool)
        ensures
            result == self.countable(count as int),
    {
        let status: HostCacheStatus = self.host_cache.status();
        let more: u128 = count as u128;
        let limit: u128 = u64::MAX as u128;
        status.hits as u128 + more <= limit && status.misses as u128 + more <= limit
            && status.evictions as u128 + status.entries as u128 + more < limit
            && status.admission_rejections as u128 + more < limit
    }

    /// A store of the given contracts and their directories. Of each directory
    /// `indexes` holds what reading its index gave.
    pub fn open(
        roots: Vec<(String, String)>,
        indexes: Vec<Result<ContractStore, StoreError>>,
        host_cache_bytes: usize,
        host_tenant_max_percent: u8,
        verify_full_shards: bool,
    ) -> (result: Result<Self, StoreError>)
        requires
            indexes@.len() == roots@.len(),
            forall|i: int|
                0 <= i < indexes@.len() ==> ((#[trigger] indexes@[i]) is Ok
                    ==> indexes@[i]->Ok_0.wf()),
            host_cache_bytes * host_tenant_max_percent <= usize::MAX,
        ensures
            match contracts_of(root_views(roots@), indexes@, roots@.len() as int) {
                Err(error) => result is Err && result->Err_0@ == error,
                Ok(contracts) => if roots@.len() == 0 {
                    result is Err && result->Err_0@ == StoreErrorView::NoContract
                } else {
                    &&& result is Ok
                    &&& result->Ok_0.wf()
                    &&& result->Ok_0.cached_number() == 0
                    &&& result->Ok_0@.contracts == contracts
                    &&& result->Ok_0@.roots == root_views(roots@)
                    &&& result->Ok_0@.verify_full_shards == verify_full_shards
                    &&& result->Ok_0@.batch_read_calls == 0
                    &&& result->Ok_0@.batch_read_bytes == 0
                    &&& result->Ok_0@.host == HostView::fresh(
                        host_cache_bytes,
                        host_tenant_max_percent,
                    )
                },
            },
    {
        let ghost all = indexes@;
        let contracts: Table<ContractStore> = open_all(&roots, indexes)?;
        if roots.len() == 0 {
            return Err(StoreError::NoContract);
        }
        proof {
            lemma_contract_names(root_views(roots@), all, roots@.len() as int);
            assert(root_views(roots@).subrange(0, roots@.len() as int) =~= root_views(roots@));
            let names = root_views(roots@);
            let views = contract_views(contracts@);
            assert forall|name: Seq<char>| #[trigger] views.contains_key(name) <==> exists|i: int|
                0 <= i < names.len() && (#[trigger] names[i]).0 == name by {
                assert(contracts_of(names, all, names.len() as int)->Ok_0.contains_key(name)
                    == views.contains_key(name));
            }
        }
        Ok(
            ShardStore {
                contracts,
                roots,
                host_cache: HostCache::new(host_cache_bytes, host_tenant_max_percent),
                batch_read_calls: 0,
                batch_read_bytes: 0,
                verify_full_shards,
            },
        )
    }

    /// The directories, to read their indexes again.
    pub fn roots(&self) -> (roots: &Vec<(String, String)>)
        ensures
            root_views(roots@) == self@.roots,
    {
        &self.roots
    }

    /// Publishes a new generation of all contracts, once all their indexes were
    /// read. The host cache stays, and so do the names of the contracts.
    pub fn reload(&mut self, indexes: Vec<Result<ContractStore, StoreError>>) -> (result: Result<
        (),
        StoreError,
    >)
        requires
            old(self).wf(),
            indexes@.len() == old(self)@.roots.len(),
            forall|i: int|
                0 <= i < indexes@.len() ==> ((#[trigger] indexes@[i]) is Ok
                    ==> indexes@[i]->Ok_0.wf()),
        ensures
            final(self).wf(),
            final(self).cached_number() == old(self).cached_number(),
            match contracts_of(old(self)@.roots, indexes@, old(self)@.roots.len() as int) {
                Ok(contracts) => result is Ok && contracts.dom() == old(self)@.contracts.dom()
                    && final(self)@ == (StoreView { contracts, ..old(self)@ }),
                Err(error) => result is Err && result->Err_0@ == error && final(self)@ == old(self)@,
            },
    {
        let ghost all = indexes@;
        let ghost before = self@;
        let contracts: Table<ContractStore> = open_all(&self.roots, indexes)?;
        proof {
            lemma_contract_names(before.roots, all, before.roots.len() as int);
            assert(contract_views(contracts@).dom() =~= before.contracts.dom()) by {
                assert forall|name: Seq<char>| contract_views(contracts@).dom().contains(name)
                    == before.contracts.dom().contains(name) by {
                    assert(contract_views(contracts@).contains_key(name)
                        == before.contracts.contains_key(name));
                }
            }
        }
        self.contracts = contracts;
        Ok(())
    }

    /// Looks the descriptors up in the host cache, and plans the reads for those
    /// that it does not hold.
    #[verifier::rlimit(40)]
    #[verifier::spinoff_prover]
    pub fn resolve_many<W: Fn(u64, u16, usize) -> u64>(&mut self, descriptors: &[Descriptor], weigh: &W) -> (result:
        Result<ResolvePlan, ShardError>)
        requires
            old(self).wf(),
            old(self).countable(descriptors@.len() as int),
            forall|inflation: u64, frequency: u16, bytes: usize|
                call_requires(*weigh, (inflation, frequency, bytes)),
        ensures
            final(self).wf(),
            final(self).cached_number() == old(self).cached_number(),
            final(self)@ == (StoreView { host: final(self)@.host, ..old(self)@ }),
            match result {
                Ok(plan) => {
                    let groups = groups_of(
                        old(self)@.contracts,
                        old(self)@.host.entries,
                        descriptors@,
                        descriptors@.len() as int,
                    );
                    &&& looked_up(
                        *weigh,
                        old(self)@.host,
                        final(self)@.host,
                        descriptors@,
                        descriptors@.len() as int,
                    )
                    &&& forall|i: int|
                        0 <= i < descriptors@.len() ==> resolvable(
                            old(self)@.contracts,
                            old(self)@.host.entries,
                            #[trigger] descriptors@[i]@,
                        )
                    &&& plan.output@.len() == descriptors@.len()
                    &&& forall|i: int|
                        0 <= i < descriptors@.len() ==> known(
                            old(self)@.host.entries,
                            descriptors@[i]@,
                            #[trigger] plan.output@[i],
                        )
                    &&& plan.groups@.len() == groups.len()
                    &&& forall|g: int|
                        0 <= g < groups.len() ==> reads_of(#[trigger] plan.groups@[g], groups[g])
                            && readable(
                            plan.groups@[g],
                            old(self)@.contracts,
                            descriptors@.len() as int,
                        )
                },
                Err(error) => exists|k: int|
                    0 <= k < descriptors@.len() && !resolvable(
                        old(self)@.contracts,
                        old(self)@.host.entries,
                        #[trigger] descriptors@[k]@,
                    ) && located(old(self)@.contracts, descriptors@[k]@) == Err::<
                        EntryPlace,
                        ShardError,
                    >(error) && looked_up(
                        *weigh,
                        old(self)@.host,
                        final(self)@.host,
                        descriptors@,
                        k + 1,
                    ) && forall|j: int|
                        0 <= j < k ==> resolvable(
                            old(self)@.contracts,
                            old(self)@.host.entries,
                            #[trigger] descriptors@[j]@,
                        ),
            },
    {
        let ghost contracts = self@.contracts;
        let ghost host = self@.host;
        let mut output: Vec<Option<Arc<Vec<u8>>>> = Vec::new();
        let mut wanted: Vec<Wanted> = Vec::new();
        let mut i: usize = 0;
        assert(wanted_views(wanted@) =~= Seq::<GroupView>::empty());
        while i < descriptors.len()
            invariant
                i <= descriptors@.len(),
                self.wf(),
                self.cached_number() == old(self).cached_number(),
                host == old(self)@.host,
                contracts == old(self)@.contracts,
                self@ == (StoreView { host: self@.host, ..old(self)@ }),
                old(self).countable(descriptors@.len() as int),
                forall|inflation: u64, frequency: u16, bytes: usize|
                    call_requires(*weigh, (inflation, frequency, bytes)),
                looked_up(*weigh, host, self@.host, descriptors@, i as int),
                held(host.entries, descriptors@, i as int) <= i,
                forall|j: int|
                    0 <= j < i ==> resolvable(
                        contracts,
                        host.entries,
                        #[trigger] descriptors@[j]@,
                    ),
                output@.len() == i,
                forall|j: int|
                    0 <= j < i ==> known(host.entries, descriptors@[j]@, #[trigger] output@[j]),
                wanted_views(wanted@) == groups_of(contracts, host.entries, descriptors@, i as int),
                forall|g: int|
                    0 <= g < wanted@.len() ==> group_fits(
                        #[trigger] wanted_views(wanted@)[g],
                        contracts,
                        i as int,
                    ),
            decreases descriptors@.len() - i,
        {
            let descriptor: &Descriptor = &descriptors[i];
            let key: String = cache_key(descriptor);
            let ghost before = self@.host;
            let ghost groups = wanted_views(wanted@);
            let found: Option<Arc<Vec<u8>>> = self.host_cache.get(key.as_str(), weigh);
            proof {
                assert(before.entries.contains_key(key@) == host.entries.contains_key(key@)) by {
                    assert(before.entries.dom().contains(key@) == host.entries.dom().contains(key@));
                }
                lemma_looked_up(*weigh, host, before, self@.host, descriptors@, i as int);
                assert(looked_up(*weigh, host, self@.host, descriptors@, i as int + 1));
            }
            match found {
                Some(payload) => {
                    output.push(Some(payload));
                    proof {
                        assert forall|g: int| 0 <= g < wanted@.len() implies group_fits(
                            #[trigger] wanted_views(wanted@)[g],
                            contracts,
                            i as int + 1,
                        ) by {
                            assert(group_fits(groups[g], contracts, i as int));
                        }
                    }
                },
                None => {
                    let (shard, offset, length): (String, u64, usize) = locate(
                        &self.contracts,
                        descriptor,
                    )?;
                    let ghost place = located(contracts, descriptor@)->Ok_0;
                    let item = ReadItem { index: i, offset, length };
                    proof {
                        let contract = contracts[descriptor@.contract];
                        assert(self.contracts@.contains_key(descriptor@.contract));
                        assert(self.contracts@[descriptor@.contract].wf());
                        assert(contract.wf());
                        assert(contract.entries.contains_key(descriptor@.digest));
                        lemma_grouped_fits(groups, contracts, descriptor@.contract, shard@, item);
                    }
                    add_wanted(&mut wanted, descriptor.contract.as_str(), shard, item);
                    output.push(None);
                },
            }
            i += 1;
        }
        let mut groups: Vec<ReadGroup> = Vec::new();
        let mut g: usize = 0;
        while g < wanted.len()
            invariant
                g <= wanted@.len(),
                groups@.len() == g,
                forall|h: int|
                    0 <= h < wanted@.len() ==> group_fits(
                        #[trigger] wanted_views(wanted@)[h],
                        contracts,
                        descriptors@.len() as int,
                    ),
                forall|h: int|
                    0 <= h < g ==> reads_of(#[trigger] groups@[h], wanted_views(wanted@)[h])
                        && readable(groups@[h], contracts, descriptors@.len() as int),
            decreases wanted@.len() - g,
        {
            assert(group_fits(wanted_views(wanted@)[g as int], contracts, descriptors@.len() as int));
            let group: ReadGroup = plan_group(
                &wanted[g],
                Ghost(contracts),
                Ghost(descriptors@.len() as int),
            );
            groups.push(group);
            g += 1;
        }
        Ok(ResolvePlan { output, groups })
    }

    /// Whether the file of a shard has to be verified before it is read.
    pub fn needs_verification(&self, contract: &str, shard: &str) -> (result: bool)
        requires
            self.wf(),
            self@.contracts.contains_key(contract@),
            self@.contracts[contract@].shards.contains_key(shard@),
        ensures
            result == (self@.verify_full_shards
                && !self@.contracts[contract@].shards[shard@].verified),
    {
        if !self.verify_full_shards {
            return false;
        }
        match self.contracts.get(contract) {
            Some(store) => match store.shards.get(shard) {
                Some(file) => !file.verified,
                None => false,
            },
            None => false,
        }
    }

    /// Compares the digest of a shard's file with the index.
    fn record_shard_digest(&mut self, contract: &str, shard: &str, digest: &[u8; 32]) -> (result: Result<
        (),
        ShardError,
    >)
        requires
            old(self).wf(),
            old(self)@.contracts.contains_key(contract@),
            old(self)@.contracts[contract@].shards.contains_key(shard@),
        ensures
            final(self).wf(),
            final(self).cached_number() == old(self).cached_number(),
            if authentic(digest@, old(self)@.contracts[contract@].shards[shard@].checksum) {
                result is Ok && final(self)@ == old(self)@.with_verified(contract@, shard@)
            } else {
                result == Err::<(), ShardError>(ShardError::ShardMismatch) && final(self)@ == old(
                    self,
                )@
            },
    {
        let ghost before = self@;
        let slot: usize = match self.contracts.find(contract) {
            Some(slot) => slot,
            None => {
                return Err(ShardError::ShardMismatch);
            },
        };
        proof {
            self.contracts.lemma_slots();
        }
        let place: usize = match self.contracts.value(slot).shards.find(shard) {
            Some(place) => place,
            None => {
                return Err(ShardError::ShardMismatch);
            },
        };
        let file: &ShardFile = self.contracts.value(slot).shards.value(place);
        assert(before.contracts[contract@].shards[shard@] == file@);
        if !digest_matches(digest, file.checksum.as_str()) {
            return Err(ShardError::ShardMismatch);
        }
        let verified = ShardFile { size: file.size, checksum: file.checksum.clone(), verified: true };
        let ghost view = verified@;
        let empty = ContractStore { shards: Table::new(), entries: Table::new() };
        let mut store: ContractStore = self.contracts.exchange(slot, empty);
        let ghost old_store = store;
        proof {
            store.shards.lemma_slots();
        }
        store.shards.set(place, verified);
        proof {
            assert(store@.shards =~= old_store@.shards.insert(shard@, view));
            assert(store.wf()) by {
                assert forall|digest: Seq<char>| #[trigger] store@.entries.contains_key(
                    digest,
                ) implies store@.shards.contains_key(store@.entries[digest].shard)
                    && store@.entries[digest].offset + store@.entries[digest].length
                    <= store@.shards[store@.entries[digest].shard].size by {
                    assert(old_store@.entries.contains_key(digest));
                }
            }
        }
        let ghost new_view = store@;
        self.contracts.set(slot, store);
        proof {
            assert(self@.contracts =~= before.contracts.insert(contract@, new_view));
        }
        Ok(())
    }

    /// Verifies the file of a shard as a whole.
    pub fn verify_shard(&mut self, contract: &str, shard: &str, contents: &[u8]) -> (result: Result<
        (),
        ShardError,
    >)
        requires
            old(self).wf(),
            old(self)@.contracts.contains_key(contract@),
            old(self)@.contracts[contract@].shards.contains_key(shard@),
        ensures
            final(self).wf(),
            final(self).cached_number() == old(self).cached_number(),
            if authentic(
                sha256(contents@),
                old(self)@.contracts[contract@].shards[shard@].checksum,
            ) {
                result is Ok && final(self)@ == old(self)@.with_verified(contract@, shard@)
            } else {
                result == Err::<(), ShardError>(ShardError::ShardMismatch) && final(self)@ == old(
                    self,
                )@
            },
    {
        let digest: [u8; 32] = sha256_digest(contents);
        self.record_shard_digest(contract, shard, &digest)
    }

    /// Takes the tensors that were read for a group: they are counted, handed
    /// out and offered to the host cache.
    pub fn finish_group<W: Fn(u64, u16, usize) -> u64>(
        &mut self,
        tenant: &str,
        descriptors: &[Descriptor],
        ranges: &Vec<ReadRange>,
        resolved: &Vec<(usize, Arc<Vec<u8>>)>,
        output: &mut Vec<Option<Arc<Vec<u8>>>>,
        weigh: &W,
    )
        requires
            old(self).wf(),
            old(self).countable(resolved@.len() as int),
            old(self)@.batch_read_calls + ranges@.len() <= u64::MAX,
            old(self)@.batch_read_bytes + range_bytes(ranges@, ranges@.len() as int) <= u64::MAX,
            forall|r: int| 0 <= r < ranges@.len() ==> (#[trigger] ranges@[r]).start <= ranges@[r].end,
            forall|i: int|
                0 <= i < resolved@.len() ==> (#[trigger] resolved@[i]).0 < descriptors@.len(),
            old(output)@.len() == descriptors@.len(),
            forall|inflation: u64, frequency: u16, bytes: usize|
                call_requires(*weigh, (inflation, frequency, bytes)),
        ensures
            final(self).wf(),
            final(self)@ == (StoreView {
                host: final(self)@.host,
                batch_read_calls: (old(self)@.batch_read_calls + ranges@.len()) as u64,
                batch_read_bytes: (old(self)@.batch_read_bytes + range_bytes(
                    ranges@,
                    ranges@.len() as int,
                )) as u64,
                ..old(self)@
            }),
            offered(
                *weigh,
                old(self)@.host,
                tenant@,
                descriptors@,
                resolved@,
                resolved@.len() as int,
                final(self)@.host,
            ),
            output_views(final(output)@) == delivered(
                output_views(old(output)@),
                resolved@,
                resolved@.len() as int,
            ),
    {
        let ghost start = self@;
        let mut r: usize = 0;
        while r < ranges.len()
            invariant
                r <= ranges@.len(),
                self.wf(),
                self.cached_number() == old(self).cached_number(),
                start == old(self)@,
                old(self)@.batch_read_bytes + range_bytes(ranges@, ranges@.len() as int)
                    <= u64::MAX,
                forall|r: int|
                    0 <= r < ranges@.len() ==> (#[trigger] ranges@[r]).start <= ranges@[r].end,
                self@ == (StoreView {
                    batch_read_bytes: (start.batch_read_bytes + range_bytes(ranges@, r as int)) as u64,
                    ..start
                }),
                range_bytes(ranges@, r as int) >= 0,
            decreases ranges@.len() - r,
        {
            proof {
                lemma_range_bytes(ranges@, r as int + 1, ranges@.len() as int);
                assert(ranges@[r as int].start <= ranges@[r as int].end);
            }
            let bytes: u64 = ranges[r].end - ranges[r].start;
            self.batch_read_bytes = self.batch_read_bytes + bytes;
            r += 1;
        }
        self.batch_read_calls = self.batch_read_calls + ranges.len() as u64;
        let ghost host = self@.host;
        let ghost counted = self@;
        let mut i: usize = 0;
        while i < resolved.len()
            invariant
                i <= resolved@.len(),
                self.wf(),
                self.countable(resolved@.len() - i),
                self@ == (StoreView { host: self@.host, ..counted }),
                host == old(self)@.host,
                forall|i: int|
                    0 <= i < resolved@.len() ==> (#[trigger] resolved@[i]).0 < descriptors@.len(),
                output@.len() == descriptors@.len(),
                forall|inflation: u64, frequency: u16, bytes: usize|
                    call_requires(*weigh, (inflation, frequency, bytes)),
                offered(
                    *weigh,
                    host,
                    tenant@,
                    descriptors@,
                    resolved@,
                    i as int,
                    self@.host,
                ),
                output_views(output@) == delivered(output_views(old(output)@), resolved@, i as int),
            decreases resolved@.len() - i,
        {
            let ghost middle = self@.host;
            let ghost outputs = output_views(output@);
            let index: usize = resolved[i].0;
            assert(resolved@[i as int].0 < descriptors@.len());
            let payload: &Arc<Vec<u8>> = &resolved[i].1;
            output.set(index, Some(share_payload(payload)));
            assert(output_views(output@) =~= outputs.update(index as int, Some(payload@)));
            self.host_cache.put(tenant, cache_key(&descriptors[index]), share_payload(payload), weigh);
            proof {
                let count = i as int + 1;
                assert(offered(*weigh, host, tenant@, descriptors@, resolved@, count - 1, middle));
                assert(stores(
                    *weigh,
                    middle,
                    tenant@,
                    key_text(descriptors@[resolved@[count - 1].0 as int]@),
                    resolved@[count - 1].1@,
                    self@.host,
                ));
                assert(offered(*weigh, host, tenant@, descriptors@, resolved@, count, self@.host));
            }
            i += 1;
        }
    }

    /// The hits, misses, evictions and refusals of the host cache.
    pub fn host_status(&self) -> (status: (u64, u64, u64, u64))
        ensures
            status == (
                self@.host.hits,
                self@.host.misses,
                self@.host.evictions,
                self@.host.admission_rejections,
            ),
    {
        let status: HostCacheStatus = self.host_cache.status();
        (status.hits, status.misses, status.evictions, status.admission_rejections)
    }

    /// The number of tenants with a tensor in the host cache.
    pub closed spec fn tenant_number(&self) -> nat {
        self.host_cache.tenant_number()
    }

    /// The number of ranges that were read, and their bytes.
    pub fn read_status(&self) -> (status: (u64, u64))
        ensures
            status == (self@.batch_read_calls, self@.batch_read_bytes),
    {
        (self.batch_read_calls, self.batch_read_bytes)
    }

    /// All figures of the host cache.
    pub fn host_cache_status(&self) -> (status: HostCacheStatus)
        ensures
            status.capacity_bytes == self@.host.maximum_bytes,
            status.used_bytes == self@.host.current_bytes,
            status.entries == self.cached_number(),
            status.tenants == self.tenant_number(),
            status.hits == self@.host.hits,
            status.misses == self@.host.misses,
            status.evictions == self@.host.evictions,
            status.admission_rejections == self@.host.admission_rejections,
    {
        self.host_cache.status()
    }
}

impl StoreView {
    /// The store with a shard marked as verified.
    pub open spec fn with_verified(self, contract: Seq<char>, shard: Seq<char>) -> StoreView {
        let store = self.contracts[contract];
        let file = store.shards[shard];
        StoreView {
            contracts: self.contracts.insert(
                contract,
                ContractView {
                    shards: store.shards.insert(shard, ShardFileView { verified: true, ..file }),
                    ..store
                },
            ),
            ..self
        }
    }
}

/// More ranges are not fewer bytes.
proof fn lemma_range_bytes(ranges: Seq<ReadRange>, count: int, all: int)
    requires
        0 <= count <= all <= ranges.len(),
        forall|r: int| 0 <= r < ranges.len() ==> (#[trigger] ranges[r]).start <= ranges[r].end,
    ensures
        0 <= range_bytes(ranges, count) <= range_bytes(ranges, all),
    decreases all,
{
    if count < all {
        lemma_range_bytes(ranges, count, all - 1);
        assert(ranges[all - 1].start <= ranges[all - 1].end);
    } else if count > 0 {
        lemma_range_bytes(ranges, count - 1, count - 1);
        assert(ranges[count - 1].start <= ranges[count - 1].end);
    }
}

/// Whether every tensor in a host cache is good for the descriptors of its key.
pub open spec fn all_good(
    host: Map<Seq<char>, HostEntryView>,
    good: spec_fn(DescriptorView, Seq<u8>) -> bool,
) -> bool {
    forall|descriptor: DescriptorView|
        colon_free(descriptor.digest) && host.contains_key(#[trigger] key_text(descriptor)) ==> good(
            descriptor,
            host[key_text(descriptor)].payload,
        )
}

/// Whether a payload has the digest of a descriptor.
pub open spec fn has_digest() -> spec_fn(DescriptorView, Seq<u8>) -> bool {
    |descriptor: DescriptorView, payload: Seq<u8>| authentic(sha256(payload), descriptor.digest)
}

/// Whether a payload has the size of a descriptor's shape.
pub open spec fn has_size() -> spec_fn(DescriptorView, Seq<u8>) -> bool {
    |descriptor: DescriptorView, payload: Seq<u8>|
        tensor_size(descriptor.rows, descriptor.dimension, descriptor.dtype) == Ok::<int, ShardError>(
            payload.len() as int,
        )
}

/// Whether every tensor in a host cache has the digest of its key.
pub open spec fn all_authentic(host: Map<Seq<char>, HostEntryView>) -> bool {
    all_good(host, has_digest())
}

/// Whether every tensor in a host cache has the size of the shape in its key.
pub open spec fn all_sized(host: Map<Seq<char>, HostEntryView>) -> bool {
    all_good(host, has_size())
}

/// The tensors after one was offered are those from before and that one.
proof fn lemma_keeps<W: Fn(u64, u16, usize) -> u64>(
    weigh: W,
    before: HostView,
    tenant: Seq<char>,
    key: Seq<char>,
    payload: Seq<u8>,
    after: HostView,
    evictions: nat,
)
    requires
        keeps(weigh, before, tenant, key, payload, after, evictions),
    ensures
        forall|other: Seq<char>| #[trigger]
            after.entries.contains_key(other) ==> (other == key && after.entries[other].payload
                == payload) || (before.entries.contains_key(other) && after.entries[other]
                == before.entries[other]),
    decreases evictions,
{
    if evictions > 0 {
        let (rank, next) = choose|rank: u64, next: HostView|
            host_weighs(weigh, before, key, payload, rank) && #[trigger] before.steps(
                tenant,
                key,
                payload,
                rank,
                next,
                KeepStep::Evicted,
            ) && keeps(weigh, next, tenant, key, payload, after, (evictions - 1) as nat);
        lemma_keeps(weigh, next, tenant, key, payload, after, (evictions - 1) as nat);
        assert forall|other: Seq<char>| #[trigger] after.entries.contains_key(other) implies (other
            == key && after.entries[other].payload == payload) || (before.entries.contains_key(other)
            && after.entries[other] == before.entries[other]) by {
            assert(next.entries.contains_key(other) ==> before.entries.contains_key(other)
                && next.entries[other] == before.entries[other]);
        }
    }
}

/// A host cache that is offered good tensors only holds good tensors.
proof fn lemma_offers_keep<W: Fn(u64, u16, usize) -> u64>(
    weigh: W,
    before: HostView,
    tenant: Seq<char>,
    descriptors: Seq<Descriptor>,
    resolved: Seq<(usize, Arc<Vec<u8>>)>,
    count: int,
    after: HostView,
    good: spec_fn(DescriptorView, Seq<u8>) -> bool,
)
    requires
        offered(weigh, before, tenant, descriptors, resolved, count, after),
        all_good(before.entries, good),
        forall|i: int|
            0 <= i < count ==> colon_free(descriptors[(#[trigger] resolved[i]).0 as int]@.digest)
                && good(descriptors[resolved[i].0 as int]@, resolved[i].1@),
        forall|left: DescriptorView, right: DescriptorView, payload: Seq<u8>|
            left == (DescriptorView { candidate_id: left.candidate_id, ..right })
                && #[trigger] good(right, payload) ==> #[trigger] good(left, payload),
    ensures
        all_good(after.entries, good),
    decreases count,
{
    if count > 0 {
        let wanted = descriptors[resolved[count - 1].0 as int]@;
        let key = key_text(wanted);
        let payload = resolved[count - 1].1@;
        let middle = choose|middle: HostView|
            offered(weigh, before, tenant, descriptors, resolved, count - 1, middle)
                && #[trigger] stores(
                weigh,
                middle,
                tenant,
                key_text(descriptors[resolved[count - 1].0 as int]@),
                resolved[count - 1].1@,
                after,
            );
        lemma_offers_keep(
            weigh,
            before,
            tenant,
            descriptors,
            resolved,
            count - 1,
            middle,
            good,
        );
        if !(middle.maximum_bytes == 0 || payload.len() > middle.maximum_bytes) {
            let dropped = middle.dropped(key);
            let evictions = choose|evictions: nat| #[trigger]
                keeps(weigh, dropped, tenant, key, payload, after, evictions);
            lemma_keeps(weigh, dropped, tenant, key, payload, after, evictions);
            assert forall|descriptor: DescriptorView|
                colon_free(descriptor.digest) && after.entries.contains_key(
                    #[trigger] key_text(descriptor),
                ) implies good(descriptor, after.entries[key_text(descriptor)].payload) by {
                let other = key_text(descriptor);
                if other == key && after.entries[other].payload == payload {
                    assert(colon_free(wanted.digest));
                    assert(good(wanted, payload));
                    keys_tell_tensors_apart(descriptor, wanted);
                } else {
                    assert(dropped.entries.contains_key(other));
                    assert(middle.entries.contains_key(other));
                }
            }
        }
    }
}

/// A host cache that is offered authentic tensors only holds authentic tensors.
pub proof fn offers_keep_tensors_authentic<W: Fn(u64, u16, usize) -> u64>(
    weigh: W,
    before: HostView,
    tenant: Seq<char>,
    descriptors: Seq<Descriptor>,
    resolved: Seq<(usize, Arc<Vec<u8>>)>,
    count: int,
    after: HostView,
)
    requires
        offered(weigh, before, tenant, descriptors, resolved, count, after),
        all_authentic(before.entries),
        forall|i: int|
            0 <= i < count ==> colon_free(descriptors[(#[trigger] resolved[i]).0 as int]@.digest)
                && authentic(
                sha256(resolved[i].1@),
                descriptors[resolved[i].0 as int]@.digest,
            ),
    ensures
        all_authentic(after.entries),
{
    lemma_offers_keep(weigh, before, tenant, descriptors, resolved, count, after, has_digest());
}

/// A host cache that is offered tensors of the size of their shapes holds no others.
pub proof fn offers_keep_tensors_sized<W: Fn(u64, u16, usize) -> u64>(
    weigh: W,
    before: HostView,
    tenant: Seq<char>,
    descriptors: Seq<Descriptor>,
    resolved: Seq<(usize, Arc<Vec<u8>>)>,
    count: int,
    after: HostView,
)
    requires
        offered(weigh, before, tenant, descriptors, resolved, count, after),
        all_sized(before.entries),
        forall|i: int|
            0 <= i < count ==> colon_free(descriptors[(#[trigger] resolved[i]).0 as int]@.digest)
                && has_size()(descriptors[resolved[i].0 as int]@, resolved[i].1@),
    ensures
        all_sized(after.entries),
{
    lemma_offers_keep(weigh, before, tenant, descriptors, resolved, count, after, has_size());
}

/// Every wanted tensor is as long as the shape of its descriptor says.
proof fn lemma_groups_sized(
    contracts: Map<Seq<char>, ContractView>,
    host: Map<Seq<char>, HostEntryView>,
    descriptors: Seq<Descriptor>,
    count: int,
)
    requires
        0 <= count <= descriptors.len() <= usize::MAX,
        forall|i: int|
            0 <= i < descriptors.len() ==> resolvable(contracts, host, #[trigger] descriptors[i]@),
    ensures
        forall|g: int, i: int|
            0 <= g < groups_of(contracts, host, descriptors, count).len() && 0 <= i < groups_of(
                contracts,
                host,
                descriptors,
                count,
            )[g].items.len() ==> wanted_size(
                descriptors,
                #[trigger] groups_of(contracts, host, descriptors, count)[g].items[i],
            ),
    decreases count,
{
    if count > 0 {
        lemma_groups_sized(contracts, host, descriptors, count - 1);
        let before = groups_of(contracts, host, descriptors, count - 1);
        let after = groups_of(contracts, host, descriptors, count);
        let descriptor = descriptors[count - 1]@;
        if !host.contains_key(key_text(descriptor)) {
            let place = located(contracts, descriptor)->Ok_0;
            assert(resolvable(contracts, host, descriptors[count - 1]@));
            lemma_group_at(before, descriptor.contract, place.shard);
            assert forall|g: int, i: int| 0 <= g < after.len() && 0 <= i < after[g].items.len() implies wanted_size(
                descriptors,
                #[trigger] after[g].items[i],
            ) by {
                if g < before.len() && i < before[g].items.len() {
                    assert(after[g].items[i] == before[g].items[i]);
                    assert(wanted_size(descriptors, before[g].items[i]));
                }
            }
        }
    }
}

/// Whether a wanted tensor is as long as the shape of its descriptor says.
pub open spec fn wanted_size(descriptors: Seq<Descriptor>, item: ReadItem) -> bool {
    let descriptor = descriptors[item.index as int]@;
    item.index < descriptors.len() && tensor_size(
        descriptor.rows,
        descriptor.dimension,
        descriptor.dtype,
    ) == Ok::<int, ShardError>(item.length as int)
}

/// Every tensor that is cut out of the ranges of a plan has the size of the shape
/// that was asked for.
pub proof fn read_tensors_are_sized(
    contracts: Map<Seq<char>, ContractView>,
    host: Map<Seq<char>, HostEntryView>,
    descriptors: Seq<Descriptor>,
    group: ReadGroup,
    g: int,
    r: int,
    bytes: Seq<u8>,
    i: int,
    payload: (usize, Arc<Vec<u8>>),
)
    requires
        descriptors.len() <= usize::MAX,
        forall|i: int|
            0 <= i < descriptors.len() ==> resolvable(contracts, host, #[trigger] descriptors[i]@),
        0 <= g < groups_of(contracts, host, descriptors, descriptors.len() as int).len(),
        reads_of(group, groups_of(contracts, host, descriptors, descriptors.len() as int)[g]),
        readable(group, contracts, descriptors.len() as int),
        0 <= r < group.ranges@.len(),
        bytes.len() == group.ranges@[r].end - group.ranges@[r].start,
        0 <= i < group.ranges@[r].items@.len(),
        cut_out(group.ranges@[r]@, bytes, descriptors, i, payload),
    ensures
        has_size()(descriptors[payload.0 as int]@, payload.1@),
{
    let wanted = groups_of(contracts, host, descriptors, descriptors.len() as int)[g];
    let ranges = range_views(group.ranges@);
    let item = group.ranges@[r].items@[i];
    lemma_groups_sized(contracts, host, descriptors, descriptors.len() as int);
    let sorted = choose|sorted: Seq<ReadItem>|
        in_file_order(sorted) && sorted.to_multiset() == wanted.items.to_multiset() && ranges
            == #[trigger] ranges_of(sorted);
    lemma_ranges_keep(sorted);
    assert(ranges[r].items[i] == item);
    lemma_range_items(ranges, r, i);
    assert(sorted.contains(item));
    sorted.to_multiset_ensures();
    wanted.items.to_multiset_ensures();
    assert(sorted.to_multiset().count(item) > 0);
    assert(wanted.items.contains(item));
    let at = choose|at: int| 0 <= at < wanted.items.len() && wanted.items[at] == item;
    assert(wanted_size(descriptors, wanted.items[at]));
    assert(group.ranges@[r]@.holds());
    assert(group.ranges@[r]@.items[i] == item);
}

/// The ranges hold the tensors, one after the other.
proof fn lemma_ranges_keep(items: Seq<ReadItem>)
    ensures
        read_items(ranges_of(items)) == items,
    decreases items.len(),
{
    if items.len() > 0 {
        lemma_ranges_keep(items.drop_last());
        let before = ranges_of(items.drop_last());
        let after = ranges_of(items);
        let item = items.last();
        assert(items =~= items.drop_last().push(item));
        if before.len() > 0 && before.last().joins(item) {
            assert(after.drop_last() =~= before.drop_last());
            assert(read_items(after) =~= read_items(before).push(item));
        } else {
            assert(after.drop_last() =~= before);
            assert(read_items(after) =~= read_items(before).push(item));
        }
    }
}

/// A tensor that the host cache hands out has the digest that was asked for, and
/// looking tensors up keeps this so.
pub proof fn lookups_give_authentic_tensors<W: Fn(u64, u16, usize) -> u64>(
    weigh: W,
    before: HostView,
    after: HostView,
    descriptors: Seq<Descriptor>,
    count: int,
    descriptor: DescriptorView,
    output: Option<Arc<Vec<u8>>>,
)
    requires
        all_authentic(before.entries),
        looked_up(weigh, before, after, descriptors, count),
        colon_free(descriptor.digest),
        known(before.entries, descriptor, output),
    ensures
        all_authentic(after.entries),
        match output {
            Some(payload) => authentic(sha256(payload@), descriptor.digest),
            None => true,
        },
{
    assert forall|other: DescriptorView|
        colon_free(other.digest) && after.entries.contains_key(#[trigger] key_text(other)) implies authentic(
        sha256(after.entries[key_text(other)].payload),
        other.digest,
    ) by {
        assert(after.entries.dom().contains(key_text(other)));
        assert(before.entries.contains_key(key_text(other)));
        assert(has_digest()(other, before.entries[key_text(other)].payload));
    }
    if output is Some {
        assert(has_digest()(descriptor, before.entries[key_text(descriptor)].payload));
    }
}

/// A tensor that the host cache hands out has the size of the shape that was asked
/// for, and looking tensors up keeps this so.
pub proof fn lookups_give_sized_tensors<W: Fn(u64, u16, usize) -> u64>(
    weigh: W,
    before: HostView,
    after: HostView,
    descriptors: Seq<Descriptor>,
    count: int,
    descriptor: DescriptorView,
    output: Option<Arc<Vec<u8>>>,
)
    requires
        all_sized(before.entries),
        looked_up(weigh, before, after, descriptors, count),
        colon_free(descriptor.digest),
        known(before.entries, descriptor, output),
    ensures
        all_sized(after.entries),
        match output {
            Some(payload) => has_size()(descriptor, payload@),
            None => true,
        },
{
    assert forall|other: DescriptorView|
        colon_free(other.digest) && after.entries.contains_key(#[trigger] key_text(other)) implies has_size()(
        other,
        after.entries[key_text(other)].payload,
    ) by {
        assert(after.entries.dom().contains(key_text(other)));
        assert(before.entries.contains_key(key_text(other)));
    }
}

} // verus!
