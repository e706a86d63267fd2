//! Immutable shards: their indexes, how they are read, and what is kept of them.

use sha2::{Digest, Sha256};
use std::sync::Arc;
use tilemaxsim::protocol::Descriptor;
use tilemaxsim::reads::{
    digest_matches, range_payloads, ranges_per_worker, read_ranges, sort_reads, ReadItem,
};
use tilemaxsim::shard::{
    cache_key, check_shard, open_contract, tensor_bytes, ContractStore, RawEntry, RawIndex,
    RawShard, ShardError, StoreError,
};
use tilemaxsim::shard_store::{collect_outputs, ShardStore};

fn weigh(inflation: u64, frequency: u16, bytes: usize) -> u64 {
    (f64::from_bits(inflation) + f64::from(frequency) / bytes.max(1) as f64).to_bits()
}

fn payload(seed: u8) -> Vec<u8> {
    (0..16).map(|i| seed.wrapping_mul(31).wrapping_add(i)).collect()
}

fn digest(bytes: &[u8]) -> String {
    hex::encode(Sha256::digest(bytes))
}

/// A shard of three tensors with a gap before the last one.
fn contents() -> Vec<u8> {
    let mut bytes = payload(1);
    bytes.extend(payload(2));
    bytes.extend([0; 32]);
    bytes.extend(payload(3));
    bytes
}

fn shard_name() -> String {
    format!("shards/sha256-{}.vts", digest(&contents()))
}

fn entry(seed: u8, offset: u64) -> RawEntry {
    RawEntry {
        digest: digest(&payload(seed)),
        shard: shard_name(),
        offset,
        length: 16,
        rows: 2,
        dimension: 4,
        dtype: "float16".to_owned(),
    }
}

fn index() -> RawIndex {
    RawIndex {
        format: "vectorchord.tilemaxsim.shards".to_owned(),
        version: 1,
        alignment: 16,
        shards: vec![RawShard {
            name: shard_name(),
            size: 80,
            checksum: format!("sha256:{}", digest(&contents())),
        }],
        entries: vec![entry(1, 0), entry(2, 16), entry(3, 64)],
    }
}

fn opened() -> Result<ContractStore, StoreError> {
    open_contract("/shards", &index(), &[Some(80)])
}

fn store(host_bytes: usize, verify: bool) -> ShardStore {
    let roots = vec![("model@1".to_owned(), "/shards".to_owned())];
    ShardStore::open(roots, vec![opened()], host_bytes, 100, verify).unwrap()
}

fn descriptor(candidate_id: u32, seed: u8) -> Descriptor {
    Descriptor {
        candidate_id,
        contract: "model@1".to_owned(),
        digest: digest(&payload(seed)),
        rows: 2,
        dimension: 4,
        dtype: 2,
    }
}

#[test]
fn indexes_are_checked() {
    let refused = |index: &RawIndex, size: Option<u64>| {
        let sizes = vec![size; index.shards.len()];
        match open_contract("/shards", index, &sizes).err() {
            Some(StoreError::Shard(error)) => Some(error),
            _ => None,
        }
    };
    assert!(opened().is_ok());
    let mut other = index();
    other.version = 2;
    assert_eq!(refused(&other, Some(80)), Some(ShardError::UnsupportedIndex));
    let mut other = index();
    other.alignment = 0;
    assert_eq!(refused(&other, Some(80)), Some(ShardError::Alignment));
    let mut other = index();
    other.shards[0].checksum = "md5:xyz".to_owned();
    assert_eq!(check_shard(&other.shards[0]).err(), Some(ShardError::ShardChecksum));
    assert_eq!(refused(&other, Some(80)), Some(ShardError::ShardChecksum));
    let mut other = index();
    other.shards[0].name = "../shard".to_owned();
    assert_eq!(refused(&other, Some(80)), Some(ShardError::ShardName));
    assert_eq!(refused(&index(), Some(81)), Some(ShardError::ShardSize));
    let mut other = index();
    let again = RawShard {
        name: shard_name(),
        size: 80,
        checksum: other.shards[0].checksum.clone(),
    };
    other.shards.push(again);
    assert_eq!(refused(&other, Some(80)), Some(ShardError::DuplicateShard));
    let mut other = index();
    other.entries[0].dtype = "int4".to_owned();
    assert_eq!(refused(&other, Some(80)), Some(ShardError::EntryDtype));
    let mut other = index();
    other.entries[0].shard = "shard-9.bin".to_owned();
    assert_eq!(refused(&other, Some(80)), Some(ShardError::UnknownShard));
    let mut other = index();
    other.entries[2].offset = 72;
    assert_eq!(refused(&other, Some(80)), Some(ShardError::EntryRange));
    let mut other = index();
    other.entries.push(entry(1, 0));
    assert_eq!(refused(&other, Some(80)), Some(ShardError::DuplicateEntry));
    assert_eq!(ShardError::ShardSize.message(), "immutable shard size mismatch");
}

#[test]
fn stores_need_contracts_with_indexes() {
    assert_eq!(
        ShardStore::open(Vec::new(), Vec::new(), 0, 100, false).err(),
        Some(StoreError::NoContract)
    );
    let root = ("model@1".to_owned(), "/shards".to_owned());
    assert_eq!(
        ShardStore::open(vec![root.clone(), root], vec![opened(), opened()], 0, 100, false).err(),
        Some(StoreError::InvalidContract("model@1".to_owned()))
    );
    let mut store = store(1000, false);
    let unreadable = StoreError::Unreadable("/shards/tilemaxsim-shards-v1.json".to_owned());
    assert_eq!(store.reload(vec![Err(unreadable.clone())]), Err(unreadable));
    assert_eq!(store.reload(vec![opened()]), Ok(()));
    assert_eq!(store.roots()[0].1, "/shards");
}

#[test]
fn store_errors_name_the_contract_or_the_path() {
    let names = ["", "model@1", "a \"quoted\" name", "tab\t", "caf\u{e9}\u{7f}"];
    for name in names {
        let root = (name.to_owned(), "/shards".to_owned());
        let roots = vec![root.clone(), root];
        let error = ShardStore::open(roots, vec![opened(), opened()], 0, 100, false).err().unwrap();
        assert_eq!(error.message(), format!("invalid or duplicate model contract {name:?}"));
    }
    let invalid = StoreError::InvalidContract("model@1".to_owned());
    assert_eq!(invalid.message(), "invalid or duplicate model contract \"model@1\"");
    for (root, path) in [("/shards", "/shards/"), ("/shards/", "/shards/"), ("", "")] {
        let error = open_contract(root, &index(), &[None]).err().unwrap();
        assert_eq!(error, StoreError::Unreadable(format!("{path}{}", shard_name())));
        assert_eq!(
            error.message(),
            format!("cannot open immutable shard path {path}{}", shard_name())
        );
    }
    assert_eq!(
        StoreError::NoContract.message(),
        "at least one immutable shard contract is required"
    );
    assert_eq!(StoreError::System("no space".to_owned()).message(), "no space");
    assert_eq!(
        StoreError::Shard(ShardError::InvalidIndex).message(),
        "invalid immutable shard index"
    );
}

#[test]
fn a_reload_keeps_the_names_of_the_contracts() {
    let mut store = store(1000, false);
    let mut fewer = index();
    fewer.entries.truncate(1);
    store.reload(vec![open_contract("/shards", &fewer, &[Some(80)])]).unwrap();
    assert!(store.resolve_many(&[descriptor(1, 1)], &weigh).is_ok());
    assert_eq!(
        store.resolve_many(&[descriptor(1, 2)], &weigh).err(),
        Some(ShardError::MissingTensor)
    );
}

#[test]
fn keys_and_sizes_are_exact() {
    let tensor = descriptor(1, 1);
    assert_eq!(cache_key(&tensor), format!("model@1:{}:2:4:2", tensor.digest));
    assert_eq!(tensor_bytes(2, 4, 2), Ok(16));
    assert_eq!(tensor_bytes(2, 4, 1), Ok(32));
    assert_eq!(tensor_bytes(2, 4, 3), Err(ShardError::UnsupportedDtype));
}

#[test]
fn reads_are_sorted_and_joined() {
    let items = vec![
        ReadItem { index: 0, offset: 200_000_000, length: 10 },
        ReadItem { index: 1, offset: 50, length: 10 },
        ReadItem { index: 2, offset: 0, length: 20 },
    ];
    let sorted = sort_reads(&items);
    assert_eq!(sorted.iter().map(|item| item.index).collect::<Vec<_>>(), [2, 1, 0]);
    let ranges = read_ranges(&sorted);
    assert_eq!(ranges.len(), 2);
    assert_eq!((ranges[0].start, ranges[0].end), (0, 60));
    assert_eq!((ranges[1].start, ranges[1].end), (200_000_000, 200_000_010));
    assert_eq!(ranges_per_worker(3), 1);
    assert_eq!(ranges_per_worker(17), 3);
    let hash: [u8; 32] = Sha256::digest(b"abc").into();
    assert!(digest_matches(&hash, &digest(b"abc")));
    assert!(!digest_matches(&hash, &digest(b"abd")));
}

#[test]
fn tensors_are_resolved_read_and_kept() {
    let mut store = store(1000, false);
    let wanted = [descriptor(7, 3), descriptor(8, 1), descriptor(9, 3)];
    let mut plan = store.resolve_many(&wanted, &weigh).unwrap();
    assert_eq!(plan.groups.len(), 1);
    let group = &plan.groups[0];
    assert_eq!((group.contract.as_str(), group.shard.as_str()), ("model@1", shard_name().as_str()));
    assert_eq!(group.ranges.len(), 1);
    assert_eq!((group.ranges[0].start, group.ranges[0].end), (0, 80));
    assert_eq!(collect_outputs(&plan.output).err(), Some(ShardError::NoPayload));
    let resolved = range_payloads(&group.ranges[0], &contents(), &wanted).unwrap();
    store.finish_group("tenant", &wanted, &plan.groups[0].ranges, &resolved, &mut plan.output, &weigh);
    let payloads = collect_outputs(&plan.output).unwrap();
    assert_eq!(*payloads[0], payload(3));
    assert_eq!(*payloads[1], payload(1));
    assert_eq!(*payloads[2], payload(3));
    assert_eq!(store.read_status(), (1, 80));
    assert_eq!(store.host_cache_status().entries, 2);

    let again = store.resolve_many(&wanted, &weigh).unwrap();
    assert!(again.groups.is_empty());
    assert_eq!(*again.output[0].clone().unwrap(), payload(3));
    assert!(store.host_status().0 >= 3);
}

#[test]
fn altered_tensors_are_refused() {
    let mut store = store(1000, false);
    let wanted = [descriptor(7, 2)];
    let plan = store.resolve_many(&wanted, &weigh).unwrap();
    let range = &plan.groups[0].ranges[0];
    assert_eq!((range.start, range.end), (16, 32));
    let mut bytes = payload(2);
    bytes[5] ^= 1;
    assert_eq!(range_payloads(range, &bytes, &wanted).err(), Some(ShardError::TensorChecksum));
    let good: Vec<(usize, Arc<Vec<u8>>)> = range_payloads(range, &payload(2), &wanted).unwrap();
    assert_eq!(good[0].0, 0);
}

#[test]
fn unknown_tensors_are_refused() {
    let mut store = store(1000, false);
    let resolve = |store: &mut ShardStore, wanted: Descriptor| {
        store.resolve_many(&[wanted], &weigh).err()
    };
    let other = Descriptor { contract: "model@2".to_owned(), ..descriptor(1, 1) };
    assert_eq!(resolve(&mut store, other), Some(ShardError::UnknownContract));
    assert_eq!(resolve(&mut store, descriptor(1, 9)), Some(ShardError::MissingTensor));
    let other = Descriptor { rows: 3, ..descriptor(1, 1) };
    assert_eq!(resolve(&mut store, other), Some(ShardError::DescriptorMismatch));
}

#[test]
fn shards_are_verified_once() {
    let mut store = store(1000, true);
    assert!(store.needs_verification("model@1", shard_name().as_str()));
    assert_eq!(
        store.verify_shard("model@1", &shard_name(), b"other"),
        Err(ShardError::ShardMismatch)
    );
    assert!(store.needs_verification("model@1", shard_name().as_str()));
    store.verify_shard("model@1", &shard_name(), &contents()).unwrap();
    assert!(!store.needs_verification("model@1", shard_name().as_str()));
    store.verify_shard("model@1", &shard_name(), &contents()).unwrap();
}
