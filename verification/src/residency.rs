//! What holds of the tensors of a request while they are in use.

use crate::cache::{
    admission_keeps_used_entries, admits, Admission, AdmissionRequestView, CacheView, EntryView,
};
use crate::engine::{
    admitted, all_tensors, answers, candidate_keys, chunk_run, hit_device, hit_plan, in_use, is_first,
    lemma_hit_device, let_go_all, misses_on, no_tensors, pages_for, planned_use, takes, takes_anyway,
    tries, turn, uses, EngineView, HitPlanView, MissingTensor, ResidentView,
};
use crate::protocol::{Descriptor, ScoringProfile};
use crate::tensors::EngineError;
use vstd::prelude::*;

verus! {

/// Whether a tensor has its pages on its device, and is in use there.
pub open spec fn holds_pages(caches: Seq<CacheView>, tensor: ResidentView) -> bool {
    let device = tensor.device as int;
    &&& device < caches.len()
    &&& caches[device].entries.contains_key(tensor.key)
    &&& caches[device].entries[tensor.key].offset == tensor.offset
    &&& caches[device].entries[tensor.key].rows == tensor.rows
    &&& caches[device].entries[tensor.key].references > 0
}

/// A round over the devices leaves the tensors that are in use where they are,
/// and gives the asked-for one its pages.
proof fn lemma_tries<W: Fn(u64, u16, usize) -> u64>(
    weigh: W,
    caches: Seq<CacheView>,
    next: int,
    request: AdmissionRequestView,
    step: int,
    count: int,
    after: Seq<CacheView>,
    found: Option<(int, u64)>,
)
    requires
        tries(weigh, caches, next, request, step, count, after, found),
        caches.len() == count,
        0 <= next < count,
        0 <= step,
    ensures
        after.len() == caches.len(),
        forall|tensor: ResidentView|
            tensor.key != request.key && #[trigger] holds_pages(caches, tensor) ==> holds_pages(
                after,
                tensor,
            ),
        match found {
            Some((device, offset)) => {
                &&& 0 <= device < count
                &&& after[device].entries.contains_key(request.key)
                &&& after[device].entries[request.key].offset == offset
                &&& after[device].entries[request.key].rows == request.rows
                &&& after[device].entries[request.key].references == 1
                &&& !after[device].entries[request.key].ready
            },
            None => true,
        },
    decreases count - step,
{
    if step < count {
        let device = turn(next, step, count);
        let (cache, admission) = choose|cache: CacheView, admission: Admission| #[trigger]
            answers(weigh, caches[device], request, cache, admission) && match admission {
                Admission::Admitted { offset, .. } => found == Some((device, offset)) && after
                    == caches.update(device, cache),
                _ => tries(
                    weigh,
                    caches.update(device, cache),
                    next,
                    request,
                    step + 1,
                    count,
                    after,
                    found,
                ),
            };
        let evictions = choose|evictions: nat| #[trigger]
            admits(weigh, caches[device], request, cache, admission, evictions);
        admission_keeps_used_entries(weigh, caches[device], request, cache, admission, evictions);
        let updated = caches.update(device, cache);
        assert forall|tensor: ResidentView|
            tensor.key != request.key && #[trigger] holds_pages(caches, tensor) implies holds_pages(
            updated,
            tensor,
        ) by {
            if tensor.device == device {
                assert(caches[device].entries.contains_key(tensor.key));
                assert(cache.entries.contains_key(tensor.key));
            }
        }
        match admission {
            Admission::Admitted { .. } => {},
            _ => {
                lemma_tries(weigh, updated, next, request, step + 1, count, after, found);
            },
        }
    }
}

/// Taking a tensor leaves the other tensors that are in use where they are.
pub(crate) proof fn lemma_takes<W: Fn(u64, u16, usize) -> u64>(
    weigh: W,
    before: EngineView,
    tenant: Seq<char>,
    tensor: MissingTensor,
    first: bool,
    after: EngineView,
    placed: Option<ResidentView>,
)
    requires
        takes(weigh, before, tenant, tensor, first, after, placed),
        0 <= before.next_device < before.caches.len() <= usize::MAX,
    ensures
        after.caches.len() == before.caches.len(),
        0 <= after.next_device < after.caches.len(),
        forall|other: ResidentView|
            other.key != tensor.key@ && #[trigger] holds_pages(before.caches, other) ==> holds_pages(
                after.caches,
                other,
            ),
        match placed {
            Some(placed) => placed.key == tensor.key@ && placed.candidate_index
                == tensor.candidate_index && holds_pages(after.caches, placed),
            None => true,
        },
{
    let count = before.caches.len() as int;
    lemma_hit_device(before.caches, before.caches, tensor.key@, 0);
    match hit_device(before.caches, tensor.key@, 0) {
        Some(device) => {
            assert forall|other: ResidentView|
                other.key != tensor.key@ && #[trigger] holds_pages(
                    before.caches,
                    other,
                ) implies holds_pages(after.caches, other) by {}
        },
        None => {
            let request = pages_for(tenant, tensor, false, false);
            let (middle, found) = choose|middle: Seq<CacheView>, found: Option<(int, u64)>| #[trigger]
                tries(
                    weigh,
                    before.caches,
                    before.next_device,
                    request,
                    0,
                    count,
                    middle,
                    found,
                ) && match found {
                    Some((device, offset)) => placed == Some(
                        admitted(tensor, device, offset, false),
                    ) && after == (EngineView {
                        caches: middle,
                        next_device: turn(device, 1, count),
                    }),
                    None => if first {
                        takes_anyway(weigh, before, middle, tenant, tensor, after, placed)
                    } else {
                        placed is None && after == (EngineView { caches: middle, ..before })
                    },
                };
            lemma_tries(
                weigh,
                before.caches,
                before.next_device,
                request,
                0,
                count,
                middle,
                found,
            );
            if found is None && first {
                let forced = pages_for(tenant, tensor, false, true);
                let (last, second) = choose|last: Seq<CacheView>, found: Option<(int, u64)>| #[trigger]
                    tries(
                        weigh,
                        middle,
                        before.next_device,
                        forced,
                        0,
                        count,
                        last,
                        found,
                    ) && match found {
                        Some((device, offset)) => placed == Some(
                            admitted(tensor, device, offset, true),
                        ) && after == (EngineView {
                            caches: last,
                            next_device: turn(device, 1, count),
                        }),
                        None => placed is None && after == (EngineView { caches: last, ..before }),
                    };
                lemma_tries(weigh, middle, before.next_device, forced, 0, count, last, second);
            }
        },
    }
}

/// Whether the first `count` tensors have different keys.
pub open spec fn keys_differ(pending: Seq<MissingTensor>, count: int) -> bool {
    forall|i: int, j: int|
        0 <= i < j < count ==> (#[trigger] pending[i]).key@ != (#[trigger] pending[j]).key@
}

/// Whether a tensor of a chunk is one of the first `count` pending ones.
pub open spec fn is_pending(pending: Seq<MissingTensor>, count: int, tensor: ResidentView) -> bool {
    exists|i: int|
        0 <= i < count && (#[trigger] pending[i]).key@ == tensor.key && pending[i].candidate_index
            == tensor.candidate_index
}

/// The tensors of a chunk keep their pages while the rest of the chunk is taken:
/// once it is complete, every tensor is at the place that was noted for it, on
/// the device of its list, and in use. This needs the tensors to have different
/// keys, as the candidates that repeat no other have.
pub proof fn chunk_tensors_keep_their_pages<W: Fn(u64, u16, usize) -> u64>(
    weigh: W,
    start: EngineView,
    tenant: Seq<char>,
    pending: Seq<MissingTensor>,
    count: int,
    state: EngineView,
    chunks: Seq<Seq<ResidentView>>,
)
    requires
        chunk_run(weigh, start, tenant, pending, count, state, chunks),
        0 <= count <= pending.len(),
        0 <= start.next_device < start.caches.len() <= usize::MAX,
        keys_differ(pending, count),
    ensures
        state.caches.len() == start.caches.len(),
        0 <= state.next_device < state.caches.len(),
        chunks.len() == start.caches.len(),
        forall|d: int, i: int|
            0 <= d < chunks.len() && 0 <= i < chunks[d].len() ==> (#[trigger] chunks[d][i]).device
                == d && holds_pages(state.caches, chunks[d][i]) && is_pending(
                pending,
                count,
                chunks[d][i],
            ),
    decreases count,
{
    if count > 0 {
        let (middle, tensor) = choose|middle: EngineView, tensor: ResidentView| #[trigger]
            takes(weigh, middle, tenant, pending[count - 1], is_first(count), state, Some(tensor)) && {
                let device = tensor.device as int;
                &&& device < chunks.len()
                &&& chunks[device].len() > 0
                &&& chunks[device].last() == tensor
                &&& chunk_run(
                    weigh,
                    start,
                    tenant,
                    pending,
                    count - 1,
                    middle,
                    chunks.update(device, chunks[device].drop_last()),
                )
            };
        let device = tensor.device as int;
        let earlier = chunks.update(device, chunks[device].drop_last());
        assert forall|i: int, j: int| 0 <= i < j < count - 1 implies (#[trigger] pending[i]).key@ != (
        #[trigger] pending[j]).key@ by {}
        chunk_tensors_keep_their_pages(weigh, start, tenant, pending, count - 1, middle, earlier);
        lemma_takes(
            weigh,
            middle,
            tenant,
            pending[count - 1],
            is_first(count),
            state,
            Some(tensor),
        );
        assert forall|d: int, i: int| 0 <= d < chunks.len() && 0 <= i < chunks[d].len() implies (
        #[trigger] chunks[d][i]).device == d && holds_pages(state.caches, chunks[d][i]) && is_pending(
            pending,
            count,
            chunks[d][i],
        ) by {
            if d == device && i == chunks[d].len() - 1 {
                assert(chunks[d][i] == tensor);
                assert(pending[count - 1].key@ == tensor.key);
            } else {
                assert(earlier[d][i] == chunks[d][i]);
                let other = chunks[d][i];
                assert(is_pending(pending, count - 1, other));
                let k = choose|k: int|
                    0 <= k < count - 1 && (#[trigger] pending[k]).key@ == other.key
                        && pending[k].candidate_index == other.candidate_index;
                assert(pending[k].key@ != pending[count - 1].key@);
                assert(holds_pages(middle.caches, other));
            }
        }
    } else {
        assert forall|d: int, i: int| 0 <= d < chunks.len() && 0 <= i < chunks[d].len() implies (
        #[trigger] chunks[d][i]).device == d && holds_pages(state.caches, chunks[d][i]) && is_pending(
            pending,
            count,
            chunks[d][i],
        ) by {
            assert(no_tensors(start.caches.len())[d].len() == 0);
        }
    }
}

/// How often a key occurs among the tensors of a device.
pub open spec fn uses_on(tensors: Seq<ResidentView>, device: int, key: Seq<char>) -> nat
    decreases tensors.len(),
{
    if tensors.len() == 0 {
        0
    } else {
        uses_on(tensors.drop_last(), device, key) + if tensors.last().device == device
            && tensors.last().key == key {
            1nat
        } else {
            0nat
        }
    }
}

/// Whether two caches differ in the references to their entries at most, and
/// there they differ by the uses among `tensors`.
pub open spec fn relieved(
    before: CacheView,
    after: CacheView,
    tensors: Seq<ResidentView>,
    device: int,
) -> bool {
    &&& after == (CacheView { entries: after.entries, ..before })
    &&& after.entries.dom() == before.entries.dom()
    &&& forall|key: Seq<char>| #[trigger]
        after.entries.contains_key(key) ==> after.entries[key] == (EntryView {
            references: after.entries[key].references,
            ..before.entries[key]
        }) && after.entries[key].references + uses_on(tensors, device, key)
            == before.entries[key].references
}

/// Whether the tensors are not there for the time being, and every use of an
/// entry among them is one of the entry's references.
pub open spec fn covered(caches: Seq<CacheView>, tensors: Seq<ResidentView>) -> bool {
    &&& forall|i: int|
        0 <= i < tensors.len() ==> !(#[trigger] tensors[i]).transient && tensors[i].device
            < caches.len() && caches[tensors[i].device as int].entries.contains_key(
            tensors[i].key,
        )
    &&& forall|device: int, key: Seq<char>|
        0 <= device < caches.len() && caches[device].entries.contains_key(key) ==> caches[device].entries[key].references
            >= #[trigger] uses_on(tensors, device, key)
}

/// Tensors that are in use can be let go, and each entry loses as many references
/// as it had uses among them.
pub proof fn tensors_in_use_can_be_let_go(caches: Seq<CacheView>, tensors: Seq<ResidentView>)
    requires
        covered(caches, tensors),
    ensures
        let_go_all(caches, tensors, None).1 is None,
        let_go_all(caches, tensors, None).0.len() == caches.len(),
        forall|d: int|
            0 <= d < caches.len() ==> relieved(
                caches[d],
                #[trigger] let_go_all(caches, tensors, None).0[d],
                tensors,
                d,
            ),
    decreases tensors.len(),
{
    if tensors.len() > 0 {
        let rest = tensors.drop_last();
        let tensor = tensors.last();
        let at = tensor.device as int;
        assert(tensors[tensors.len() - 1] == tensor);
        assert forall|i: int| 0 <= i < rest.len() implies !(#[trigger] rest[i]).transient
            && rest[i].device < caches.len() && caches[rest[i].device as int].entries.contains_key(
            rest[i].key,
        ) by {
            assert(rest[i] == tensors[i]);
        }
        assert forall|device: int, key: Seq<char>|
            0 <= device < caches.len() && caches[device].entries.contains_key(
                key,
            ) implies caches[device].entries[key].references >= #[trigger] uses_on(rest, device, key) by {
            assert(uses_on(tensors, device, key) >= uses_on(rest, device, key));
        }
        tensors_in_use_can_be_let_go(caches, rest);
        let middle = let_go_all(caches, rest, None).0;
        let after = let_go_all(caches, tensors, None).0;
        assert(relieved(caches[at], middle[at], rest, at));
        assert(middle[at].entries.dom().contains(tensor.key));
        assert(uses_on(tensors, at, tensor.key) == uses_on(rest, at, tensor.key) + 1);
        assert(middle[at].entries.contains_key(tensor.key));
        assert(middle[at].entries[tensor.key].references > 0);
        assert forall|d: int| 0 <= d < caches.len() implies relieved(
            caches[d],
            #[trigger] after[d],
            tensors,
            d,
        ) by {
            assert(relieved(caches[d], middle[d], rest, d));
            assert(after[d].entries.dom() =~= caches[d].entries.dom());
            assert forall|key: Seq<char>| #[trigger] after[d].entries.contains_key(key) implies after[d].entries[key]
                == (EntryView {
                references: after[d].entries[key].references,
                ..caches[d].entries[key]
            }) && after[d].entries[key].references + uses_on(tensors, d, key)
                == caches[d].entries[key].references by {
                assert(middle[d].entries.contains_key(key));
            }
        }
    }
}

/// The tensors of all devices use what those of each device use.
proof fn lemma_uses_on(chunks: Seq<Seq<ResidentView>>, device: int, key: Seq<char>)
    requires
        forall|c: int, i: int|
            0 <= c < chunks.len() && 0 <= i < chunks[c].len() ==> (#[trigger] chunks[c][i]).device
                == c,
        0 <= device,
    ensures
        uses_on(all_tensors(chunks), device, key) == if device < chunks.len() {
            uses(chunks[device], key)
        } else {
            0
        },
    decreases chunks.len(),
{
    if chunks.len() > 0 {
        let front = chunks.drop_last();
        assert forall|c: int, i: int| 0 <= c < front.len() && 0 <= i < front[c].len() implies (
        #[trigger] front[c][i]).device == c by {
            assert(front[c][i] == chunks[c][i]);
        }
        lemma_uses_on(front, device, key);
        lemma_uses_on_add(all_tensors(front), chunks.last(), device, key);
        let last = chunks.last();
        assert forall|i: int| 0 <= i < last.len() implies (#[trigger] last[i]).device == chunks.len()
            - 1 by {
            assert(chunks[chunks.len() - 1][i] == last[i]);
        }
        lemma_uses_on_one(last, chunks.len() - 1, device, key);
    }
}

proof fn lemma_uses_on_add(
    left: Seq<ResidentView>,
    right: Seq<ResidentView>,
    device: int,
    key: Seq<char>,
)
    ensures
        uses_on(left + right, device, key) == uses_on(left, device, key) + uses_on(
            right,
            device,
            key,
        ),
    decreases right.len(),
{
    if right.len() > 0 {
        lemma_uses_on_add(left, right.drop_last(), device, key);
        assert((left + right).drop_last() =~= left + right.drop_last());
    } else {
        assert(left + right =~= left);
    }
}

proof fn lemma_uses_on_one(chunk: Seq<ResidentView>, home: int, device: int, key: Seq<char>)
    requires
        forall|i: int| 0 <= i < chunk.len() ==> (#[trigger] chunk[i]).device == home,
    ensures
        uses_on(chunk, device, key) == if device == home {
            uses(chunk, key)
        } else {
            0
        },
    decreases chunk.len(),
{
    if chunk.len() > 0 {
        let rest = chunk.drop_last();
        assert forall|i: int| 0 <= i < rest.len() implies (#[trigger] rest[i]).device == home by {
            assert(rest[i] == chunk[i]);
        }
        assert(chunk[chunk.len() - 1].device == home);
        lemma_uses_on_one(rest, home, device, key);
    }
}

/// What a plan says of its resident candidates: each is in the list of its
/// device, loaded there, and not there for the time being.
proof fn lemma_plan_hits(
    caches: Seq<CacheView>,
    candidates: Seq<Descriptor>,
    profile: ScoringProfile,
    contract: Option<Seq<char>>,
    count: int,
)
    requires
        0 <= count <= candidates.len(),
        caches.len() <= usize::MAX,
        hit_plan(caches, candidates, profile, contract, count) is Ok,
    ensures
        ({
            let hits = (hit_plan(caches, candidates, profile, contract, count)->Ok_0).hits;
            &&& hits.len() == caches.len()
            &&& forall|d: int, i: int|
                0 <= d < hits.len() && 0 <= i < hits[d].len() ==> (#[trigger] hits[d][i]).device == d
                    && !hits[d][i].transient && caches[d].entries.contains_key(hits[d][i].key)
        }),
    decreases count,
{
    if count > 0 {
        lemma_plan_hits(caches, candidates, profile, contract, count - 1);
        let before = (hit_plan(caches, candidates, profile, contract, count - 1)->Ok_0).hits;
        let after = (hit_plan(caches, candidates, profile, contract, count)->Ok_0).hits;
        let key = candidate_keys(candidates, profile, contract)[count - 1];
        lemma_hit_device(caches, caches, key, 0);
        assert forall|d: int, i: int| 0 <= d < after.len() && 0 <= i < after[d].len() implies (
        #[trigger] after[d][i]).device == d && !after[d][i].transient
            && caches[d].entries.contains_key(after[d][i].key) by {
            if i < before[d].len() {
                assert(before[d][i] == after[d][i]);
            }
        }
    }
}

/// The tensors of all devices are those of one device or another.
proof fn lemma_member(chunks: Seq<Seq<ResidentView>>, at: int) -> (place: (int, int))
    requires
        0 <= at < all_tensors(chunks).len(),
    ensures
        0 <= place.0 < chunks.len(),
        0 <= place.1 < chunks[place.0].len(),
        chunks[place.0][place.1] == all_tensors(chunks)[at],
    decreases chunks.len(),
{
    let front = all_tensors(chunks.drop_last());
    if at < front.len() {
        let place = lemma_member(chunks.drop_last(), at);
        (place.0, place.1)
    } else {
        (chunks.len() - 1, at - front.len())
    }
}

/// Releasing the resident candidates of a request undoes what looking them up did
/// to the references: it succeeds, and every entry has as many references as
/// before the request.
pub proof fn release_undoes_lookup(
    before: Seq<CacheView>,
    after: Seq<CacheView>,
    next_device: int,
    candidates: Seq<Descriptor>,
    profile: ScoringProfile,
    contract: Option<Seq<char>>,
    plan: HitPlanView,
)
    requires
        before.len() <= usize::MAX,
        hit_plan(before, candidates, profile, contract, candidates.len() as int) == Ok::<
            HitPlanView,
            EngineError,
        >(plan),
        planned_use(before, after, next_device, plan),
    ensures
        ({
            let (caches, fault) = let_go_all(after, all_tensors(plan.hits), None);
            &&& fault is None
            &&& caches.len() == before.len()
            &&& forall|d: int, key: Seq<char>|
                0 <= d < caches.len() && (#[trigger] caches[d].entries.contains_key(key))
                    ==> before[d].entries.contains_key(key) && caches[d].entries[key] == (EntryView {
                    rank: caches[d].entries[key].rank,
                    ..before[d].entries[key]
                })
        }),
{
    lemma_plan_hits(before, candidates, profile, contract, candidates.len() as int);
    let tensors = all_tensors(plan.hits);
    assert(covered(after, tensors)) by {
        assert forall|i: int| 0 <= i < tensors.len() implies !(#[trigger] tensors[i]).transient
            && tensors[i].device < after.len() && after[tensors[i].device as int].entries.contains_key(
            tensors[i].key,
        ) by {
            let (d, at) = lemma_member(plan.hits, i);
            assert(plan.hits[d][at] == tensors[i]);
            assert(in_use(before[d], after[d], plan.hits[d], misses_on(d, next_device, plan)));
            assert(after[d].entries.dom().contains(tensors[i].key));
        }
        assert forall|device: int, key: Seq<char>|
            0 <= device < after.len() && after[device].entries.contains_key(
                key,
            ) implies after[device].entries[key].references >= #[trigger] uses_on(
            tensors,
            device,
            key,
        ) by {
            lemma_uses_on(plan.hits, device, key);
            assert(in_use(
                before[device],
                after[device],
                plan.hits[device],
                misses_on(device, next_device, plan),
            ));
        }
    }
    tensors_in_use_can_be_let_go(after, tensors);
    let caches = let_go_all(after, tensors, None).0;
    assert forall|d: int, key: Seq<char>|
        0 <= d < caches.len() && (#[trigger] caches[d].entries.contains_key(key)) implies before[d].entries.contains_key(
        key,
    ) && caches[d].entries[key] == (EntryView {
        rank: caches[d].entries[key].rank,
        ..before[d].entries[key]
    }) by {
        assert(relieved(after[d], caches[d], tensors, d));
        assert(in_use(before[d], after[d], plan.hits[d], misses_on(d, next_device, plan)));
        assert(after[d].entries.dom().contains(key));
        assert(before[d].entries.dom().contains(key));
        assert(after[d].entries.contains_key(key));
        lemma_uses_on(plan.hits, d, key);
    }
}

} // verus!
