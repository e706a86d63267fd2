//! The scores of a request's candidates. A score is carried as the bits of its
//! single-precision form.

use crate::cache::CacheView;
use crate::engine::{
    candidate_keys, chunk_view, first_index, hit_plan, lemma_first_index, HitPlanView, ResidentTensor,
    ResidentView,
};
use crate::protocol::{Descriptor, ScoringProfile};
use crate::tensors::EngineError;
use vstd::prelude::*;

verus! {

/// The scores after the first `count` tensors of a chunk got theirs.
pub open spec fn recorded(
    scores: Seq<Option<u32>>,
    chunk: Seq<ResidentView>,
    computed: Seq<u32>,
    count: int,
) -> Seq<Option<u32>>
    decreases count,
{
    if count <= 0 {
        scores
    } else {
        recorded(scores, chunk, computed, count - 1).update(
            chunk[count - 1].candidate_index as int,
            Some(computed[count - 1]),
        )
    }
}

/// How many tensors of a chunk got a score.
pub open spec fn scored(chunk: nat, computed: nat) -> int {
    if chunk < computed {
        chunk as int
    } else {
        computed as int
    }
}

/// Notes the scores that a device computed for its chunk.
pub fn record_scores(scores: &mut Vec<Option<u32>>, chunk: &Vec<ResidentTensor>, computed: &[u32])
    requires
        forall|i: int|
            0 <= i < chunk@.len() ==> (#[trigger] chunk@[i]).candidate_index < old(scores)@.len(),
    ensures
        final(scores)@ == recorded(
            old(scores)@,
            chunk_view(chunk@),
            computed@,
            scored(chunk@.len(), computed@.len()),
        ),
        final(scores)@.len() == old(scores)@.len(),
{
    let mut i: usize = 0;
    while i < chunk.len() && i < computed.len()
        invariant
            i <= chunk@.len(),
            i <= computed@.len(),
            scores@.len() == old(scores)@.len(),
            forall|i: int|
                0 <= i < chunk@.len() ==> (#[trigger] chunk@[i]).candidate_index < old(
                    scores,
                )@.len(),
            scores@ == recorded(old(scores)@, chunk_view(chunk@), computed@, i as int),
        decreases chunk@.len() - i,
    {
        let index: usize = chunk[i].candidate_index;
        assert(chunk@[i as int].candidate_index < old(scores)@.len());
        assert(chunk_view(chunk@)[i as int].candidate_index == index);
        scores.set(index, Some(computed[i]));
        i += 1;
    }
}

/// The scores after the first `count` repeated candidates got those of the
/// candidates that they repeat.
pub open spec fn spread(scores: Seq<Option<u32>>, duplicates: Seq<(int, int)>, count: int) -> Seq<
    Option<u32>,
>
    decreases count,
{
    if count <= 0 {
        scores
    } else {
        let before = spread(scores, duplicates, count - 1);
        before.update(duplicates[count - 1].0, before[duplicates[count - 1].1])
    }
}

/// The pairs of a list as numbers.
pub open spec fn pair_views(pairs: Seq<(usize, usize)>) -> Seq<(int, int)> {
    Seq::new(pairs.len(), |i: int| (pairs[i].0 as int, pairs[i].1 as int))
}

/// Whether a pair is a candidate with its score.
pub open spec fn answered(candidate: Descriptor, score: Option<u32>, pair: (u32, u32)) -> bool {
    score == Some(pair.1) && pair.0 == candidate.candidate_id
}

/// The answer to a request: every candidate with its score. A repeated candidate
/// has the score of the candidate that it repeats.
pub fn finish_scores(
    candidates: &[Descriptor],
    scores: &mut Vec<Option<u32>>,
    duplicates: &Vec<(usize, usize)>,
) -> (result: Result<Vec<(u32, u32)>, EngineError>)
    requires
        old(scores)@.len() == candidates@.len(),
        forall|i: int|
            0 <= i < duplicates@.len() ==> (#[trigger] duplicates@[i]).0 < candidates@.len()
                && duplicates@[i].1 < candidates@.len(),
    ensures
        ({
            let all = spread(
                old(scores)@,
                pair_views(duplicates@),
                duplicates@.len() as int,
            );
            &&& final(scores)@ == all
            &&& match result {
                Ok(answer) => answer@.len() == candidates@.len() && forall|i: int|
                    0 <= i < answer@.len() ==> answered(candidates@[i], all[i], #[trigger] answer@[i]),
                Err(error) => error == EngineError::MissingResult && exists|i: int|
                    0 <= i < candidates@.len() && #[trigger] all[i] is None,
            }
        }),
{
    let mut i: usize = 0;
    let ghost pairs = pair_views(duplicates@);
    while i < duplicates.len()
        invariant
            i <= duplicates@.len(),
            pairs == pair_views(duplicates@),
            scores@.len() == candidates@.len(),
            forall|i: int|
                0 <= i < duplicates@.len() ==> (#[trigger] duplicates@[i]).0 < candidates@.len()
                    && duplicates@[i].1 < candidates@.len(),
            scores@ == spread(old(scores)@, pairs, i as int),
        decreases duplicates@.len() - i,
    {
        assert(duplicates@[i as int].0 < candidates@.len());
        let (duplicate, first): (usize, usize) = duplicates[i];
        assert(pairs[i as int] == (duplicate as int, first as int));
        let score: Option<u32> = scores[first];
        scores.set(duplicate, score);
        i += 1;
    }
    let mut answer: Vec<(u32, u32)> = Vec::new();
    let mut i: usize = 0;
    while i < candidates.len()
        invariant
            i <= candidates@.len(),
            scores@.len() == candidates@.len(),
            answer@.len() == i,
            scores@ == spread(old(scores)@, pair_views(duplicates@), duplicates@.len() as int),
            forall|j: int|
                0 <= j < i ==> answered(candidates@[j], scores@[j], #[trigger] answer@[j]),
        decreases candidates@.len() - i,
    {
        match scores[i] {
            Some(score) => {
                answer.push((candidates[i].candidate_id, score));
            },
            None => {
                assert(scores@[i as int] is None);
                return Err(EngineError::MissingResult);
            },
        }
        i += 1;
    }
    Ok(answer)
}

/// What a plan does with the scores: a candidate that repeats another has the
/// score of the first one with its key, any other keeps its own.
proof fn lemma_spread(
    caches: Seq<CacheView>,
    candidates: Seq<Descriptor>,
    profile: ScoringProfile,
    contract: Option<Seq<char>>,
    count: int,
    scores: Seq<Option<u32>>,
)
    requires
        0 <= count <= candidates.len(),
        hit_plan(caches, candidates, profile, contract, count) is Ok,
        scores.len() == candidates.len(),
    ensures
        ({
            let keys = candidate_keys(candidates, profile, contract);
            let duplicates = (hit_plan(caches, candidates, profile, contract, count)->Ok_0).duplicates;
            let all = spread(scores, duplicates, duplicates.len() as int);
            &&& all.len() == scores.len()
            &&& forall|i: int| count <= i < all.len() ==> #[trigger] all[i] == scores[i]
            &&& forall|i: int|
                0 <= i < count ==> #[trigger] all[i] == match first_index(keys, keys[i], i) {
                    Some(first) => scores[first],
                    None => scores[i],
                }
            &&& forall|k: int|
                0 <= k < duplicates.len() ==> 0 <= (#[trigger] duplicates[k]).0 < count && 0
                    <= duplicates[k].1 < count
        }),
    decreases count,
{
    if count > 0 {
        lemma_spread(caches, candidates, profile, contract, count - 1, scores);
        let keys = candidate_keys(candidates, profile, contract);
        let before = (hit_plan(caches, candidates, profile, contract, count - 1)->Ok_0).duplicates;
        let after = (hit_plan(caches, candidates, profile, contract, count)->Ok_0).duplicates;
        let old_scores = spread(scores, before, before.len() as int);
        let index = count - 1;
        lemma_first_index(keys, keys[index], index);
        match first_index(keys, keys[index], index) {
            Some(first) => {
                assert(after == before.push((index, first)));
                lemma_spread_prefix(scores, before, after, before.len() as int);
                lemma_first_is_first(keys, keys[index], index);
                assert(old_scores[first] == scores[first]);
            },
            None => {
                assert(after == before);
            },
        }
    }
}

/// The first pairs alone decide the first steps.
proof fn lemma_spread_prefix(
    scores: Seq<Option<u32>>,
    shorter: Seq<(int, int)>,
    longer: Seq<(int, int)>,
    count: int,
)
    requires
        count <= shorter.len() <= longer.len(),
        forall|i: int| 0 <= i < shorter.len() ==> #[trigger] longer[i] == shorter[i],
    ensures
        spread(scores, shorter, count) == spread(scores, longer, count),
    decreases count,
{
    if count > 0 {
        lemma_spread_prefix(scores, shorter, longer, count - 1);
        assert(longer[count - 1] == shorter[count - 1]);
    }
}

/// Where a key first occurs, no earlier key is the same.
pub(crate) proof fn lemma_first_is_first(keys: Seq<Seq<char>>, key: Seq<char>, count: int)
    requires
        0 <= count <= keys.len(),
        first_index(keys, key, count) is Some,
    ensures
        first_index(keys, key, first_index(keys, key, count)->0) is None,
    decreases count,
{
    if count > 0 && first_index(keys, key, count - 1) is Some {
        lemma_first_is_first(keys, key, count - 1);
    }
}

/// Candidates with the same tensor get the same score, and a candidate whose
/// tensor is the first of its kind keeps the score that was computed for it.
pub proof fn equal_tensors_get_equal_scores(
    caches: Seq<CacheView>,
    candidates: Seq<Descriptor>,
    profile: ScoringProfile,
    contract: Option<Seq<char>>,
    plan: HitPlanView,
    scores: Seq<Option<u32>>,
    left: int,
    right: int,
)
    requires
        hit_plan(caches, candidates, profile, contract, candidates.len() as int) == Ok::<
            HitPlanView,
            EngineError,
        >(plan),
        scores.len() == candidates.len(),
        0 <= left < candidates.len(),
        0 <= right < candidates.len(),
    ensures
        ({
            let keys = candidate_keys(candidates, profile, contract);
            let all = spread(scores, plan.duplicates, plan.duplicates.len() as int);
            &&& keys[left] == keys[right] ==> all[left] == all[right]
            &&& first_index(keys, keys[left], left) is None ==> all[left] == scores[left]
        }),
{
    let keys = candidate_keys(candidates, profile, contract);
    lemma_spread(caches, candidates, profile, contract, candidates.len() as int, scores);
    if keys[left] == keys[right] {
        let key = keys[left];
        if left <= right {
            lemma_same_first(keys, key, left, right);
        } else {
            lemma_same_first(keys, key, right, left);
        }
    }
}

/// Two occurrences of a key have the same first occurrence.
proof fn lemma_same_first(keys: Seq<Seq<char>>, key: Seq<char>, left: int, right: int)
    requires
        0 <= left <= right < keys.len(),
        keys[left] == key,
        keys[right] == key,
    ensures
        left < right ==> first_index(keys, key, right) == Some(
            match first_index(keys, key, left) {
                Some(first) => first,
                None => left,
            },
        ),
    decreases right - left,
{
    if left < right {
        if left + 1 == right {
        } else {
            lemma_first_grows(keys, key, left + 1, right);
        }
    }
}

/// Once a key has occurred, its first occurrence is settled.
proof fn lemma_first_grows(keys: Seq<Seq<char>>, key: Seq<char>, count: int, more: int)
    requires
        0 <= count <= more <= keys.len(),
        first_index(keys, key, count) is Some,
    ensures
        first_index(keys, key, more) == first_index(keys, key, count),
    decreases more,
{
    if count < more {
        lemma_first_grows(keys, key, count, more - 1);
    }
}

/// Every score that was computed for a tensor of a chunk is noted for the tensor's own
/// candidate, where no candidate has two tensors in the chunk, and no other score changes.
pub proof fn computed_scores_are_noted(
    scores: Seq<Option<u32>>,
    chunk: Seq<ResidentView>,
    computed: Seq<u32>,
    count: int,
)
    requires
        0 <= count <= chunk.len(),
        forall|i: int|
            0 <= i < chunk.len() ==> (#[trigger] chunk[i]).candidate_index < scores.len(),
        forall|i: int, j: int|
            0 <= i < j < chunk.len() ==> (#[trigger] chunk[i]).candidate_index != (
            #[trigger] chunk[j]).candidate_index,
    ensures
        recorded(scores, chunk, computed, count).len() == scores.len(),
        forall|i: int|
            0 <= i < count ==> recorded(scores, chunk, computed, count)[(
            #[trigger] chunk[i]).candidate_index as int] == Some(computed[i]),
        forall|c: int|
            0 <= c < scores.len() && (forall|i: int|
                0 <= i < count ==> (#[trigger] chunk[i]).candidate_index != c)
                ==> #[trigger] recorded(scores, chunk, computed, count)[c] == scores[c],
    decreases count,
{
    if count > 0 {
        computed_scores_are_noted(scores, chunk, computed, count - 1);
        assert(chunk[count - 1].candidate_index < scores.len());
    }
}

/// A chunk gets as many scores as it has tensors, where so many were computed.
pub proof fn every_tensor_of_a_chunk_is_scored(chunk: nat, computed: nat)
    ensures
        scored(chunk, computed) == vstd::math::min(chunk as int, computed as int),
{
}

} // verus!
