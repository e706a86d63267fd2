//! Lists of scores, each score as the bits of its single-precision form.

use crate::protocol::finite32;
use vstd::prelude::*;

verus! {

/// Whether all scores are finite.
pub open spec fn all_finite(scores: Seq<u32>) -> bool {
    forall|i: int| 0 <= i < scores.len() ==> finite32(#[trigger] scores[i])
}

/// Tests whether all scores are finite.
pub fn finite_scores(scores: &[u32]) -> (result: bool)
    ensures
        result == all_finite(scores@),
{
    let mut i: usize = 0;
    while i < scores.len()
        invariant
            i <= scores@.len(),
            forall|j: int| 0 <= j < i ==> finite32(#[trigger] scores@[j]),
        decreases scores@.len() - i,
    {
        if (scores[i] / 0x80_0000) % 256 == 255 {
            assert(!finite32(scores@[i as int]));
            return false;
        }
        i += 1;
    }
    true
}

/// The rows of a flat list of scores: as many whole rows as there are.
pub fn split_scores(flat: &[u32], width: usize) -> (rows: Vec<Vec<u32>>)
    requires
        width > 0,
    ensures
        rows@.len() == flat@.len() / width as nat,
        forall|r: int|
            0 <= r < rows@.len() ==> (#[trigger] rows@[r])@ == flat@.subrange(
                r * width,
                (r + 1) * width,
            ),
{
    let mut rows: Vec<Vec<u32>> = Vec::new();
    let count: usize = flat.len() / width;
    let ghost total = flat@.len() as int;
    let ghost wide = width as int;
    assert(count * wide <= total) by (nonlinear_arith)
        requires
            count == total / wide,
            wide > 0,
    ;
    let mut from: usize = 0;
    assert(0 * wide == 0) by (nonlinear_arith);
    while rows.len() < count
        invariant
            width > 0,
            wide == width,
            total == flat@.len(),
            rows@.len() <= count,
            count * wide <= total,
            from == rows@.len() * wide,
            forall|r: int|
                0 <= r < rows@.len() ==> (#[trigger] rows@[r])@ == flat@.subrange(
                    r * wide,
                    (r + 1) * wide,
                ),
        decreases count - rows@.len(),
    {
        let ghost done = rows@.len() as int;
        assert((done + 1) * wide <= count * wide) by (nonlinear_arith)
            requires
                done + 1 <= count,
                wide > 0,
        ;
        assert((done + 1) * wide == done * wide + wide) by (nonlinear_arith);
        assert(flat.len() == flat@.len());
        let row: Vec<u32> = vstd::slice::slice_to_vec(
            vstd::slice::slice_subrange(flat, from, from + width),
        );
        rows.push(row);
        from = from + width;
    }
    rows
}

/// Whether two rows have the same length and agree number by number.
pub open spec fn rows_agree<C: Fn(u32, u32) -> bool>(close: C, left: Seq<u32>, right: Seq<u32>) -> bool {
    left.len() == right.len() && forall|i: int|
        0 <= i < left.len() ==> call_ensures(close, (#[trigger] left[i], right[i]), true)
}

/// Whether two rows differ: in length, or in a number.
pub open spec fn rows_differ<C: Fn(u32, u32) -> bool>(close: C, left: Seq<u32>, right: Seq<u32>) -> bool {
    left.len() != right.len() || exists|i: int|
        0 <= i < left.len() && call_ensures(close, (#[trigger] left[i], right[i]), false)
}

fn rows_close<C: Fn(u32, u32) -> bool>(left: &Vec<u32>, right: &Vec<u32>, close: &C) -> (result: bool)
    requires
        forall|a: u32, b: u32| call_requires(*close, (a, b)),
    ensures
        if result {
            rows_agree(*close, left@, right@)
        } else {
            rows_differ(*close, left@, right@)
        },
{
    if left.len() != right.len() {
        return false;
    }
    let mut i: usize = 0;
    while i < left.len()
        invariant
            i <= left@.len(),
            left@.len() == right@.len(),
            forall|a: u32, b: u32| call_requires(*close, (a, b)),
            forall|j: int| 0 <= j < i ==> call_ensures(*close, (#[trigger] left@[j], right@[j]), true),
        decreases left@.len() - i,
    {
        let same: bool = close(left[i], right[i]);
        if !same {
            assert(call_ensures(*close, (left@[i as int], right@[i as int]), false));
            return false;
        }
        i += 1;
    }
    true
}

/// Tests whether two batches of scores agree, where `close` says whether two
/// scores do.
pub fn batch_scores_close<C: Fn(u32, u32) -> bool>(
    left: &Vec<Vec<u32>>,
    right: &Vec<Vec<u32>>,
    close: &C,
) -> (result: bool)
    requires
        forall|a: u32, b: u32| call_requires(*close, (a, b)),
    ensures
        if result {
            left@.len() == right@.len() && forall|i: int|
                0 <= i < left@.len() ==> rows_agree(*close, (#[trigger] left@[i])@, right@[i]@)
        } else {
            left@.len() != right@.len() || exists|i: int|
                0 <= i < left@.len() && rows_differ(*close, (#[trigger] left@[i])@, right@[i]@)
        },
{
    if left.len() != right.len() {
        return false;
    }
    let mut i: usize = 0;
    while i < left.len()
        invariant
            i <= left@.len(),
            left@.len() == right@.len(),
            forall|a: u32, b: u32| call_requires(*close, (a, b)),
            forall|j: int|
                0 <= j < i ==> rows_agree(*close, (#[trigger] left@[j])@, right@[j]@),
        decreases left@.len() - i,
    {
        if !rows_close(&left[i], &right[i], close) {
            assert(rows_differ(*close, left@[i as int]@, right@[i as int]@));
            return false;
        }
        i += 1;
    }
    true
}

} // verus!
