//! The fixed-block arena that a device cache allocates from.
//!
//! The arena is cut into runs of blocks, each used or free, that follow each
//! other without gaps. Two free runs never touch: a release joins them.

use vstd::prelude::*;

verus! {

/// A run of blocks.
#[derive(Clone, Copy, Debug, PartialEq, Eq, Structural)]
pub struct Run {
    pub start: usize,
    pub blocks: usize,
    pub used: bool,
}

/// The block after a run.
pub open spec fn run_end(run: Run) -> int {
    run.start + run.blocks
}

/// The run after run `index` begins where that run ends, and one of the two is
/// used.
pub open spec fn joined(runs: Seq<Run>, index: int) -> bool {
    &&& run_end(runs[index]) == runs[index + 1].start
    &&& runs[index].used || runs[index + 1].used
}

/// The runs cut up an arena of `count` blocks.
pub open spec fn tiles(runs: Seq<Run>, count: int) -> bool {
    &&& runs.len() > 0
    &&& runs[0].start == 0
    &&& run_end(runs.last()) == count
    &&& forall|i: int| 0 <= i < runs.len() ==> (#[trigger] runs[i]).blocks > 0
    &&& forall|i: int| 0 <= i < runs.len() - 1 ==> #[trigger] joined(runs, i)
}

/// The free blocks of the first `count` runs.
pub open spec fn free_before(runs: Seq<Run>, count: int) -> int
    decreases count,
{
    if count <= 0 {
        0
    } else {
        free_before(runs, count - 1) + if runs[count - 1].used {
            0
        } else {
            runs[count - 1].blocks as int
        }
    }
}

/// The used blocks of the first `count` runs.
pub open spec fn used_before(runs: Seq<Run>, count: int) -> int
    decreases count,
{
    if count <= 0 {
        0
    } else {
        used_before(runs, count - 1) + if runs[count - 1].used {
            runs[count - 1].blocks as int
        } else {
            0
        }
    }
}

/// Whether a run is free and holds `required` blocks.
pub open spec fn fits(run: Run, required: int) -> bool {
    !run.used && run.blocks >= required
}

/// Whether run `index` is the smallest that fits, and the first of those.
pub open spec fn best_fit(runs: Seq<Run>, required: int, index: int) -> bool {
    &&& 0 <= index < runs.len()
    &&& fits(runs[index], required)
    &&& forall|j: int|
        0 <= j < runs.len() && fits(#[trigger] runs[j], required) ==> runs[index].blocks
            < runs[j].blocks || (runs[index].blocks == runs[j].blocks && index <= j)
}

/// The run that an allocation of `required` blocks is cut from.
pub open spec fn fit_index(runs: Seq<Run>, required: int) -> int {
    choose|index: int| best_fit(runs, required, index)
}

/// Whether run `index` is used and begins at block `start`.
pub open spec fn begins_at(runs: Seq<Run>, start: int, index: int) -> bool {
    0 <= index < runs.len() && runs[index].used && runs[index].start == start
}

/// The used run that begins at block `start`.
pub open spec fn run_index(runs: Seq<Run>, start: int) -> int {
    choose|index: int| begins_at(runs, start, index)
}

/// The runs after the first `required` blocks of free run `index` are taken.
pub open spec fn taken(runs: Seq<Run>, index: int, required: usize) -> Seq<Run> {
    let run = runs[index];
    let head = Run { start: run.start, blocks: required, used: true };
    if run.blocks == required {
        runs.update(index, head)
    } else {
        let tail = Run {
            start: (run.start + required) as usize,
            blocks: (run.blocks - required) as usize,
            used: false,
        };
        runs.update(index, head).insert(index + 1, tail)
    }
}

/// The first run of the free run that a release of run `index` leaves.
pub open spec fn join_from(runs: Seq<Run>, index: int) -> int {
    if index > 0 && !runs[index - 1].used {
        index - 1
    } else {
        index
    }
}

/// The run after the free run that a release of run `index` leaves.
pub open spec fn join_to(runs: Seq<Run>, index: int) -> int {
    if index + 1 < runs.len() && !runs[index + 1].used {
        index + 2
    } else {
        index + 1
    }
}

/// The runs after run `index` is released and joined with its free neighbours.
pub open spec fn freed(runs: Seq<Run>, index: int) -> Seq<Run> {
    let from = join_from(runs, index);
    let to = join_to(runs, index);
    let run = Run {
        start: runs[from].start,
        blocks: (run_end(runs[to - 1]) - runs[from].start) as usize,
        used: false,
    };
    runs.take(from).push(run) + runs.skip(to)
}

/// A run ends no later than a later run begins.
pub proof fn lemma_in_order(runs: Seq<Run>, count: int, i: int, j: int)
    requires
        tiles(runs, count),
        0 <= i < j < runs.len(),
    ensures
        run_end(runs[i]) <= runs[j].start,
        run_end(runs[j]) <= count,
    decreases runs.len() - i + j,
{
    assert(joined(runs, j - 1));
    if i < j - 1 {
        lemma_in_order(runs, count, i, j - 1);
    }
    lemma_within(runs, count, j);
}

/// Every run lies within the arena.
pub proof fn lemma_within(runs: Seq<Run>, count: int, i: int)
    requires
        tiles(runs, count),
        0 <= i < runs.len(),
    ensures
        run_end(runs[i]) <= count,
    decreases runs.len() - i,
{
    if i < runs.len() - 1 {
        assert(joined(runs, i));
        lemma_within(runs, count, i + 1);
    }
}

/// The free and the used blocks before a run add up to its start.
proof fn lemma_totals(runs: Seq<Run>, count: int, i: int)
    requires
        tiles(runs, count),
        0 <= i < runs.len(),
    ensures
        free_before(runs, i) + used_before(runs, i) == runs[i].start,
        free_before(runs, i + 1) + used_before(runs, i + 1) == run_end(runs[i]),
    decreases i,
{
    if i > 0 {
        lemma_totals(runs, count, i - 1);
        assert(joined(runs, i - 1));
    }
    let run = runs[i];
    assert(free_before(runs, i + 1) == free_before(runs, i) + if run.used {
        0
    } else {
        run.blocks as int
    });
    assert(used_before(runs, i + 1) == used_before(runs, i) + if run.used {
        run.blocks as int
    } else {
        0
    });
}

/// Free and used blocks add up to the arena.
pub proof fn free_and_used_fill_the_arena(runs: Seq<Run>, count: int)
    requires
        tiles(runs, count),
    ensures
        free_before(runs, runs.len() as int) + used_before(runs, runs.len() as int) == count,
{
    lemma_totals(runs, count, runs.len() - 1);
}

/// Totals depend on the runs they count alone.
proof fn lemma_same_totals(left: Seq<Run>, right: Seq<Run>, count: int)
    requires
        count <= left.len(),
        count <= right.len(),
        forall|i: int| 0 <= i < count ==> left[i] == right[i],
    ensures
        free_before(left, count) == free_before(right, count),
        used_before(left, count) == used_before(right, count),
    decreases count,
{
    if count > 0 {
        lemma_same_totals(left, right, count - 1);
    }
}

/// Totals of equal runs at different places grow alike.
proof fn lemma_shifted_totals(left: Seq<Run>, right: Seq<Run>, from: int, shift: int, more: int)
    requires
        0 <= from,
        0 <= from + shift,
        0 <= more,
        from + more <= left.len(),
        from + shift + more <= right.len(),
        forall|i: int| from <= i < from + more ==> #[trigger] left[i] == right[i + shift],
    ensures
        free_before(left, from + more) - free_before(left, from) == free_before(
            right,
            from + shift + more,
        ) - free_before(right, from + shift),
    decreases more,
{
    if more > 0 {
        lemma_shifted_totals(left, right, from, shift, more - 1);
        assert(left[from + more - 1] == right[from + more - 1 + shift]);
    }
}

/// Taking blocks of a free run leaves the arena cut up, with as many free
/// blocks fewer.
pub proof fn lemma_taken(runs: Seq<Run>, count: int, index: int, required: usize)
    requires
        tiles(runs, count),
        0 <= index < runs.len(),
        fits(runs[index], required as int),
        required > 0,
        count <= usize::MAX,
    ensures
        tiles(taken(runs, index, required), count),
        free_before(taken(runs, index, required), taken(runs, index, required).len() as int)
            == free_before(runs, runs.len() as int) - required,
{
    let after = taken(runs, index, required);
    let run = runs[index];
    lemma_within(runs, count, index);
    lemma_same_totals(runs, after, index);
    if run.blocks == required {
        assert forall|i: int| 0 <= i < after.len() - 1 implies #[trigger] joined(after, i) by {
            assert(joined(runs, i));
        }
        lemma_shifted_totals(runs, after, index + 1, 0, runs.len() - index - 1);
    } else {
        assert forall|i: int| 0 <= i < after.len() - 1 implies #[trigger] joined(after, i) by {
            if i < index {
                assert(joined(runs, i));
            } else if i > index {
                assert(joined(runs, i - 1));
            }
        }
        assert forall|i: int| 0 <= i < after.len() implies (#[trigger] after[i]).blocks > 0 by {
            if i > index + 1 {
                assert(runs[i - 1].blocks > 0);
            } else if i < index {
                assert(runs[i].blocks > 0);
            }
        }
        lemma_shifted_totals(runs, after, index + 1, 1, runs.len() - index - 1);
        assert(free_before(after, index + 2) == free_before(runs, index) + run.blocks - required) by {
            assert(free_before(after, index + 1) == free_before(after, index));
        }
    }
    assert(free_before(runs, index + 1) == free_before(runs, index) + run.blocks);
}

/// Releasing a used run leaves the arena cut up, with as many free blocks more.
proof fn lemma_freed(runs: Seq<Run>, count: int, index: int)
    requires
        tiles(runs, count),
        0 <= index < runs.len(),
        runs[index].used,
        count <= usize::MAX,
    ensures
        tiles(freed(runs, index), count),
        free_before(freed(runs, index), freed(runs, index).len() as int) == free_before(
            runs,
            runs.len() as int,
        ) + runs[index].blocks,
        runs[join_from(runs, index)].start <= runs[index].start,
        run_end(runs[index]) <= run_end(runs[join_to(runs, index) - 1]) <= count,
{
    let after = freed(runs, index);
    let from = join_from(runs, index);
    let to = join_to(runs, index);
    lemma_within(runs, count, index);
    lemma_within(runs, count, to - 1);
    if from < index {
        assert(joined(runs, from));
    }
    if to > index + 1 {
        assert(joined(runs, index));
    }
    assert forall|i: int| 0 <= i < after.len() implies (#[trigger] after[i]).blocks > 0 by {
        if i < from {
            assert(after[i] == runs[i]);
        } else if i > from {
            assert(after[i] == runs[to + i - from - 1]);
        } else {
            assert(runs[from].blocks > 0);
            assert(runs[index].blocks > 0);
        }
    }
    assert forall|i: int| 0 <= i < after.len() - 1 implies #[trigger] joined(after, i) by {
        if i < from {
            assert(joined(runs, i));
            assert(after[i] == runs[i]);
            if i + 1 < from {
                assert(after[i + 1] == runs[i + 1]);
            } else {
                // The run before a free run is used.
                if from < index {
                    assert(!runs[from].used);
                }
            }
        } else if i == from {
            assert(after[i + 1] == runs[to]);
            assert(joined(runs, to - 1));
        } else {
            assert(after[i] == runs[to + i - from - 1]);
            assert(after[i + 1] == runs[to + i - from]);
            assert(joined(runs, to + i - from - 1));
        }
    }
    if from == 0 {
        assert(runs[0].start == 0);
        assert(after[0].start == 0);
    } else {
        assert(after[0] == runs[0]);
    }
    if to < runs.len() {
        assert(after.last() == runs.last());
    }
    lemma_same_totals(runs, after, from);
    assert forall|i: int| to <= i < runs.len() implies #[trigger] runs[i] == after[i + (from + 1 - to)] by {}
    lemma_shifted_totals(runs, after, to, from + 1 - to, runs.len() - to);
    assert(free_before(after, from + 1) == free_before(after, from) + after[from].blocks);
    lemma_join_total(runs, index);
}

/// The free blocks among the runs that a release joins.
proof fn lemma_join_total(runs: Seq<Run>, index: int)
    requires
        0 <= index < runs.len(),
        runs[index].used,
    ensures
        ({
            let from = join_from(runs, index);
            let to = join_to(runs, index);
            free_before(runs, to) == free_before(runs, from) + if from < index {
                runs[from].blocks as int
            } else {
                0
            } + if to > index + 1 {
                runs[index + 1].blocks as int
            } else {
                0
            }
        }),
{
    let from = join_from(runs, index);
    let to = join_to(runs, index);
    assert(free_before(runs, index + 1) == free_before(runs, index));
    if from < index {
        assert(free_before(runs, index) == free_before(runs, from) + runs[from].blocks);
    }
    if to > index + 1 {
        assert(free_before(runs, to) == free_before(runs, index + 1) + runs[index + 1].blocks);
    }
}

/// Releasing what was just allocated leaves the arena as it was.
pub proof fn release_undoes_allocate(runs: Seq<Run>, count: int, index: int, required: usize)
    requires
        tiles(runs, count),
        count <= usize::MAX,
        best_fit(runs, required as int, index),
        required > 0,
    ensures
        taken(runs, index, required)[index].used,
        freed(taken(runs, index, required), index) == runs,
{
    let during = taken(runs, index, required);
    lemma_within(runs, count, index);
    if index > 0 {
        assert(joined(runs, index - 1));
        assert(during[index - 1] == runs[index - 1]);
    }
    if index < runs.len() - 1 {
        assert(joined(runs, index));
    }
    assert(freed(during, index) =~= runs);
}

/// A release does not touch the other allocations, and frees the run: it cannot
/// be released again.
pub proof fn release_frees_one_run(runs: Seq<Run>, count: int, index: int, run: Run)
    requires
        tiles(runs, count),
        count <= usize::MAX,
        0 <= index < runs.len(),
        runs[index].used,
        run.used,
    ensures
        freed(runs, index).contains(run) <==> runs.contains(run) && run != runs[index],
        run.start == runs[index].start ==> !freed(runs, index).contains(run),
{
    let after = freed(runs, index);
    let from = join_from(runs, index);
    let to = join_to(runs, index);
    if runs.contains(run) && run != runs[index] {
        let i = choose|i: int| 0 <= i < runs.len() && runs[i] == run;
        if i < index {
            lemma_in_order(runs, count, i, index);
            assert(after[i] == run);
        } else {
            lemma_in_order(runs, count, index, i);
            assert(after[i - to + from + 1] == run);
        }
    }
    if after.contains(run) {
        let i = choose|i: int| 0 <= i < after.len() && after[i] == run;
        if i < from {
            assert(runs[i] == run);
            lemma_in_order(runs, count, i, index);
        } else {
            assert(i != from);
            let j = to + i - from - 1;
            assert(runs[j] == run);
            lemma_in_order(runs, count, index, j);
        }
        assert(runs[index].blocks > 0);
        assert(run.blocks > 0);
    }
}

/// Two allocations never share a block.
pub proof fn allocations_are_disjoint(runs: Seq<Run>, count: int, i: int, j: int, block: int)
    requires
        tiles(runs, count),
        0 <= i < runs.len(),
        0 <= j < runs.len(),
        runs[i].start <= block < run_end(runs[i]),
        runs[j].start <= block < run_end(runs[j]),
    ensures
        i == j,
        0 <= block < count,
{
    lemma_within(runs, count, i);
    if i < j {
        lemma_in_order(runs, count, i, j);
    } else if j < i {
        lemma_in_order(runs, count, j, i);
    }
}

/// At most one run is the best fit, and at most one used run begins at a block.
pub proof fn lemma_indexes(runs: Seq<Run>, count: int, required: int, start: int, index: int)
    requires
        tiles(runs, count),
    ensures
        best_fit(runs, required, index) ==> fit_index(runs, required) == index,
        begins_at(runs, start, index) ==> run_index(runs, start) == index,
{
    if best_fit(runs, required, index) {
        let other = fit_index(runs, required);
        assert(best_fit(runs, required, other));
        assert(fits(runs[index], required) && fits(runs[other], required));
    }
    if begins_at(runs, start, index) {
        let other = run_index(runs, start);
        assert(begins_at(runs, start, other));
        assert(runs[index].blocks > 0 && runs[other].blocks > 0);
        allocations_are_disjoint(runs, count, index, other, start);
    }
}

/// An allocation does not touch the allocations before it.
pub proof fn allocate_keeps_allocations(
    runs: Seq<Run>,
    count: int,
    index: int,
    required: usize,
    run: Run,
)
    requires
        tiles(runs, count),
        0 <= index < runs.len(),
        fits(runs[index], required as int),
        required > 0,
        run.used,
    ensures
        taken(runs, index, required).contains(run) <==> runs.contains(run) || run == (Run {
            start: runs[index].start,
            blocks: required,
            used: true,
        }),
{
    let after = taken(runs, index, required);
    let head = Run { start: runs[index].start, blocks: required, used: true };
    assert(after[index] == head);
    if runs.contains(run) {
        let i = choose|i: int| 0 <= i < runs.len() && runs[i] == run;
        if i < index || runs[index].blocks == required {
            assert(after[i] == run);
        } else {
            assert(after[i + 1] == run);
        }
    }
    if after.contains(run) && run != head {
        let i = choose|i: int| 0 <= i < after.len() && after[i] == run;
        if i < index || runs[index].blocks == required {
            assert(runs[i] == run);
        } else {
            assert(i != index + 1);
            assert(runs[i - 1] == run);
        }
    }
}

/// An arena of fixed-size blocks.
#[derive(Debug)]
pub struct PageRunAllocator {
    block_bytes: usize,
    block_count: usize,
    runs: Vec<Run>,
    free_blocks: usize,
}

/// An arena: the size of a block, and the runs.
pub struct ArenaView {
    pub block_bytes: nat,
    pub block_count: nat,
    pub runs: Seq<Run>,
}

impl ArenaView {
    /// The bytes of the arena.
    pub open spec fn capacity(self) -> nat {
        self.block_count * self.block_bytes
    }

    /// The bytes of all free runs.
    pub open spec fn free_bytes(self) -> int {
        free_before(self.runs, self.runs.len() as int) * self.block_bytes
    }

    /// The bytes of all used runs.
    pub open spec fn allocated_bytes(self) -> int {
        used_before(self.runs, self.runs.len() as int) * self.block_bytes
    }

    /// The blocks of a payload, rounded up.
    pub open spec fn blocks_for(self, payload_bytes: nat) -> nat {
        if payload_bytes == 0 {
            0
        } else {
            ((payload_bytes - 1) / self.block_bytes as int + 1) as nat
        }
    }

    /// The bytes of the blocks of a payload; none for an empty payload or one
    /// too large to round up.
    pub open spec fn allocation(self, payload_bytes: nat) -> Option<nat> {
        if payload_bytes == 0 || self.blocks_for(payload_bytes) * self.block_bytes > usize::MAX {
            None
        } else {
            Some(self.blocks_for(payload_bytes) * self.block_bytes)
        }
    }

    /// The bytes of the largest free run.
    pub open spec fn largest_free(self) -> int {
        largest_free_blocks(self.runs, self.runs.len() as int) * self.block_bytes
    }

    /// Where an allocation of a payload begins.
    pub open spec fn offset_for(self, payload_bytes: nat) -> int {
        self.runs[fit_index(self.runs, self.blocks_for(payload_bytes) as int)].start
            * self.block_bytes
    }

    /// The arena after an allocation of a payload.
    pub open spec fn allocated(self, payload_bytes: nat) -> ArenaView {
        let required = self.blocks_for(payload_bytes);
        ArenaView {
            runs: taken(self.runs, fit_index(self.runs, required as int), required as usize),
            ..self
        }
    }

    /// Whether an allocation of `bytes` bytes begins at `offset`.
    pub open spec fn holds(self, offset: int, bytes: int) -> bool {
        exists|index: int|
            0 <= index < self.runs.len() && (#[trigger] self.runs[index]).used && offset
                == self.runs[index].start * self.block_bytes && bytes == self.runs[index].blocks
                * self.block_bytes
    }

    /// The arena after the allocation at `offset` is given back.
    pub open spec fn released(self, offset: int) -> ArenaView {
        ArenaView {
            runs: freed(self.runs, run_index(self.runs, offset / self.block_bytes as int)),
            ..self
        }
    }
}

impl View for PageRunAllocator {
    type V = ArenaView;

    closed spec fn view(&self) -> ArenaView {
        ArenaView {
            block_bytes: self.block_bytes as nat,
            block_count: self.block_count as nat,
            runs: self.runs@,
        }
    }
}

impl PageRunAllocator {
    /// The runs cut up the arena, and the free blocks are counted.
    pub closed spec fn wf(&self) -> bool {
        &&& self.block_bytes > 0
        &&& self.block_count * self.block_bytes <= usize::MAX
        &&& tiles(self.runs@, self.block_count as int)
        &&& self.free_blocks == free_before(self.runs@, self.runs@.len() as int)
    }

    /// What a well-formed allocator's view satisfies.
    pub proof fn lemma_view(&self)
        requires
            self.wf(),
        ensures
            self@.block_bytes > 0,
            self@.block_count > 0,
            self@.capacity() <= usize::MAX,
            tiles(self@.runs, self@.block_count as int),
            self@.block_count <= usize::MAX,
            self@.free_bytes() + self@.allocated_bytes() == self@.capacity(),
            self@.free_bytes() >= 0,
            self@.allocated_bytes() >= 0,
    {
        lemma_within(self.runs@, self.block_count as int, 0);
        free_and_used_fill_the_arena(self.runs@, self.block_count as int);
        lemma_totals_positive(self.runs@, self.runs@.len() as int);
        let used = used_before(self.runs@, self.runs@.len() as int);
        assert((self.free_blocks + used) * self.block_bytes == self.free_blocks * self.block_bytes
            + used * self.block_bytes && used * self.block_bytes >= 0) by (nonlinear_arith)
            requires
                used >= 0,
        ;
    }

    pub fn new(capacity: usize, block_bytes: usize) -> (result: Result<Self, &'static str>)
        ensures
            match result {
                Ok(allocator) => {
                    &&& capacity > 0
                    &&& block_bytes > 0
                    &&& block_bytes % 256 == 0
                    &&& capacity >= block_bytes
                    &&& allocator.wf()
                    &&& allocator@ == (ArenaView {
                        block_bytes: block_bytes as nat,
                        block_count: (capacity / block_bytes) as nat,
                        runs: seq![
                            Run { start: 0, blocks: (capacity / block_bytes) as usize, used: false },
                        ],
                    })
                },
                Err(message) => if capacity == 0 || block_bytes == 0 || block_bytes % 256 != 0 {
                    message@ == "invalid fixed-block arena"@
                } else {
                    capacity < block_bytes && message@ == "fixed-block arena is too small"@
                },
            },
    {
        if capacity == 0 || block_bytes == 0 || block_bytes % 256 != 0 {
            return Err("invalid fixed-block arena");
        }
        let block_count: usize = capacity / block_bytes;
        proof {
            vstd::arithmetic::div_mod::lemma_fundamental_div_mod(
                capacity as int,
                block_bytes as int,
            );
            assert(block_count * block_bytes <= capacity) by (nonlinear_arith)
                requires
                    capacity == block_bytes * (capacity / block_bytes) + capacity % block_bytes,
                    block_count == capacity / block_bytes,
                    0 <= capacity % block_bytes,
            ;
            if block_count == 0 {
                assert(capacity == capacity % block_bytes) by (nonlinear_arith)
                    requires
                        capacity == block_bytes * (capacity / block_bytes) + capacity % block_bytes,
                        0 == capacity / block_bytes,
                ;
            } else {
                assert(block_bytes <= block_count * block_bytes) by (nonlinear_arith)
                    requires
                        block_count >= 1,
                ;
            }
        }
        if block_count == 0 {
            return Err("fixed-block arena is too small");
        }
        let mut runs: Vec<Run> = Vec::new();
        runs.push(Run { start: 0, blocks: block_count, used: false });
        assert(free_before(runs@, 1) == block_count) by {
            reveal_with_fuel(free_before, 2);
        }
        let allocator = PageRunAllocator { block_bytes, block_count, runs, free_blocks: block_count };
        assert(allocator@.runs =~= seq![Run { start: 0, blocks: block_count, used: false }]);
        Ok(allocator)
    }

    /// The bytes of the arena.
    pub fn capacity(&self) -> (bytes: usize)
        requires
            self.wf(),
        ensures
            bytes == self@.capacity(),
    {
        self.block_count * self.block_bytes
    }

    pub fn block_bytes(&self) -> (bytes: usize)
        ensures
            bytes == self@.block_bytes,
    {
        self.block_bytes
    }

    /// The bytes that a payload takes up: whole blocks.
    pub fn allocation_bytes(&self, payload_bytes: usize) -> (bytes: Option<usize>)
        requires
            self.wf(),
        ensures
            match self@.allocation(payload_bytes as nat) {
                Some(size) => bytes is Some && bytes->0 == size,
                None => bytes is None,
            },
    {
        if payload_bytes == 0 {
            return None;
        }
        proof {
            assert((payload_bytes - 1) / self.block_bytes as int <= payload_bytes - 1) by (nonlinear_arith)
                requires
                    payload_bytes >= 1,
                    self.block_bytes >= 1,
            ;
        }
        let blocks: usize = (payload_bytes - 1) / self.block_bytes + 1;
        blocks.checked_mul(self.block_bytes)
    }

    /// The bytes of the largest free run.
    pub fn largest_free(&self) -> (bytes: usize)
        requires
            self.wf(),
        ensures
            bytes == self@.largest_free(),
    {
        let mut largest: usize = 0;
        let mut i: usize = 0;
        while i < self.runs.len()
            invariant
                i <= self.runs@.len(),
                self.wf(),
                largest == largest_free_blocks(self.runs@, i as int),
                largest <= self.block_count,
            decreases self.runs@.len() - i,
        {
            let run: Run = self.runs[i];
            if !run.used && run.blocks > largest {
                proof {
                    lemma_within(self.runs@, self.block_count as int, i as int);
                }
                largest = run.blocks;
            }
            i += 1;
        }
        assert(largest * self.block_bytes <= self.block_count * self.block_bytes) by (nonlinear_arith)
            requires
                largest <= self.block_count,
        ;
        largest * self.block_bytes
    }

    /// Finds the smallest free run that holds `required` blocks, the first of
    /// those.
    fn find_fit(&self, required: usize) -> (found: Option<usize>)
        ensures
            match found {
                Some(index) => best_fit(self.runs@, required as int, index as int),
                None => forall|j: int|
                    0 <= j < self.runs@.len() ==> !fits(#[trigger] self.runs@[j], required as int),
            },
    {
        let mut found: Option<usize> = None;
        let mut i: usize = 0;
        while i < self.runs.len()
            invariant
                i <= self.runs@.len(),
                match found {
                    Some(index) => index < i && fits(self.runs@[index as int], required as int) && (
                    forall|j: int|
                        0 <= j < i && fits(#[trigger] self.runs@[j], required as int)
                            ==> self.runs@[index as int].blocks < self.runs@[j].blocks || (
                        self.runs@[index as int].blocks == self.runs@[j].blocks && index <= j)),
                    None => forall|j: int|
                        0 <= j < i ==> !fits(#[trigger] self.runs@[j], required as int),
                },
            decreases self.runs@.len() - i,
        {
            let run: Run = self.runs[i];
            if !run.used && run.blocks >= required {
                match found {
                    Some(index) => {
                        if run.blocks < self.runs[index].blocks {
                            found = Some(i);
                        }
                    },
                    None => {
                        found = Some(i);
                    },
                }
            }
            i += 1;
        }
        found
    }

    /// Takes the blocks of a payload from the smallest free run that holds them,
    /// the first of those: offset and size in bytes. Nothing where no run holds
    /// them.
    pub fn allocate(&mut self, payload_bytes: usize) -> (result: Option<(usize, usize)>)
        requires
            old(self).wf(),
        ensures
            final(self).wf(),
            final(self)@.block_bytes == old(self)@.block_bytes,
            final(self)@.block_count == old(self)@.block_count,
            match result {
                Some((offset, bytes)) => {
                    let required = old(self)@.blocks_for(payload_bytes as nat) as usize;
                    &&& old(self)@.allocation(payload_bytes as nat) == Some(bytes as nat)
                    &&& bytes == required * old(self)@.block_bytes
                    &&& best_fit(
                        old(self)@.runs,
                        required as int,
                        fit_index(old(self)@.runs, required as int),
                    )
                    &&& offset == old(self)@.offset_for(payload_bytes as nat)
                    &&& final(self)@ == old(self)@.allocated(payload_bytes as nat)
                    &&& final(self)@.allocated_bytes() == old(self)@.allocated_bytes() + bytes
                },
                None => {
                    &&& final(self)@ == old(self)@
                    &&& old(self)@.allocation(payload_bytes as nat) is None || forall|j: int|
                        0 <= j < old(self)@.runs.len() ==> !fits(
                            #[trigger] old(self)@.runs[j],
                            old(self)@.blocks_for(payload_bytes as nat) as int,
                        )
                },
            },
    {
        let allocation_bytes: usize = match self.allocation_bytes(payload_bytes) {
            Some(bytes) => bytes,
            None => return None,
        };
        let required: usize = allocation_bytes / self.block_bytes;
        proof {
            let blocks = self@.blocks_for(payload_bytes as nat);
            vstd::arithmetic::div_mod::lemma_div_multiples_vanish(
                blocks as int,
                self.block_bytes as int,
            );
            vstd::arithmetic::mul::lemma_mul_is_commutative(blocks as int, self.block_bytes as int);
            assert(required == blocks);
            assert((payload_bytes - 1) / self.block_bytes as int >= 0) by (nonlinear_arith)
                requires
                    payload_bytes >= 1,
                    self.block_bytes >= 1,
            ;
        }
        let index: usize = match self.find_fit(required) {
            Some(index) => index,
            None => return None,
        };
        let run: Run = self.runs[index];
        proof {
            lemma_taken(self.runs@, self.block_count as int, index as int, required);
            lemma_within(self.runs@, self.block_count as int, index as int);
            assert(run.start * self.block_bytes <= self.block_count * self.block_bytes)
                by (nonlinear_arith)
                requires
                    run.start <= self.block_count,
            ;
            lemma_free_within(self.runs@, self.block_count as int, index as int);
        }
        self.runs[index] = Run { start: run.start, blocks: required, used: true };
        assert(index < self.runs.len());
        if run.blocks > required {
            self.runs.insert(
                index + 1,
                Run { start: run.start + required, blocks: run.blocks - required, used: false },
            );
        }
        self.free_blocks = self.free_blocks - required;
        assert(self.runs@ =~= taken(old(self).runs@, index as int, required));
        proof {
            lemma_indexes(old(self).runs@, self.block_count as int, required as int, 0, index as int);
            free_and_used_fill_the_arena(old(self).runs@, self.block_count as int);
            free_and_used_fill_the_arena(self.runs@, self.block_count as int);
            let before = used_before(old(self).runs@, old(self).runs@.len() as int);
            assert((before + required) * self.block_bytes == before * self.block_bytes + required
                * self.block_bytes) by (nonlinear_arith);
        }
        Some((run.start * self.block_bytes, allocation_bytes))
    }

    /// Gives back the run at `offset` and joins it with its free neighbours.
    pub fn release(&mut self, offset: usize) -> (result: Result<(), &'static str>)
        requires
            old(self).wf(),
        ensures
            final(self).wf(),
            final(self)@.block_bytes == old(self)@.block_bytes,
            final(self)@.block_count == old(self)@.block_count,
            match result {
                Ok(()) => {
                    &&& offset as int % old(self)@.block_bytes as int == 0
                    &&& begins_at(
                        old(self)@.runs,
                        offset as int / old(self)@.block_bytes as int,
                        run_index(old(self)@.runs, offset as int / old(self)@.block_bytes as int),
                    )
                    &&& final(self)@ == old(self)@.released(offset as int)
                    &&& final(self)@.allocated_bytes() == old(self)@.allocated_bytes()
                        - old(self)@.runs[run_index(
                        old(self)@.runs,
                        offset as int / old(self)@.block_bytes as int,
                    )].blocks * old(self)@.block_bytes
                },
                Err(message) => {
                    &&& final(self)@ == old(self)@
                    &&& if offset as int % old(self)@.block_bytes as int != 0 {
                        message@ == "unaligned fixed-block release"@
                    } else {
                        &&& message@ == "fixed-block page run was released twice"@
                        &&& forall|j: int|
                            0 <= j < old(self)@.runs.len() && (#[trigger] old(self)@.runs[j]).used
                                ==> old(self)@.runs[j].start != offset as int
                                / old(self)@.block_bytes as int
                    }
                },
            },
    {
        if offset % self.block_bytes != 0 {
            return Err("unaligned fixed-block release");
        }
        let start: usize = offset / self.block_bytes;
        let mut index: usize = 0;
        while index < self.runs.len() && !(self.runs[index].used && self.runs[index].start == start)
            invariant
                index <= self.runs@.len(),
                forall|j: int|
                    0 <= j < index && (#[trigger] self.runs@[j]).used ==> self.runs@[j].start != start,
            decreases self.runs@.len() - index,
        {
            index += 1;
        }
        if index == self.runs.len() {
            return Err("fixed-block page run was released twice");
        }
        proof {
            lemma_freed(self.runs@, self.block_count as int, index as int);
            lemma_used_within(self.runs@, self.block_count as int, index as int);
        }
        let blocks: usize = self.runs[index].blocks;
        let from: usize = if index > 0 && !self.runs[index - 1].used {
            index - 1
        } else {
            index
        };
        let to: usize = if self.runs.len() - index > 1 && !self.runs[index + 1].used {
            index + 2
        } else {
            index + 1
        };
        let first: Run = self.runs[from];
        let last: Run = self.runs[to - 1];
        let merged = Run {
            start: first.start,
            blocks: last.start + last.blocks - first.start,
            used: false,
        };
        let ghost before = self.runs@;
        self.runs[from] = merged;
        if to - from > 1 {
            self.runs.remove(from + 1);
        }
        if to - from > 2 {
            self.runs.remove(from + 1);
        }
        assert(self.runs@ =~= freed(before, index as int));
        self.free_blocks = self.free_blocks + blocks;
        proof {
            assert(begins_at(before, start as int, index as int));
            lemma_indexes(before, self.block_count as int, 0, start as int, index as int);
            free_and_used_fill_the_arena(before, self.block_count as int);
            free_and_used_fill_the_arena(self.runs@, self.block_count as int);
            let after = used_before(self.runs@, self.runs@.len() as int);
            assert((after + blocks) * self.block_bytes == after * self.block_bytes + blocks
                * self.block_bytes) by (nonlinear_arith);
        }
        Ok(())
    }

    /// The bytes of all free runs.
    pub fn free_bytes(&self) -> (bytes: usize)
        requires
            self.wf(),
        ensures
            bytes == self@.free_bytes(),
    {
        proof {
            free_and_used_fill_the_arena(self.runs@, self.block_count as int);
            lemma_totals_positive(self.runs@, self.runs@.len() as int);
            assert(self.free_blocks * self.block_bytes <= self.block_count * self.block_bytes)
                by (nonlinear_arith)
                requires
                    self.free_blocks <= self.block_count,
            ;
        }
        self.free_blocks * self.block_bytes
    }

    /// The bytes of all used runs.
    pub fn allocated_bytes(&self) -> (bytes: usize)
        requires
            self.wf(),
        ensures
            bytes == self@.allocated_bytes(),
            bytes + self@.free_bytes() == self@.capacity(),
    {
        proof {
            free_and_used_fill_the_arena(self.runs@, self.block_count as int);
            lemma_totals_positive(self.runs@, self.runs@.len() as int);
            let used = self.block_count - self.free_blocks;
            assert(used * self.block_bytes <= self.block_count * self.block_bytes) by (nonlinear_arith)
                requires
                    used <= self.block_count,
            ;
            assert(used * self.block_bytes + self.free_blocks * self.block_bytes == self.block_count
                * self.block_bytes) by (nonlinear_arith)
                requires
                    used == self.block_count - self.free_blocks,
            ;
        }
        (self.block_count - self.free_blocks) * self.block_bytes
    }

    /// The free blocks as the allocator counts them.
    pub closed spec fn free_count(&self) -> nat {
        self.free_blocks as nat
    }

    /// Looks at the whole state, whatever it is: whether the free blocks are
    /// counted, then whether the runs cut up the arena. A well-formed allocator
    /// passes.
    pub fn validate(&self) -> (result: Result<(), &'static str>)
        ensures
            self.wf() ==> result is Ok,
            match result {
                Ok(()) => {
                    &&& self.free_count() == free_before(self@.runs, self@.runs.len() as int)
                    &&& tiles(self@.runs, self@.block_count as int)
                },
                Err(message) => if self.free_count() != free_before(
                    self@.runs,
                    self@.runs.len() as int,
                ) {
                    message@ == "free GPU page accounting is inconsistent"@
                } else {
                    &&& !tiles(self@.runs, self@.block_count as int)
                    &&& message@ == "free GPU page indexes disagree"@
                },
            },
    {
        let mut free: usize = 0;
        let mut i: usize = 0;
        while i < self.runs.len()
            invariant
                i <= self.runs@.len(),
                free == free_before(self.runs@, i as int),
                free <= self.free_blocks,
            decreases self.runs@.len() - i,
        {
            let run: Run = self.runs[i];
            if !run.used {
                if run.blocks > self.free_blocks - free {
                    proof {
                        lemma_free_grows(self.runs@, i + 1, self.runs@.len() as int);
                    }
                    return Err("free GPU page accounting is inconsistent");
                }
                free = free + run.blocks;
            }
            i += 1;
        }
        if free != self.free_blocks {
            return Err("free GPU page accounting is inconsistent");
        }
        if self.is_cut_up() {
            Ok(())
        } else {
            Err("free GPU page indexes disagree")
        }
    }

    /// Tests whether the runs cut up the arena.
    fn is_cut_up(&self) -> (result: bool)
        ensures
            result == tiles(self.runs@, self.block_count as int),
    {
        let mut next: usize = 0;
        let mut after_used: bool = true;
        let mut i: usize = 0;
        while i < self.runs.len()
            invariant
                i <= self.runs@.len(),
                next <= self.block_count,
                i == 0 ==> next == 0 && after_used,
                i > 0 ==> self.runs@[0].start == 0,
                i > 0 ==> next == run_end(self.runs@[i - 1]),
                i > 0 ==> after_used == self.runs@[i - 1].used,
                forall|j: int| 0 <= j < i ==> (#[trigger] self.runs@[j]).blocks > 0,
                forall|j: int| 0 <= j < i - 1 ==> #[trigger] joined(self.runs@, j),
            decreases self.runs@.len() - i,
        {
            let run: Run = self.runs[i];
            if run.blocks == 0 || run.start != next || run.blocks > self.block_count - next || !(
            after_used || run.used) {
                proof {
                    if tiles(self.runs@, self.block_count as int) {
                        lemma_within(self.runs@, self.block_count as int, i as int);
                        if i > 0 {
                            assert(joined(self.runs@, i - 1));
                        }
                    }
                }
                return false;
            }
            next = next + run.blocks;
            after_used = run.used;
            i += 1;
        }
        self.runs.len() > 0 && next == self.block_count
    }
}

/// The blocks of the largest free run among the first `count`.
pub open spec fn largest_free_blocks(runs: Seq<Run>, count: int) -> int
    decreases count,
{
    if count <= 0 {
        0
    } else {
        let before = largest_free_blocks(runs, count - 1);
        let run = runs[count - 1];
        if !run.used && run.blocks > before {
            run.blocks as int
        } else {
            before
        }
    }
}

/// A request fits somewhere exactly when the largest free run holds it.
pub proof fn largest_free_decides(runs: Seq<Run>, count: int, required: int)
    requires
        0 <= count <= runs.len(),
        required > 0,
    ensures
        largest_free_blocks(runs, count) >= required <==> exists|j: int|
            0 <= j < count && fits(#[trigger] runs[j], required),
    decreases count,
{
    if count > 0 {
        largest_free_decides(runs, count - 1, required);
        let run = runs[count - 1];
        if largest_free_blocks(runs, count) >= required {
            if !run.used && run.blocks > largest_free_blocks(runs, count - 1) {
                assert(fits(runs[count - 1], required));
            } else {
                let j = choose|j: int| 0 <= j < count - 1 && fits(#[trigger] runs[j], required);
                assert(fits(runs[j], required));
            }
        }
        if exists|j: int| 0 <= j < count && fits(#[trigger] runs[j], required) {
            let j = choose|j: int| 0 <= j < count && fits(#[trigger] runs[j], required);
            if j < count - 1 {
                assert(fits(runs[j], required));
            }
        }
    }
}

/// Whether run `index` is the best fit among the first `count` runs.
spec fn best_among(runs: Seq<Run>, required: int, count: int, index: int) -> bool {
    &&& 0 <= index < count
    &&& fits(runs[index], required)
    &&& forall|j: int|
        0 <= j < count && fits(#[trigger] runs[j], required) ==> runs[index].blocks
            < runs[j].blocks || (runs[index].blocks == runs[j].blocks && index <= j)
}

proof fn lemma_best_among(runs: Seq<Run>, required: int, count: int, some: int) -> (index: int)
    requires
        0 <= some < count <= runs.len(),
        fits(runs[some], required),
    ensures
        best_among(runs, required, count, index),
    decreases count,
{
    let last = count - 1;
    if some < last {
        let index = lemma_best_among(runs, required, last, some);
        if fits(runs[last], required) && runs[last].blocks < runs[index].blocks {
            last
        } else {
            index
        }
    } else if exists|j: int| 0 <= j < last && fits(#[trigger] runs[j], required) {
        let other = choose|j: int| 0 <= j < last && fits(#[trigger] runs[j], required);
        let index = lemma_best_among(runs, required, last, other);
        if runs[last].blocks < runs[index].blocks {
            last
        } else {
            index
        }
    } else {
        last
    }
}

/// Where a run fits, one is the best fit.
pub proof fn lemma_fit_exists(runs: Seq<Run>, required: int)
    requires
        exists|j: int| 0 <= j < runs.len() && fits(#[trigger] runs[j], required),
    ensures
        best_fit(runs, required, fit_index(runs, required)),
{
    let some = choose|j: int| 0 <= j < runs.len() && fits(#[trigger] runs[j], required);
    let index = lemma_best_among(runs, required, runs.len() as int, some);
    assert(best_fit(runs, required, index));
}

/// Totals are not negative.
proof fn lemma_totals_positive(runs: Seq<Run>, count: int)
    ensures
        free_before(runs, count) >= 0,
        used_before(runs, count) >= 0,
    decreases count,
{
    if count > 0 {
        lemma_totals_positive(runs, count - 1);
    }
}

/// A free run is counted among the free blocks.
proof fn lemma_free_within(runs: Seq<Run>, count: int, index: int)
    requires
        tiles(runs, count),
        0 <= index < runs.len(),
        !runs[index].used,
    ensures
        runs[index].blocks <= free_before(runs, runs.len() as int),
{
    lemma_totals_positive(runs, index);
    assert(free_before(runs, index + 1) == free_before(runs, index) + runs[index].blocks);
    lemma_free_grows(runs, index + 1, runs.len() as int);
}

proof fn lemma_free_grows(runs: Seq<Run>, from: int, to: int)
    requires
        0 <= from <= to,
    ensures
        free_before(runs, from) <= free_before(runs, to),
    decreases to - from,
{
    if from < to {
        lemma_free_grows(runs, from, to - 1);
    }
}

/// A used run is not counted among the free blocks.
proof fn lemma_used_within(runs: Seq<Run>, count: int, index: int)
    requires
        tiles(runs, count),
        0 <= index < runs.len(),
        runs[index].used,
    ensures
        free_before(runs, runs.len() as int) + runs[index].blocks <= count,
{
    free_and_used_fill_the_arena(runs, count);
    lemma_totals_positive(runs, index);
    assert(used_before(runs, index + 1) == used_before(runs, index) + runs[index].blocks);
    lemma_used_grows(runs, index + 1, runs.len() as int);
}

proof fn lemma_used_grows(runs: Seq<Run>, from: int, to: int)
    requires
        0 <= from <= to,
    ensures
        used_before(runs, from) <= used_before(runs, to),
    decreases to - from,
{
    if from < to {
        lemma_used_grows(runs, from, to - 1);
    }
}

/// An allocation is the fewest whole blocks that hold a payload. There is none for an
/// empty payload, nor for one whose blocks have more bytes than can be counted.
pub proof fn allocations_are_the_fewest_blocks(arena: ArenaView, payload_bytes: nat)
    requires
        arena.block_bytes > 0,
    ensures
        payload_bytes == 0 ==> arena.allocation(payload_bytes) is None,
        payload_bytes > usize::MAX ==> arena.allocation(payload_bytes) is None,
        match arena.allocation(payload_bytes) {
            Some(size) => payload_bytes <= size < payload_bytes + arena.block_bytes && size
                % arena.block_bytes == 0 && size <= usize::MAX,
            None => payload_bytes == 0 || payload_bytes + arena.block_bytes - 1 >= usize::MAX,
        },
{
    let size = arena.block_bytes as int;
    if payload_bytes > 0 {
        let last = payload_bytes - 1;
        let whole = last / size;
        vstd::arithmetic::div_mod::lemma_fundamental_div_mod(last, size);
        vstd::arithmetic::div_mod::lemma_mod_bound(last, size);
        assert((whole + 1) * size == size * whole + size) by (nonlinear_arith);
        assert(whole >= 0) by (nonlinear_arith)
            requires
                whole == last / size,
                last >= 0,
                size > 0,
        ;
        vstd::arithmetic::div_mod::lemma_mod_multiples_basic(whole + 1, size);
    }
}

/// The largest free run is as large as any free run, and is one of them, or there is none.
pub proof fn no_free_run_is_larger(runs: Seq<Run>, count: int)
    requires
        0 <= count <= runs.len(),
    ensures
        forall|i: int|
            0 <= i < count && !(#[trigger] runs[i]).used ==> runs[i].blocks <= largest_free_blocks(
                runs,
                count,
            ),
        largest_free_blocks(runs, count) == 0 || exists|i: int|
            0 <= i < count && !(#[trigger] runs[i]).used && runs[i].blocks == largest_free_blocks(
                runs,
                count,
            ),
    decreases count,
{
    if count > 0 {
        no_free_run_is_larger(runs, count - 1);
        let before = largest_free_blocks(runs, count - 1);
        let after = largest_free_blocks(runs, count);
        if after == before && before != 0 {
            let i = choose|i: int|
                0 <= i < count - 1 && !(#[trigger] runs[i]).used && runs[i].blocks == before;
            assert(!runs[i].used && runs[i].blocks == after);
        } else if after != before {
            assert(!runs[count - 1].used && runs[count - 1].blocks == after);
        }
    }
}

/// An allocation is cut from the front of the smallest free run that holds it, the first
/// of those: it begins where that run begins, has the asked blocks, and what is left of
/// the run stays free behind it.
pub proof fn the_tightest_run_is_cut(runs: Seq<Run>, required: usize, some: int, other: int)
    requires
        required > 0,
        0 <= some < runs.len(),
        !runs[some].used,
        runs[some].blocks >= required,
        0 <= other < runs.len(),
        !runs[other].used,
        runs[other].blocks >= required,
    ensures
        ({
            let index = fit_index(runs, required as int);
            let after = taken(runs, index, required);
            &&& 0 <= index < runs.len()
            &&& !runs[index].used
            &&& required <= runs[index].blocks <= runs[other].blocks
            &&& runs[index].blocks == runs[other].blocks ==> index <= other
            &&& after[index] == (Run { start: runs[index].start, blocks: required, used: true })
            &&& runs[index].blocks > required ==> after.len() == runs.len() + 1 && !after[index
                + 1].used && after[index + 1].blocks == runs[index].blocks - required
            &&& runs[index].blocks == required ==> after.len() == runs.len()
        }),
{
    assert(fits(runs[some], required as int));
    assert(fits(runs[other], required as int));
    lemma_fit_exists(runs, required as int);
}

} // verus!
