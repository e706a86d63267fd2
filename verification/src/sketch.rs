//! Approximate access counts in fixed memory.
//!
//! Four rows of counters; a key has one counter in each row, and its estimate
//! is the smallest of the four. After ten accesses per counter of a row all
//! counters are halved, so that old accesses fade.

use crate::bytes::{le64, put_u64};
use std::collections::hash_map::DefaultHasher;
use std::hash::Hasher;
use vstd::prelude::*;
use vstd::std_specs::hash::DefaultHasherAdditionalSpecFns;
use vstd::utf8::encode_utf8;

verus! {

/// The number of rows.
pub const ROWS: usize = 4;

/// The counters, row by row, and the accesses since they were halved.
pub struct SketchView {
    pub width: nat,
    pub tables: Seq<Seq<u16>>,
    pub samples: nat,
}

/// One more, up to the largest counter.
pub open spec fn bump(count: u16) -> u16 {
    if count == u16::MAX {
        count
    } else {
        (count + 1) as u16
    }
}

/// The smaller of two counters.
pub open spec fn smaller(left: u16, right: u16) -> u16 {
    if left <= right {
        left
    } else {
        right
    }
}

impl SketchView {
    /// Nothing counted yet, in rows of `width` counters.
    pub open spec fn empty(width: nat) -> SketchView {
        SketchView {
            width,
            tables: Seq::new(ROWS as nat, |row: int| Seq::new(width, |i: int| 0u16)),
            samples: 0,
        }
    }

    /// The place of a key in a row: a hash of the row and the key.
    pub open spec fn place(self, row: int, key: Seq<char>) -> int {
        DefaultHasher::spec_finish(
            seq![le64(row as u64), encode_utf8(key), seq![0xffu8]],
        ) as usize as int % self.width as int
    }

    /// The counter of a key in a row.
    pub open spec fn counter(self, row: int, key: Seq<char>) -> u16 {
        self.tables[row][self.place(row, key)]
    }

    /// The estimate for a key: its smallest counter.
    pub open spec fn estimate(self, key: Seq<char>) -> u16 {
        smaller(
            smaller(self.counter(0, key), self.counter(1, key)),
            smaller(self.counter(2, key), self.counter(3, key)),
        )
    }

    /// One more access of a key.
    pub open spec fn touched(self, key: Seq<char>) -> SketchView {
        SketchView {
            width: self.width,
            tables: Seq::new(
                ROWS as nat,
                |row: int| self.tables[row].update(self.place(row, key), bump(self.counter(row, key))),
            ),
            samples: self.samples + 1,
        }
    }

    /// All counters halved.
    pub open spec fn halved(self) -> SketchView {
        SketchView {
            width: self.width,
            tables: Seq::new(
                ROWS as nat,
                |row: int| Seq::new(self.width, |i: int| (self.tables[row][i] / 2) as u16),
            ),
            samples: self.samples / 2,
        }
    }

    /// Whether it is time to halve the counters.
    pub open spec fn is_full(self) -> bool {
        self.samples >= self.width * 10
    }

    /// The counters after one more access of a key.
    pub open spec fn counted(self, key: Seq<char>) -> SketchView {
        if self.touched(key).is_full() {
            self.touched(key).halved()
        } else {
            self.touched(key)
        }
    }

    /// The frequency that an access of a key is given: its estimate with this
    /// access, before any halving, and at least one.
    pub open spec fn frequency(self, key: Seq<char>) -> u16 {
        let estimate = self.touched(key).estimate(key);
        if estimate == 0 {
            1
        } else {
            estimate
        }
    }

    /// Four rows of as many counters as a row has.
    pub open spec fn wf(self) -> bool {
        &&& 0 < self.width
        &&& self.width * 10 <= usize::MAX
        &&& self.tables.len() == ROWS
        &&& forall|row: int| 0 <= row < ROWS ==> (#[trigger] self.tables[row]).len() == self.width
        &&& self.samples < self.width * 10
    }
}

/// An access raises the estimate of its key by one, and lowers no other, until
/// the counters are halved.
pub proof fn access_raises_estimate(sketch: SketchView, key: Seq<char>, other: Seq<char>)
    requires
        sketch.wf(),
    ensures
        sketch.touched(key).estimate(key) == bump(sketch.estimate(key)),
        sketch.touched(key).estimate(other) >= sketch.estimate(other),
        sketch.frequency(key) >= 1,
{
    let after = sketch.touched(key);
    assert forall|row: int| 0 <= row < ROWS implies {
        &&& #[trigger] after.counter(row, key) == bump(sketch.counter(row, key))
        &&& after.counter(row, other) >= sketch.counter(row, other)
    } by {
        assert(sketch.tables[row].len() == sketch.width);
        let width = sketch.width as int;
        vstd::arithmetic::div_mod::lemma_mod_bound(
            DefaultHasher::spec_finish(
                seq![le64(row as u64), encode_utf8(key), seq![0xffu8]],
            ) as usize as int,
            width,
        );
        vstd::arithmetic::div_mod::lemma_mod_bound(
            DefaultHasher::spec_finish(
                seq![le64(row as u64), encode_utf8(other), seq![0xffu8]],
            ) as usize as int,
            width,
        );
    }
    assert(after.counter(0, key) == bump(sketch.counter(0, key)));
    assert(after.counter(1, key) == bump(sketch.counter(1, key)));
    assert(after.counter(2, key) == bump(sketch.counter(2, key)));
    assert(after.counter(3, key) == bump(sketch.counter(3, key)));
}

/// The place of a key is one of the counters of a row.
proof fn lemma_place(sketch: SketchView, row: int, key: Seq<char>)
    requires
        sketch.width > 0,
    ensures
        0 <= sketch.place(row, key) < sketch.width,
{
    vstd::arithmetic::div_mod::lemma_mod_bound(
        DefaultHasher::spec_finish(
            seq![le64(row as u64), encode_utf8(key), seq![0xffu8]],
        ) as usize as int,
        sketch.width as int,
    );
}

/// The frequency of an access is one more than what was counted for the key before, up
/// to the largest counter.
pub proof fn frequency_counts_this_access(sketch: SketchView, key: Seq<char>)
    requires
        sketch.wf(),
    ensures
        sketch.frequency(key) as int == vstd::math::min(sketch.estimate(key) + 1, 0xffff),
{
    access_raises_estimate(sketch, key, key);
}

/// Nothing was counted in a new sketch.
pub proof fn nothing_is_counted_at_first(width: nat, key: Seq<char>)
    requires
        width > 0,
    ensures
        SketchView::empty(width).estimate(key) == 0,
        SketchView::empty(width).samples == 0,
{
    let sketch = SketchView::empty(width);
    lemma_place(sketch, 0, key);
    lemma_place(sketch, 1, key);
    lemma_place(sketch, 2, key);
    lemma_place(sketch, 3, key);
}

/// Counters are halved after ten accesses for each counter of a row, and not before.
/// Halving halves every estimate and the accesses that count towards the next one.
pub proof fn counters_are_halved_when_full(sketch: SketchView, key: Seq<char>, other: Seq<char>)
    requires
        sketch.wf(),
    ensures
        sketch.samples + 1 < 10 * sketch.width ==> sketch.counted(key).samples == sketch.samples + 1
            && sketch.counted(key).estimate(key) as int == vstd::math::min(
            sketch.estimate(key) + 1,
            0xffff,
        ) && sketch.counted(key).estimate(other) >= sketch.estimate(other),
        sketch.samples + 1 >= 10 * sketch.width ==> sketch.counted(key).samples == (sketch.samples
            + 1) / 2 && sketch.counted(key).estimate(key) as int == vstd::math::min(
            sketch.estimate(key) + 1,
            0xffff,
        ) / 2 && sketch.counted(key).estimate(other) >= sketch.estimate(other) / 2,
        sketch.counted(key).wf(),
{
    access_raises_estimate(sketch, key, other);
    let touched = sketch.touched(key);
    assert forall|row: int| 0 <= row < ROWS implies (#[trigger] touched.tables[row]).len()
        == touched.width by {
        assert(sketch.tables[row].len() == sketch.width);
    }
    let halved = touched.halved();
    assert forall|row: int, any: Seq<char>| 0 <= row < ROWS implies #[trigger] halved.counter(row, any)
        == touched.counter(row, any) / 2 by {
        lemma_place(touched, row, any);
    }
    assert(halved.counter(0, key) == touched.counter(0, key) / 2);
    assert(halved.counter(1, key) == touched.counter(1, key) / 2);
    assert(halved.counter(2, key) == touched.counter(2, key) / 2);
    assert(halved.counter(3, key) == touched.counter(3, key) / 2);
    assert(halved.counter(0, other) == touched.counter(0, other) / 2);
    assert(halved.counter(1, other) == touched.counter(1, other) / 2);
    assert(halved.counter(2, other) == touched.counter(2, other) / 2);
    assert(halved.counter(3, other) == touched.counter(3, other) / 2);
}

/// The sketch after accesses of keys, one after the other.
pub open spec fn after_accesses(sketch: SketchView, keys: Seq<Seq<char>>) -> SketchView {
    keys.fold_left(sketch, |before: SketchView, key: Seq<char>| before.counted(key))
}

/// The accesses of a key among accesses of keys.
pub open spec fn accesses_of(keys: Seq<Seq<char>>, key: Seq<char>) -> nat {
    keys.filter(|other: Seq<char>| other == key).len()
}

/// Until the counters are halved, the estimate for a key is no less than the accesses of
/// it, on top of what was counted before, up to the largest counter.
pub proof fn accesses_are_not_undercounted(
    sketch: SketchView,
    keys: Seq<Seq<char>>,
    key: Seq<char>,
)
    requires
        sketch.wf(),
        sketch.samples + keys.len() < 10 * sketch.width,
    ensures
        after_accesses(sketch, keys).wf(),
        after_accesses(sketch, keys).width == sketch.width,
        after_accesses(sketch, keys).samples == sketch.samples + keys.len(),
        after_accesses(sketch, keys).estimate(key) >= vstd::math::min(
            sketch.estimate(key) + accesses_of(keys, key),
            0xffff,
        ),
    decreases keys.len(),
{
    reveal(Seq::filter);
    if keys.len() > 0 {
        let head = keys.drop_last();
        accesses_are_not_undercounted(sketch, head, key);
        let before = after_accesses(sketch, head);
        counters_are_halved_when_full(before, keys.last(), key);
        counters_are_halved_when_full(before, key, key);
        assert(after_accesses(sketch, keys) == before.counted(keys.last()));
    }
}

/// In a row where no other key of the accesses has the place of a key, the counter of the
/// key holds its accesses exactly, so its estimate is no more than that.
pub proof fn keys_of_their_own_are_not_overcounted(
    width: nat,
    keys: Seq<Seq<char>>,
    key: Seq<char>,
    row: int,
)
    requires
        0 < width,
        width * 10 <= usize::MAX,
        keys.len() < 10 * width,
        0 <= row < ROWS,
        forall|i: int|
            0 <= i < keys.len() && (#[trigger] keys[i]) != key ==> SketchView::empty(width).place(
                row,
                keys[i],
            ) != SketchView::empty(width).place(row, key),
    ensures
        after_accesses(SketchView::empty(width), keys).estimate(key) as int == vstd::math::min(
            accesses_of(keys, key) as int,
            0xffff,
        ),
{
    nothing_is_counted_at_first(width, key);
    accesses_are_not_undercounted(SketchView::empty(width), keys, key);
    lemma_counter_of_its_own(width, keys, key, row);
}

proof fn lemma_counter_of_its_own(width: nat, keys: Seq<Seq<char>>, key: Seq<char>, row: int)
    requires
        0 < width,
        width * 10 <= usize::MAX,
        keys.len() < 10 * width,
        0 <= row < ROWS,
        forall|i: int|
            0 <= i < keys.len() && (#[trigger] keys[i]) != key ==> SketchView::empty(width).place(
                row,
                keys[i],
            ) != SketchView::empty(width).place(row, key),
    ensures
        after_accesses(SketchView::empty(width), keys).counter(row, key) as int == vstd::math::min(
            accesses_of(keys, key) as int,
            0xffff,
        ),
    decreases keys.len(),
{
    reveal(Seq::filter);
    let empty = SketchView::empty(width);
    lemma_place(empty, row, key);
    if keys.len() > 0 {
        let head = keys.drop_last();
        let last = keys.last();
        assert forall|i: int|
            0 <= i < head.len() && (#[trigger] head[i]) != key implies empty.place(row, head[i])
            != empty.place(row, key) by {
            assert(keys[i] == head[i]);
        }
        lemma_counter_of_its_own(width, head, key, row);
        accesses_are_not_undercounted(empty, head, key);
        let before = after_accesses(empty, head);
        assert(after_accesses(empty, keys) == before.counted(last));
        assert(before.tables[row].len() == width);
        lemma_place(before, row, key);
        lemma_place(before, row, last);
        assert(keys[keys.len() - 1] == last);
        assert(before.place(row, key) == empty.place(row, key));
        assert(before.place(row, last) == empty.place(row, last));
    }
}

/// Approximate access counts.
#[derive(Debug)]
pub struct TinyLfu {
    width: usize,
    tables: Vec<Vec<u16>>,
    samples: usize,
}

impl View for TinyLfu {
    type V = SketchView;

    closed spec fn view(&self) -> SketchView {
        SketchView {
            width: self.width as nat,
            tables: Seq::new(self.tables@.len(), |row: int| self.tables@[row]@),
            samples: self.samples as nat,
        }
    }
}

impl TinyLfu {
    /// Nothing counted yet, in rows of `width` counters.
    pub fn new(width: usize) -> (sketch: Self)
        ensures
            sketch@ == SketchView::empty(width as nat),
            0 < width && width * 10 <= usize::MAX ==> sketch@.wf(),
    {
        let mut tables: Vec<Vec<u16>> = Vec::new();
        while tables.len() < ROWS
            invariant
                tables@.len() <= ROWS,
                forall|row: int|
                    0 <= row < tables@.len() ==> (#[trigger] tables@[row])@ == Seq::new(
                        width as nat,
                        |i: int| 0u16,
                    ),
            decreases ROWS - tables@.len(),
        {
            let table: Vec<u16> = vec![0;width];
            assert(table@ =~= Seq::new(width as nat, |i: int| 0u16));
            tables.push(table);
        }
        let sketch = TinyLfu { width, tables, samples: 0 };
        assert(sketch@.tables =~= Seq::new(
            ROWS as nat,
            |row: int| Seq::new(width as nat, |i: int| 0u16),
        ));
        sketch
    }

    /// The place of a key in a row.
    fn index(&self, row: usize, key: &str) -> (index: usize)
        requires
            self@.wf(),
        ensures
            index == self@.place(row as int, key@),
            index < self@.width,
    {
        let mut row_bytes: Vec<u8> = Vec::new();
        put_u64(&mut row_bytes, row as u64);
        assert(row_bytes@ =~= le64(row as u64));
        let end: [u8; 1] = [0xff];
        assert(end@ =~= seq![0xffu8]);
        let mut hasher = DefaultHasher::new();
        hasher.write(row_bytes.as_slice());
        hasher.write(key.as_bytes());
        hasher.write(end.as_slice());
        assert(hasher@ =~= seq![le64(row as u64), encode_utf8(key@), seq![0xffu8]]);
        hasher.finish() as usize % self.width
    }

    /// Counts an access of a key and gives its frequency.
    pub fn increment(&mut self, key: &str) -> (frequency: u16)
        requires
            old(self)@.wf(),
        ensures
            final(self)@.wf(),
            final(self)@ == old(self)@.counted(key@),
            frequency == old(self)@.frequency(key@),
    {
        let ghost before = self@;
        let mut row: usize = 0;
        while row < ROWS
            invariant
                row <= ROWS,
                before == old(self)@,
                before.wf(),
                self.samples == before.samples,
                self.width == before.width,
                self@.wf(),
                forall|r: int|
                    0 <= r < row ==> (#[trigger] self@.tables[r]) == before.touched(key@).tables[r],
                forall|r: int| row <= r < ROWS ==> (#[trigger] self@.tables[r]) == before.tables[r],
            decreases ROWS - row,
        {
            let index: usize = self.index(row, key);
            let ghost middle = self@;
            assert(middle.tables[row as int].len() == middle.width);
            let count: u16 = self.tables[row][index];
            let next: u16 = count.saturating_add(1);
            let mut table: Vec<u16> = Vec::new();
            std::mem::swap(&mut table, &mut self.tables[row]);
            assert(table@ == middle.tables[row as int]);
            table[index] = next;
            self.tables[row] = table;
            proof {
                assert(self@.tables =~= middle.tables.update(
                    row as int,
                    middle.tables[row as int].update(index as int, next),
                ));
                assert(middle.tables[row as int] == before.tables[row as int]);
                assert(self@.tables[row as int] == before.touched(key@).tables[row as int]);
                assert forall|r: int| 0 <= r < ROWS implies (#[trigger] self@.tables[r]).len()
                    == self@.width by {
                    assert(middle.tables[r].len() == middle.width);
                }
                assert forall|r: int| row < r < ROWS implies (#[trigger] self@.tables[r])
                    == before.tables[r] by {
                    assert(middle.tables[r] == before.tables[r]);
                }
                assert forall|r: int| 0 <= r <= row implies (#[trigger] self@.tables[r])
                    == before.touched(key@).tables[r] by {
                    if r < row {
                        assert(middle.tables[r] == before.touched(key@).tables[r]);
                    }
                }
            }
            row += 1;
        }
        let ghost counted = before.touched(key@);
        assert(self@.tables =~= counted.tables);
        let estimate: u16 = self.estimate(key);
        assert(estimate == counted.estimate(key@));
        let frequency: u16 = if estimate == 0 {
            1
        } else {
            estimate
        };
        self.samples = self.samples + 1;
        assert(self@ == counted);
        if self.samples >= self.width * 10 {
            self.halve();
        }
        frequency
    }

    /// Halves all counters.
    fn halve(&mut self)
        requires
            old(self)@.width > 0,
            old(self)@.width * 10 <= usize::MAX,
            old(self)@.samples <= old(self)@.width * 10,
            old(self)@.tables.len() == ROWS,
            forall|row: int|
                0 <= row < ROWS ==> (#[trigger] old(self)@.tables[row]).len() == old(self)@.width,
        ensures
            final(self)@ == old(self)@.halved(),
            final(self)@.wf(),
    {
        let ghost before = self@;
        let mut row: usize = 0;
        while row < ROWS
            invariant
                row <= ROWS,
                before == old(self)@,
                self.width == before.width,
                self.samples == before.samples,
                self@.tables.len() == ROWS,
                before.tables.len() == ROWS,
                forall|r: int| 0 <= r < ROWS ==> (#[trigger] before.tables[r]).len() == before.width,
                forall|r: int|
                    0 <= r < row ==> (#[trigger] self@.tables[r]) == before.halved().tables[r],
                forall|r: int| row <= r < ROWS ==> (#[trigger] self@.tables[r]) == before.tables[r],
            decreases ROWS - row,
        {
            let ghost middle = self@;
            assert(middle.tables[row as int] == before.tables[row as int]);
            let mut table: Vec<u16> = Vec::new();
            std::mem::swap(&mut table, &mut self.tables[row]);
            let mut i: usize = 0;
            while i < table.len()
                invariant
                    i <= table@.len(),
                    table@.len() == before.tables[row as int].len(),
                    forall|j: int|
                        0 <= j < i ==> #[trigger] table@[j] == (before.tables[row as int][j] / 2) as u16,
                    forall|j: int|
                        i <= j < table@.len() ==> #[trigger] table@[j] == before.tables[row as int][j],
                decreases table@.len() - i,
            {
                let value: u16 = table[i];
                table[i] = value / 2;
                i += 1;
            }
            assert(table@ =~= before.halved().tables[row as int]);
            self.tables[row] = table;
            proof {
                assert(self@.tables =~= middle.tables.update(
                    row as int,
                    before.halved().tables[row as int],
                ));
                assert forall|r: int| row < r < ROWS implies (#[trigger] self@.tables[r])
                    == before.tables[r] by {
                    assert(middle.tables[r] == before.tables[r]);
                }
                assert forall|r: int| 0 <= r <= row implies (#[trigger] self@.tables[r])
                    == before.halved().tables[r] by {
                    if r < row {
                        assert(middle.tables[r] == before.halved().tables[r]);
                    }
                }
            }
            row += 1;
        }
        self.samples = self.samples / 2;
        assert(self@.tables =~= before.halved().tables);
    }

    /// The estimate for a key.
    pub fn estimate(&self, key: &str) -> (estimate: u16)
        requires
            self@.wf(),
        ensures
            estimate == self@.estimate(key@),
    {
        let mut least: u16 = self.count(0, key);
        let mut row: usize = 1;
        while row < ROWS
            invariant
                1 <= row <= ROWS,
                self@.wf(),
                row == 1 ==> least == self@.counter(0, key@),
                row == 2 ==> least == smaller(self@.counter(0, key@), self@.counter(1, key@)),
                row == 3 ==> least == smaller(
                    smaller(self@.counter(0, key@), self@.counter(1, key@)),
                    self@.counter(2, key@),
                ),
                row == 4 ==> least == self@.estimate(key@),
            decreases ROWS - row,
        {
            let count: u16 = self.count(row, key);
            if count < least {
                least = count;
            }
            row += 1;
        }
        least
    }

    fn count(&self, row: usize, key: &str) -> (count: u16)
        requires
            self@.wf(),
            row < ROWS,
        ensures
            count == self@.counter(row as int, key@),
    {
        let index: usize = self.index(row, key);
        assert(self@.tables[row as int].len() == self@.width);
        self.tables[row][index]
    }
}

} // verus!
