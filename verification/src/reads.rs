//! What to read from a shard: the wanted tensors in the order of the file,
//! neighbours joined into one range.

use crate::digest::{hex_encode, hex_text, sha256, sha256_digest};
use crate::protocol::Descriptor;
use crate::shard::ShardError;
use crate::text::same_text;
use std::sync::Arc;
use vstd::prelude::*;
use vstd::seq_lib::lemma_multiset_commutative;
use vstd::slice::{slice_subrange, slice_to_vec};

verus! {

/// The largest gap between two tensors that are read together.
pub const MAX_GAP: u64 = 65_536;

/// The most bytes that several tensors may span and still be read together.
pub const MAX_SPAN: u64 = 8_388_608;

/// A wanted tensor: its place among the wanted ones, and where it lies.
#[derive(Clone, Copy, Debug, PartialEq, Eq, Structural)]
pub struct ReadItem {
    pub index: usize,
    pub offset: u64,
    pub length: usize,
}

impl ReadItem {
    /// The byte behind the tensor.
    pub open spec fn end(self) -> int {
        self.offset + self.length
    }

    /// Whether the tensor stands before another in the order of the file. Of two
    /// at the same offset the one that was wanted first stands first.
    pub open spec fn precedes(self, other: ReadItem) -> bool {
        self.offset < other.offset || (self.offset == other.offset && self.index <= other.index)
    }
}

/// Whether tensors stand in the order of the file.
pub open spec fn in_file_order(items: Seq<ReadItem>) -> bool {
    forall|i: int, j: int| 0 <= i < j < items.len() ==> (#[trigger] items[i]).precedes(#[trigger] items[j])
}

/// Merges two ordered lists.
fn merge_reads(left: &Vec<ReadItem>, right: &Vec<ReadItem>) -> (merged: Vec<ReadItem>)
    requires
        in_file_order(left@),
        in_file_order(right@),
        left@.len() + right@.len() <= usize::MAX,
    ensures
        in_file_order(merged@),
        merged@.to_multiset() == (left@ + right@).to_multiset(),
{
    let mut merged: Vec<ReadItem> = Vec::new();
    let mut i: usize = 0;
    let mut j: usize = 0;
    proof {
        lemma_multiset_commutative(left@.subrange(0, 0), right@.subrange(0, 0));
        assert(left@.subrange(0, 0) + right@.subrange(0, 0) =~= merged@);
    }
    while i < left.len() || j < right.len()
        invariant
            i <= left@.len(),
            j <= right@.len(),
            left@.len() + right@.len() <= usize::MAX,
            in_file_order(left@),
            in_file_order(right@),
            in_file_order(merged@),
            forall|m: int, k: int|
                0 <= m < merged@.len() && i <= k < left@.len() ==> (#[trigger] merged@[m]).precedes(
                    #[trigger] left@[k],
                ),
            forall|m: int, k: int|
                0 <= m < merged@.len() && j <= k < right@.len() ==> (#[trigger] merged@[m]).precedes(
                    #[trigger] right@[k],
                ),
            merged@.to_multiset() == left@.subrange(0, i as int).to_multiset().add(
                right@.subrange(0, j as int).to_multiset(),
            ),
        decreases left@.len() - i + right@.len() - j,
    {
        let take_left: bool = if i >= left.len() {
            false
        } else if j >= right.len() {
            true
        } else {
            let a: ReadItem = left[i];
            let b: ReadItem = right[j];
            a.offset < b.offset || (a.offset == b.offset && a.index <= b.index)
        };
        let ghost before = merged@;
        if take_left {
            let item: ReadItem = left[i];
            merged.push(item);
            proof {
                assert(left@.subrange(0, i as int + 1) =~= left@.subrange(0, i as int).push(item));
                left@.subrange(0, i as int).to_multiset_ensures();
                before.to_multiset_ensures();
                assert(left@.subrange(0, i as int + 1).to_multiset() == left@.subrange(
                    0,
                    i as int,
                ).to_multiset().insert(item));
                assert(merged@.to_multiset() == before.to_multiset().insert(item));
                assert(merged@.to_multiset() =~= left@.subrange(0, i as int + 1).to_multiset().add(
                    right@.subrange(0, j as int).to_multiset(),
                ));
            }
            i += 1;
        } else {
            let item: ReadItem = right[j];
            merged.push(item);
            proof {
                assert(right@.subrange(0, j as int + 1) =~= right@.subrange(0, j as int).push(item));
                right@.subrange(0, j as int).to_multiset_ensures();
                before.to_multiset_ensures();
                assert(right@.subrange(0, j as int + 1).to_multiset() == right@.subrange(
                    0,
                    j as int,
                ).to_multiset().insert(item));
                assert(merged@.to_multiset() == before.to_multiset().insert(item));
                assert(merged@.to_multiset() =~= left@.subrange(0, i as int).to_multiset().add(
                    right@.subrange(0, j as int + 1).to_multiset(),
                ));
            }
            j += 1;
        }
    }
    proof {
        assert(left@.subrange(0, i as int) =~= left@);
        assert(right@.subrange(0, j as int) =~= right@);
        lemma_multiset_commutative(left@, right@);
    }
    merged
}

/// Puts a part of a list in the order of the file.
fn sort_part(items: &Vec<ReadItem>, from: usize, to: usize) -> (sorted: Vec<ReadItem>)
    requires
        from <= to <= items@.len(),
    ensures
        in_file_order(sorted@),
        sorted@.to_multiset() == items@.subrange(from as int, to as int).to_multiset(),
        sorted@.len() == to - from,
    decreases to - from,
{
    if to - from <= 1 {
        let mut sorted: Vec<ReadItem> = Vec::new();
        if from < to {
            sorted.push(items[from]);
        }
        assert(sorted@ =~= items@.subrange(from as int, to as int));
        return sorted;
    }
    let middle: usize = from + (to - from) / 2;
    let left: Vec<ReadItem> = sort_part(items, from, middle);
    let right: Vec<ReadItem> = sort_part(items, middle, to);
    let sorted: Vec<ReadItem> = merge_reads(&left, &right);
    proof {
        let first = items@.subrange(from as int, middle as int);
        let second = items@.subrange(middle as int, to as int);
        lemma_multiset_commutative(left@, right@);
        lemma_multiset_commutative(first, second);
        assert(first + second =~= items@.subrange(from as int, to as int));
        sorted@.to_multiset_ensures();
        items@.subrange(from as int, to as int).to_multiset_ensures();
        assert(sorted@.len() == sorted@.to_multiset().len());
    }
    sorted
}

/// Puts wanted tensors in the order of the file.
pub fn sort_reads(items: &Vec<ReadItem>) -> (sorted: Vec<ReadItem>)
    ensures
        in_file_order(sorted@),
        sorted@.to_multiset() == items@.to_multiset(),
{
    assert(items@.subrange(0, items@.len() as int) =~= items@);
    sort_part(items, 0, items.len())
}

/// A range of a file, and the tensors in it.
pub struct ReadRange {
    pub start: u64,
    pub end: u64,
    pub items: Vec<ReadItem>,
}

/// A range of a file, with its tensors as a sequence.
pub struct RangeView {
    pub start: u64,
    pub end: u64,
    pub items: Seq<ReadItem>,
}

impl View for ReadRange {
    type V = RangeView;

    open spec fn view(&self) -> RangeView {
        RangeView { start: self.start, end: self.end, items: self.items@ }
    }
}

/// The ranges of a list.
pub open spec fn range_views(list: Seq<ReadRange>) -> Seq<RangeView> {
    Seq::new(list.len(), |i: int| list[i]@)
}

impl RangeView {
    /// The range of one tensor.
    pub open spec fn of(item: ReadItem) -> RangeView {
        RangeView { start: item.offset, end: item.end() as u64, items: seq![item] }
    }

    /// Whether the next tensor is read together with the range: the gap and the
    /// span stay within their limits.
    pub open spec fn joins(self, item: ReadItem) -> bool {
        item.offset - self.end <= MAX_GAP && item.end() - self.start <= MAX_SPAN
    }

    /// The range with one more tensor.
    pub open spec fn joined(self, item: ReadItem) -> RangeView {
        RangeView {
            end: if item.end() > self.end {
                item.end() as u64
            } else {
                self.end
            },
            items: self.items.push(item),
            ..self
        }
    }

    /// The range stays within the span, or ends where its first tensor ends.
    pub open spec fn bounded(self) -> bool {
        self.end - self.start <= MAX_SPAN || self.end == self.items[0].end()
    }

    /// The range holds its tensors.
    pub open spec fn holds(self) -> bool {
        &&& self.start <= self.end
        &&& forall|i: int|
            0 <= i < self.items.len() ==> self.start <= (#[trigger] self.items[i]).offset
                && self.items[i].end() <= self.end
    }
}

/// The ranges to read for tensors in the order of the file.
pub open spec fn ranges_of(items: Seq<ReadItem>) -> Seq<RangeView>
    decreases items.len(),
{
    if items.len() == 0 {
        Seq::empty()
    } else {
        let before = ranges_of(items.drop_last());
        let item = items.last();
        if before.len() > 0 && before.last().joins(item) {
            before.drop_last().push(before.last().joined(item))
        } else {
            before.push(RangeView::of(item))
        }
    }
}

/// The tensors of the ranges, one range after the other.
pub open spec fn read_items(ranges: Seq<RangeView>) -> Seq<ReadItem>
    decreases ranges.len(),
{
    if ranges.len() == 0 {
        Seq::empty()
    } else {
        read_items(ranges.drop_last()) + ranges.last().items
    }
}

/// Whether every tensor ends within the first `size` bytes.
pub open spec fn ends_within(items: Seq<ReadItem>, size: int) -> bool {
    forall|i: int| 0 <= i < items.len() ==> (#[trigger] items[i]).end() <= size
}

/// The ranges read every tensor once and hold it, none of them leaves the file,
/// and none is longer than the span unless its first tensor is.
pub proof fn ranges_cover_the_tensors(items: Seq<ReadItem>, size: u64)
    requires
        in_file_order(items),
        ends_within(items, size as int),
    ensures
        read_items(ranges_of(items)) == items,
        forall|i: int|
            0 <= i < ranges_of(items).len() ==> (#[trigger] ranges_of(items)[i]).holds()
                && ranges_of(items)[i].end <= size && ranges_of(items)[i].items.len() > 0,
        forall|i: int|
            0 <= i < ranges_of(items).len() ==> (#[trigger] ranges_of(items)[i]).bounded(),
        items.len() > 0 ==> ranges_of(items).len() > 0 && ranges_of(items).last().items.last()
            == items.last(),
        forall|i: int|
            0 <= i < ranges_of(items).len() ==> (#[trigger] ranges_of(items)[i]).items.len()
                <= items.len(),
        ranges_of(items).len() <= items.len(),
    decreases items.len(),
{
    let ranges = ranges_of(items);
    if items.len() > 0 {
        let rest = items.drop_last();
        let item = items.last();
        assert forall|i: int| 0 <= i < rest.len() implies (#[trigger] rest[i]).end() <= size by {
            assert(rest[i] == items[i]);
        }
        ranges_cover_the_tensors(rest, size);
        let before = ranges_of(rest);
        assert(items =~= rest.push(item));
        assert(items[items.len() - 1].end() <= size);
        if before.len() > 0 && before.last().joins(item) {
            let last = before.last();
            let joined = last.joined(item);
            assert(before[before.len() - 1].holds());
            assert(ranges.drop_last() =~= before.drop_last());
            assert(last.items.len() > 0);
            assert(last.items.last() == rest.last());
            assert(items[items.len() - 2] == rest.last());
            assert(items[items.len() - 2].precedes(items[items.len() - 1]));
            assert(last.items[last.items.len() - 1].offset <= item.offset);
            assert(last.start <= item.offset);
            assert(last.bounded());
            assert(joined.items[0] == last.items[0]);
            assert(joined.holds()) by {
                assert forall|i: int| 0 <= i < joined.items.len() implies joined.start <= (
                #[trigger] joined.items[i]).offset && joined.items[i].end() <= joined.end by {
                    if i < last.items.len() {
                        assert(joined.items[i] == last.items[i]);
                    }
                }
            }
            assert(read_items(ranges) =~= read_items(before.drop_last()) + joined.items);
            assert(read_items(ranges) =~= read_items(before).push(item));
            assert forall|i: int| 0 <= i < ranges.len() implies (#[trigger] ranges[i]).holds()
                && ranges[i].end <= size && ranges[i].items.len() > 0 && ranges[i].bounded() && ranges[i].items.len()
                <= items.len() by {
                if i < before.len() - 1 {
                    assert(ranges[i] == before[i]);
                } else {
                    assert(before[i] == last);
                    assert(ranges[i] == joined);
                }
            }
        } else {
            assert(ranges.drop_last() =~= before);
            assert(read_items(ranges) =~= read_items(before).push(item));
            assert forall|i: int| 0 <= i < ranges.len() implies (#[trigger] ranges[i]).holds()
                && ranges[i].end <= size && ranges[i].items.len() > 0 && ranges[i].bounded() && ranges[i].items.len()
                <= items.len() by {
                if i < before.len() {
                    assert(ranges[i] == before[i]);
                }
            }
        }
    }
}

/// The ranges to read for tensors in the order of the file.
pub fn read_ranges(items: &Vec<ReadItem>) -> (ranges: Vec<ReadRange>)
    requires
        ends_within(items@, u64::MAX as int),
    ensures
        range_views(ranges@) == ranges_of(items@),
{
    let mut ranges: Vec<ReadRange> = Vec::new();
    let mut i: usize = 0;
    assert(range_views(ranges@) =~= ranges_of(items@.subrange(0, 0)));
    while i < items.len()
        invariant
            i <= items@.len(),
            ends_within(items@, u64::MAX as int),
            range_views(ranges@) == ranges_of(items@.subrange(0, i as int)),
        decreases items@.len() - i,
    {
        let item: ReadItem = items[i];
        assert(items@[i as int].end() <= u64::MAX);
        let item_end: u64 = item.offset + item.length as u64;
        let ghost before = ranges@;
        let ghost prefix = items@.subrange(0, i as int + 1);
        assert(prefix.drop_last() =~= items@.subrange(0, i as int));
        let mut joined: bool = false;
        match ranges.pop() {
            Some(last) => {
                let mut last: ReadRange = last;
                assert(range_views(before).last() == last@);
                assert(range_views(ranges@) =~= range_views(before).drop_last());
                if item.offset.saturating_sub(last.end) <= MAX_GAP && item_end.saturating_sub(
                    last.start,
                ) <= MAX_SPAN {
                    if item_end > last.end {
                        last.end = item_end;
                    }
                    last.items.push(item);
                    joined = true;
                }
                ranges.push(last);
            },
            None => {},
        }
        if joined {
            assert(range_views(ranges@) =~= ranges_of(prefix));
        } else {
            assert(range_views(ranges@) =~= range_views(before));
            let mut single: Vec<ReadItem> = Vec::new();
            single.push(item);
            ranges.push(ReadRange { start: item.offset, end: item_end, items: single });
            assert(single_view(ranges@.last()@, item));
            assert(range_views(ranges@) =~= ranges_of(prefix));
        }
        i += 1;
    }
    assert(items@.subrange(0, items@.len() as int) =~= items@);
    ranges
}

spec fn single_view(range: RangeView, item: ReadItem) -> bool {
    range.items =~= seq![item] && range == RangeView::of(item)
}

/// How many ranges each of at most eight readers gets.
pub fn ranges_per_worker(count: usize) -> (share: usize)
    requires
        count > 0,
    ensures
        share >= 1,
        share * 8 >= count,
        (share - 1) * (if count < 8 {
            count as int
        } else {
            8
        }) < count,
{
    let workers: usize = if count < 8 {
        count
    } else {
        8
    };
    let share: usize = (count - 1) / workers + 1;
    assert(share * 8 >= count && (share - 1) * workers < count) by (nonlinear_arith)
        requires
            share == (count - 1) / (workers as int) + 1,
            1 <= workers <= 8,
            count > 0,
            workers == 8 || workers == count,
    ;
    share
}

/// The bytes of a tensor of a range.
pub open spec fn payload_of(range: RangeView, bytes: Seq<u8>, i: int) -> Seq<u8> {
    bytes.subrange(range.items[i].offset - range.start, range.items[i].end() - range.start)
}

/// Whether a tensor's bytes have the digest that was asked for.
pub open spec fn authentic(digest: Seq<u8>, wanted: Seq<char>) -> bool {
    hex_text(digest) == wanted
}

/// Tests a digest against its text.
pub fn digest_matches(digest: &[u8; 32], wanted: &str) -> (result: bool)
    ensures
        result == authentic(digest@, wanted@),
{
    same_text(hex_encode(digest.as_slice()).as_str(), wanted)
}

/// Whether `payload` is the `i`-th tensor of a range, and authentic.
pub open spec fn cut_out(
    range: RangeView,
    bytes: Seq<u8>,
    descriptors: Seq<Descriptor>,
    i: int,
    payload: (usize, Arc<Vec<u8>>),
) -> bool {
    &&& payload.0 == range.items[i].index
    &&& payload.1@ == payload_of(range, bytes, i)
    &&& authentic(
        sha256(payload_of(range, bytes, i)),
        descriptors[range.items[i].index as int].digest@,
    )
}

/// Cuts the tensors of a range out of its bytes. Each has to have the digest of
/// the descriptor that asked for it.
pub fn range_payloads(range: &ReadRange, bytes: &[u8], descriptors: &[Descriptor]) -> (result: Result<
    Vec<(usize, Arc<Vec<u8>>)>,
    ShardError,
>)
    requires
        range@.holds(),
        bytes@.len() == range.end - range.start,
        forall|i: int|
            0 <= i < range.items@.len() ==> (#[trigger] range.items@[i]).index < descriptors@.len(),
    ensures
        match result {
            Ok(payloads) => {
                &&& payloads@.len() == range.items@.len()
                &&& forall|i: int|
                    0 <= i < payloads@.len() ==> cut_out(
                        range@,
                        bytes@,
                        descriptors@,
                        i,
                        #[trigger] payloads@[i],
                    )
            },
            Err(error) => error == ShardError::TensorChecksum && exists|i: int|
                0 <= i < range.items@.len() && !authentic(
                    sha256(#[trigger] payload_of(range@, bytes@, i)),
                    descriptors@[range.items@[i].index as int].digest@,
                ),
        },
{
    let mut payloads: Vec<(usize, Arc<Vec<u8>>)> = Vec::new();
    let mut i: usize = 0;
    while i < range.items.len()
        invariant
            i <= range.items@.len(),
            range@.holds(),
            bytes@.len() == range.end - range.start,
            forall|i: int|
                0 <= i < range.items@.len() ==> (#[trigger] range.items@[i]).index
                    < descriptors@.len(),
            payloads@.len() == i,
            forall|j: int|
                0 <= j < payloads@.len() ==> cut_out(
                    range@,
                    bytes@,
                    descriptors@,
                    j,
                    #[trigger] payloads@[j],
                ),
        decreases range.items@.len() - i,
    {
        let item: ReadItem = range.items[i];
        assert(range@.items[i as int] == item);
        assert(bytes.len() == bytes@.len());
        let from: usize = (item.offset - range.start) as usize;
        let part: &[u8] = slice_subrange(bytes, from, from + item.length);
        assert(part@ == payload_of(range@, bytes@, i as int));
        let digest: [u8; 32] = sha256_digest(part);
        if !digest_matches(&digest, descriptors[item.index].digest.as_str()) {
            return Err(ShardError::TensorChecksum);
        }
        let payload: Vec<u8> = slice_to_vec(part);
        assert(payload@ =~= part@);
        payloads.push((item.index, Arc::new(payload)));
        assert(cut_out(range@, bytes@, descriptors@, i as int, payloads@[i as int]));
        i += 1;
    }
    Ok(payloads)
}

/// Tensors in the order of the file are read in one go as long as the gap to the next is
/// at most 64 KiB and the span stays within 8 MiB, and no longer: between two ranges one of
/// these is exceeded.
pub proof fn ranges_part_only_where_they_must(items: Seq<ReadItem>, r: int)
    requires
        0 <= r < ranges_of(items).len() - 1,
    ensures
        ({
            let range = ranges_of(items)[r];
            let next = ranges_of(items)[r + 1].items[0];
            ranges_of(items)[r + 1].items.len() > 0 && (next.offset - range.end > 65536 || next.offset
                + next.length - range.start > 8388608)
        }),
    decreases items.len(),
{
    if items.len() > 0 {
        let before = ranges_of(items.drop_last());
        lemma_ranges_have_items(items.drop_last());
        let item = items.last();
        if before.len() > 0 && before.last().joins(item) {
            if r < before.len() - 1 {
                ranges_part_only_where_they_must(items.drop_last(), r);
                if r + 1 == before.len() - 1 {
                    assert(before[r + 1].items.push(item)[0] == before[r + 1].items[0]);
                }
            }
        } else if r < before.len() - 1 {
            ranges_part_only_where_they_must(items.drop_last(), r);
        } else {
            assert(ranges_of(items)[r] == before.last());
            assert(ranges_of(items)[r + 1] == RangeView::of(item));
        }
    }
}

proof fn lemma_ranges_have_items(items: Seq<ReadItem>)
    ensures
        forall|i: int|
            0 <= i < ranges_of(items).len() ==> (#[trigger] ranges_of(items)[i]).items.len() > 0,
    decreases items.len(),
{
    if items.len() > 0 {
        lemma_ranges_have_items(items.drop_last());
        let before = ranges_of(items.drop_last());
        let after = ranges_of(items);
        assert forall|i: int| 0 <= i < after.len() implies (#[trigger] after[i]).items.len() > 0 by {
            if i < before.len() - 1 {
                assert(after[i] == before[i]);
            } else if i == before.len() - 1 {
                assert(before[i].items.len() > 0);
            }
        }
    }
}

/// A tensor is cut out of a range at its own place: its bytes are those of the file from
/// its offset on, as many as it has, and it goes to the place that wanted it.
pub proof fn tensors_are_cut_out_at_their_offsets(
    range: RangeView,
    bytes: Seq<u8>,
    descriptors: Seq<Descriptor>,
    i: int,
    payload: (usize, Arc<Vec<u8>>),
    at: int,
)
    requires
        range.holds(),
        bytes.len() == range.end - range.start,
        0 <= i < range.items.len(),
        cut_out(range, bytes, descriptors, i, payload),
        0 <= at < range.items[i].length,
    ensures
        payload.0 == range.items[i].index,
        payload.1@.len() == range.items[i].length,
        payload.1@[at] == bytes[range.items[i].offset - range.start + at],
        hex_text(sha256(payload.1@)) == descriptors[range.items[i].index as int].digest@,
{
}

} // verus!
